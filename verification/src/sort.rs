use vstd::prelude::*;

verus! {

/// Identifies a leaf column that a sort key may select.
pub trait SortColumn {
    /// The leaf column ordinal this selector refers to.
    spec fn index_spec(&self) -> usize;

    /// Returns the leaf column ordinal this selector refers to.
    fn index(&self) -> (i: usize)
        ensures
            i == self.index_spec(),
    ;
}

impl SortColumn for usize {
    open spec fn index_spec(&self) -> usize {
        *self
    }

    fn index(&self) -> (i: usize)
    {
        *self
    }
}

/// One sort-key selector: a column, a direction, and a null placement.
#[derive(Copy, Clone, Debug, Eq, Ord, PartialEq, PartialOrd)]
pub struct Sort<C> {
    pub column: C,
    pub descending: bool,
    pub nulls_first: bool,
}

impl<C: Copy> Sort<C> {
    /// An ascending, nulls-last selector for the given column.
    pub fn new(column: C) -> (s: Self)
        ensures
            s.column == column,
            !s.descending,
            !s.nulls_first,
    {
        Self { column, descending: false, nulls_first: false }
    }

    /// The same selector with the direction flipped to descending.
    pub fn descending(&self) -> (s: Self)
        ensures
            s.column == self.column,
            s.descending,
            s.nulls_first == self.nulls_first,
    {
        Self { column: self.column, descending: true, nulls_first: self.nulls_first }
    }

    /// The same selector with nulls ranked first.
    pub fn nulls_first(&self) -> (s: Self)
        ensures
            s.column == self.column,
            s.descending == self.descending,
            s.nulls_first,
    {
        Self { column: self.column, descending: self.descending, nulls_first: true }
    }
}

/// An ordered list of one to five sort selectors.
#[derive(Copy, Clone, Debug, Eq, Ord, PartialEq, PartialOrd)]
pub enum SortKey<C> {
    Columns1(Sort<C>),
    Columns2(Sort<C>, Sort<C>),
    Columns3(Sort<C>, Sort<C>, Sort<C>),
    Columns4(Sort<C>, Sort<C>, Sort<C>, Sort<C>),
    Columns5(Sort<C>, Sort<C>, Sort<C>, Sort<C>, Sort<C>),
}

impl<C> SortKey<C> {
    /// The selectors of this key, in order.
    pub open spec fn columns_spec(&self) -> Seq<Sort<C>> {
        match self {
            SortKey::Columns1(c0) => seq![*c0],
            SortKey::Columns2(c0, c1) => seq![*c0, *c1],
            SortKey::Columns3(c0, c1, c2) => seq![*c0, *c1, *c2],
            SortKey::Columns4(c0, c1, c2, c3) => seq![*c0, *c1, *c2, *c3],
            SortKey::Columns5(c0, c1, c2, c3, c4) => seq![*c0, *c1, *c2, *c3, *c4],
        }
    }
}

impl<C: Copy> SortKey<C> {
    /// The selectors of this key, in order.
    pub fn columns(&self) -> (cs: Vec<Sort<C>>)
        ensures
            cs@ == self.columns_spec(),
    {
        match self {
            SortKey::Columns1(c0) => {
                let v = vec![*c0];
                proof { assert(v@ =~= self.columns_spec()); }
                v
            }
            SortKey::Columns2(c0, c1) => {
                let v = vec![*c0, *c1];
                proof { assert(v@ =~= self.columns_spec()); }
                v
            }
            SortKey::Columns3(c0, c1, c2) => {
                let v = vec![*c0, *c1, *c2];
                proof { assert(v@ =~= self.columns_spec()); }
                v
            }
            SortKey::Columns4(c0, c1, c2, c3) => {
                let v = vec![*c0, *c1, *c2, *c3];
                proof { assert(v@ =~= self.columns_spec()); }
                v
            }
            SortKey::Columns5(c0, c1, c2, c3, c4) => {
                let v = vec![*c0, *c1, *c2, *c3, *c4];
                proof { assert(v@ =~= self.columns_spec()); }
                v
            }
        }
    }
}

} // verus!
