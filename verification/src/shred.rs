use vstd::prelude::*;

use crate::schema::{Field, FieldKind, Schema};
use crate::value::{
    valid_children, valid_row, valid_value, vmodel_seq, Value, ValueModel, lemma_vmodel_seq_index,
    lemma_vmodel_seq_push, lemma_valid_elements_upto,
};

verus! {

/// The flat output of shredding, for one leaf column: the present
/// scalars, the definition levels (omitted when the column's maximum
/// is zero), and the repetition levels (likewise). Value entries and
/// level entries grow independently: a null occurrence adds a level
/// but no value.
#[verifier::ext_equal]
pub struct ColChunk {
    pub vals: Seq<ValueModel>,
    pub defs: Seq<u16>,
    pub reps: Seq<u16>,
}

/// An empty column chunk.
pub open spec fn empty_chunk() -> ColChunk {
    ColChunk { vals: Seq::empty(), defs: Seq::empty(), reps: Seq::empty() }
}

/// Concatenation of two chunks of one column.
pub open spec fn cat_chunk(a: ColChunk, b: ColChunk) -> ColChunk {
    ColChunk { vals: a.vals + b.vals, defs: a.defs + b.defs, reps: a.reps + b.reps }
}

/// Pointwise concatenation of two runs of column chunks of equal
/// width.
pub open spec fn cat_chunks(a: Seq<ColChunk>, b: Seq<ColChunk>) -> Seq<ColChunk> {
    Seq::new(a.len(), |i: int| cat_chunk(a[i], b[i]))
}

/// The chunks written for every column owned by an absent field: one
/// definition level `def` per column, plus the inherited repetition
/// level for columns inside a list.
pub open spec fn null_chunks(f: Field, def: u16, r: u16) -> Seq<ColChunk>
    decreases f,
{
    match f.kind {
        FieldKind::Leaf(_) => seq![
            ColChunk {
                vals: Seq::empty(),
                defs: seq![def],
                reps: if f.rep_depth > 0 {
                    seq![r]
                } else {
                    Seq::empty()
                },
            },
        ],
        FieldKind::Group(children) => null_chunks_seq(children@, def, r),
        FieldKind::List(elem) => null_chunks(*elem, def, r),
    }
}

/// The absent-field chunks of a run of sibling fields, side by side.
pub open spec fn null_chunks_seq(s: Seq<Field>, def: u16, r: u16) -> Seq<ColChunk>
    decreases s,
{
    if s.len() == 0 {
        Seq::empty()
    } else {
        null_chunks(s[0], def, r) + null_chunks_seq(s.drop_first(), def, r)
    }
}

/// The chunks that shredding one value of a field appends to the
/// field's columns, at inherited repetition level `r`: a present leaf
/// writes its scalar with its full definition level; an absent leaf or
/// group writes one definition level per owned column, one less than
/// the owner's depth; an absent list writes two less (one for the list
/// itself, one for its repeated wrapper); an empty list writes one
/// less than the list's depth; list elements are shredded with the
/// inherited level first and the list's own repetition depth from the
/// second element on.
pub open spec fn shred_spec(f: Field, v: ValueModel, r: u16) -> Seq<ColChunk>
    decreases v,
{
    if v is Null {
        if f.kind is List {
            null_chunks(f, (f.def_depth - 2) as u16, r)
        } else {
            null_chunks(f, (f.def_depth - 1) as u16, r)
        }
    } else {
        match f.kind {
            FieldKind::Leaf(_) => seq![
                ColChunk {
                    vals: seq![v],
                    defs: if f.def_depth > 0 {
                        seq![f.def_depth]
                    } else {
                        Seq::empty()
                    },
                    reps: if f.rep_depth > 0 {
                        seq![r]
                    } else {
                        Seq::empty()
                    },
                },
            ],
            FieldKind::Group(children) => {
                if v is Group {
                    shred_children(children@, v->Group_0, r)
                } else {
                    Seq::empty()
                }
            },
            FieldKind::List(elem) => {
                if v is List {
                    if v->List_0.len() == 0 {
                        null_chunks(f, (f.def_depth - 1) as u16, r)
                    } else {
                        shred_elements(*elem, v->List_0, r, f.rep_depth)
                    }
                } else {
                    Seq::empty()
                }
            },
        }
    }
}

/// The chunks of a run of sibling fields' values, side by side.
pub open spec fn shred_children(fs: Seq<Field>, vs: Seq<ValueModel>, r: u16) -> Seq<ColChunk>
    decreases vs,
{
    if fs.len() == 0 || vs.len() == 0 {
        Seq::empty()
    } else {
        shred_spec(fs[0], vs[0], r) + shred_children(fs.drop_first(), vs.drop_first(), r)
    }
}

/// The chunks of a list's elements: the first element carries the
/// inherited repetition level `r`, every later element the list's own
/// depth `k`.
pub open spec fn shred_elements(elem: Field, vs: Seq<ValueModel>, r: u16, k: u16) -> Seq<ColChunk>
    decreases vs,
{
    if vs.len() == 0 {
        Seq::empty()
    } else if vs.len() == 1 {
        shred_spec(elem, vs[0], r)
    } else {
        cat_chunks(shred_spec(elem, vs[0], r), shred_elements(elem, vs.drop_first(), k, k))
    }
}

/// The write-side workspace of one leaf column: three growable
/// buffers, flushed and cleared at each row-group boundary.
pub struct ColumnBuffer {
    pub values: Vec<Value>,
    pub def_levels: Vec<u16>,
    pub rep_levels: Vec<u16>,
}

/// The chunk a column buffer holds.
pub open spec fn buffer_chunk(b: ColumnBuffer) -> ColChunk {
    ColChunk { vals: vmodel_seq(b.values@), defs: b.def_levels@, reps: b.rep_levels@ }
}

/// The write-side workspace: one buffer per leaf column.
pub struct Workspace {
    pub columns: Vec<ColumnBuffer>,
}

impl Workspace {
    /// The chunks the workspace holds, one per column.
    pub open spec fn chunks(&self) -> Seq<ColChunk> {
        Seq::new(self.columns@.len(), |i: int| buffer_chunk(self.columns@[i]))
    }

    /// An empty workspace with one buffer per leaf column of the
    /// schema.
    #[verifier::loop_isolation(false)]
    pub fn new_for(s: &Schema) -> (ws: Workspace)
        ensures
            ws.columns@.len() == s.columns@.len(),
            forall|i: int| 0 <= i < s.columns@.len() ==> ws.chunks()[i] == empty_chunk(),
    {
        let mut columns: Vec<ColumnBuffer> = Vec::new();
        let n = s.columns.len();
        let mut i: usize = 0;
        while i < n
            invariant
                i <= n,
                columns@.len() == i,
                forall|j: int| 0 <= j < i ==> buffer_chunk(#[trigger] columns@[j]) == empty_chunk(),
            decreases n - i,
        {
            let b = ColumnBuffer {
                values: Vec::new(),
                def_levels: Vec::new(),
                rep_levels: Vec::new(),
            };
            proof {
                assert(vmodel_seq(Seq::<Value>::empty()) =~= Seq::<ValueModel>::empty());
                assert(buffer_chunk(b) =~= empty_chunk());
            }
            columns.push(b);
            i = i + 1;
        }
        Workspace { columns }
    }

    /// Clear every buffer, keeping the column count.
    #[verifier::loop_isolation(false)]
    pub fn clear(&mut self)
        ensures
            final(self).columns@.len() == old(self).columns@.len(),
            forall|i: int|
                0 <= i < final(self).columns@.len() ==> final(self).chunks()[i] == empty_chunk(),
    {
        let n = self.columns.len();
        let mut i: usize = 0;
        while i < n
            invariant
                i <= n,
                self.columns@.len() == n,
                forall|j: int|
                    0 <= j < i ==> buffer_chunk(#[trigger] self.columns@[j]) == empty_chunk(),
            decreases n - i,
        {
            let b = &mut self.columns[i];
            b.values = Vec::new();
            b.def_levels = Vec::new();
            b.rep_levels = Vec::new();
            proof {
                assert(vmodel_seq(Seq::<Value>::empty()) =~= Seq::<ValueModel>::empty());
                assert(buffer_chunk(self.columns@[i as int]) =~= empty_chunk());
            }
            i = i + 1;
        }
    }
}

/// Append one occurrence to a column buffer: the scalar when present,
/// the definition level when the column records them, the repetition
/// level when the column records those.
fn push_occurrence(
    ws: &mut Workspace,
    c: usize,
    val: Option<&Value>,
    def: Option<u16>,
    rep: Option<u16>,
)
    requires
        c < old(ws).columns@.len(),
        val matches Some(v) ==> !(*v is Null) && !(*v is Group) && !(*v is List),
    ensures
        final(ws).columns@.len() == old(ws).columns@.len(),
        forall|j: int|
            0 <= j < old(ws).columns@.len() && j != c
                ==> final(ws).chunks()[j] == old(ws).chunks()[j],
        final(ws).chunks()[c as int] == cat_chunk(
            old(ws).chunks()[c as int],
            ColChunk {
                vals: match val {
                    Some(v) => seq![v@],
                    None => Seq::empty(),
                },
                defs: match def {
                    Some(d) => seq![d],
                    None => Seq::empty(),
                },
                reps: match rep {
                    Some(rp) => seq![rp],
                    None => Seq::empty(),
                },
            },
        ),
{
    let ghost pre = ws.chunks()[c as int];
    let b = &mut ws.columns[c];
    match val {
        Some(v) => {
            let ghost vs_pre = b.values@;
            b.values.push(v.clone_scalar());
            proof {
                lemma_vmodel_seq_push(vs_pre, b.values@[b.values@.len() - 1]);
            }
        }
        None => {}
    }
    match def {
        Some(d) => b.def_levels.push(d),
        None => {}
    }
    match rep {
        Some(rp) => b.rep_levels.push(rp),
        None => {}
    }
    proof {
        let post = ws.chunks()[c as int];
        assert(post.vals =~= pre.vals + (match val {
            Some(v) => seq![v@],
            None => Seq::<ValueModel>::empty(),
        }));
        assert(post.defs =~= pre.defs + (match def {
            Some(d) => seq![d],
            None => Seq::<u16>::empty(),
        }));
        assert(post.reps =~= pre.reps + (match rep {
            Some(rp) => seq![rp],
            None => Seq::<u16>::empty(),
        }));
        assert(post =~= cat_chunk(pre, ColChunk {
            vals: match val {
                Some(v) => seq![v@],
                None => Seq::empty(),
            },
            defs: match def {
                Some(d) => seq![d],
                None => Seq::empty(),
            },
            reps: match rep {
                Some(rp) => seq![rp],
                None => Seq::empty(),
            },
        }));
    }
}

/// The i-th field of a well-formed run is well formed at its own
/// column start, and the runs' ranges chain left to right.
pub proof fn lemma_wf_fields_index(s: Seq<Field>, dd: int, rr: int, cs: int, ce: int, i: int)
    requires
        crate::schema::wf_fields(s, dd, rr, cs, ce),
        0 <= i < s.len(),
    ensures
        crate::schema::wf_field(s[i], dd, rr, s[i].col_start as int),
        cs <= s[i].col_start,
        s[i].col_end <= ce,
        i == 0 ==> s[i].col_start == cs,
        i + 1 < s.len() ==> s[i + 1].col_start == s[i].col_end,
        i + 1 == s.len() ==> s[i].col_end == ce,
    decreases s,
{
    assert(crate::schema::wf_field(s[0], dd, rr, cs));
    assert(crate::schema::wf_fields(s.drop_first(), dd, rr, s[0].col_end as int, ce));
    crate::sortkey::lemma_leaf_metas_len(s[0], dd, rr, cs);
    crate::sortkey::lemma_leaf_metas_seq_len(s.drop_first(), dd, rr, s[0].col_end as int, ce);
    if i == 0 {
        assert(s[0].col_start == cs);
        if s.len() > 1 {
            lemma_wf_fields_index(s.drop_first(), dd, rr, s[0].col_end as int, ce, 0);
            assert(s.drop_first()[0] == s[1]);
        }
    } else {
        lemma_wf_fields_index(s.drop_first(), dd, rr, s[0].col_end as int, ce, i - 1);
        assert(s.drop_first()[i - 1] == s[i]);
        if i + 1 < s.len() {
            assert(s.drop_first()[i] == s[i + 1]);
        }
    }
}

/// The absent-field chunks of a field are one per owned column.
pub proof fn lemma_null_chunks_len(f: Field, dd: int, rr: int, cs: int, def: u16, r: u16)
    requires
        crate::schema::wf_field(f, dd, rr, cs),
    ensures
        null_chunks(f, def, r).len() == f.col_end - cs,
    decreases f,
{
    match f.kind {
        FieldKind::Leaf(_) => {}
        FieldKind::Group(children) => {
            lemma_null_chunks_seq_len(
                children@,
                f.def_depth as int,
                f.rep_depth as int,
                cs,
                f.col_end as int,
                def,
                r,
            );
        }
        FieldKind::List(elem) => {
            lemma_null_chunks_len(*elem, f.def_depth as int, f.rep_depth as int, cs, def, r);
        }
    }
}

/// The absent-field chunks of a run of fields are one per covered
/// column.
pub proof fn lemma_null_chunks_seq_len(
    s: Seq<Field>,
    dd: int,
    rr: int,
    cs: int,
    ce: int,
    def: u16,
    r: u16,
)
    requires
        crate::schema::wf_fields(s, dd, rr, cs, ce),
    ensures
        null_chunks_seq(s, def, r).len() == ce - cs,
    decreases s,
{
    if s.len() > 0 {
        lemma_null_chunks_len(s[0], dd, rr, cs, def, r);
        lemma_null_chunks_seq_len(s.drop_first(), dd, rr, s[0].col_end as int, ce, def, r);
    }
}

/// The absent-field chunk at a column under a run of fields is the one
/// written by the child owning that column.
pub proof fn lemma_null_chunks_seq_index(
    s: Seq<Field>,
    dd: int,
    rr: int,
    cs: int,
    ce: int,
    def: u16,
    r: u16,
    k: int,
    j: int,
)
    requires
        crate::schema::wf_fields(s, dd, rr, cs, ce),
        0 <= k < s.len(),
        s[k].col_start <= j < s[k].col_end,
    ensures
        null_chunks_seq(s, def, r)[j - cs] == null_chunks(s[k], def, r)[j - s[k].col_start],
    decreases s,
{
    assert(crate::schema::wf_field(s[0], dd, rr, cs));
    assert(crate::schema::wf_fields(s.drop_first(), dd, rr, s[0].col_end as int, ce));
    lemma_null_chunks_len(s[0], dd, rr, cs, def, r);
    lemma_null_chunks_seq_len(s.drop_first(), dd, rr, s[0].col_end as int, ce, def, r);
    lemma_wf_fields_index(s, dd, rr, cs, ce, k);
    if k == 0 {
        assert(null_chunks_seq(s, def, r)[j - cs] == null_chunks(s[0], def, r)[j - cs]);
    } else {
        lemma_wf_fields_index(s.drop_first(), dd, rr, s[0].col_end as int, ce, k - 1);
        assert(s.drop_first()[k - 1] == s[k]);
        lemma_null_chunks_seq_index(
            s.drop_first(),
            dd,
            rr,
            s[0].col_end as int,
            ce,
            def,
            r,
            k - 1,
            j,
        );
        assert(null_chunks_seq(s, def, r)[j - cs] == null_chunks_seq(s.drop_first(), def, r)[j
            - s[0].col_end]);
    }
}

/// Shredding one value of a field writes one chunk per owned column.
pub proof fn lemma_shred_spec_len(f: Field, v: ValueModel, r: u16, dd: int, rr: int, cs: int)
    requires
        crate::schema::wf_field(f, dd, rr, cs),
        valid_value(f, v),
    ensures
        shred_spec(f, v, r).len() == f.col_end - cs,
    decreases v,
{
    if v is Null {
        if f.kind is List {
            lemma_null_chunks_len(f, dd, rr, cs, (f.def_depth - 2) as u16, r);
        } else {
            lemma_null_chunks_len(f, dd, rr, cs, (f.def_depth - 1) as u16, r);
        }
    } else {
        match f.kind {
            FieldKind::Leaf(_) => {}
            FieldKind::Group(children) => {
                lemma_shred_children_len(
                    children@,
                    v->Group_0,
                    r,
                    f.def_depth as int,
                    f.rep_depth as int,
                    cs,
                    f.col_end as int,
                );
            }
            FieldKind::List(elem) => {
                if v->List_0.len() == 0 {
                    lemma_null_chunks_len(f, dd, rr, cs, (f.def_depth - 1) as u16, r);
                } else {
                    lemma_shred_elements_len(
                        *elem,
                        v->List_0,
                        r,
                        f.rep_depth,
                        f.def_depth as int,
                        f.rep_depth as int,
                        cs,
                    );
                }
            }
        }
    }
}

/// Shredding a run of sibling values writes one chunk per covered
/// column.
pub proof fn lemma_shred_children_len(
    fs: Seq<Field>,
    vs: Seq<ValueModel>,
    r: u16,
    dd: int,
    rr: int,
    cs: int,
    ce: int,
)
    requires
        crate::schema::wf_fields(fs, dd, rr, cs, ce),
        valid_children(fs, vs),
        vs.len() == fs.len(),
    ensures
        shred_children(fs, vs, r).len() == ce - cs,
    decreases vs,
{
    if fs.len() > 0 && vs.len() > 0 {
        lemma_shred_spec_len(fs[0], vs[0], r, dd, rr, cs);
        lemma_shred_children_len(
            fs.drop_first(),
            vs.drop_first(),
            r,
            dd,
            rr,
            fs[0].col_end as int,
            ce,
        );
    }
}

/// Shredding a non-empty list's elements writes one chunk per owned
/// column.
pub proof fn lemma_shred_elements_len(
    elem: Field,
    vs: Seq<ValueModel>,
    r: u16,
    k: u16,
    dd: int,
    rr: int,
    cs: int,
)
    requires
        crate::schema::wf_field(elem, dd, rr, cs),
        crate::value::valid_elements(elem, vs),
        vs.len() > 0,
    ensures
        shred_elements(elem, vs, r, k).len() == elem.col_end - cs,
    decreases vs,
{
    if vs.len() == 1 {
        lemma_shred_spec_len(elem, vs[0], r, dd, rr, cs);
    } else {
        lemma_shred_spec_len(elem, vs[0], r, dd, rr, cs);
        lemma_shred_elements_len(elem, vs.drop_first(), k, k, dd, rr, cs);
    }
}

/// The chunk at a column under a run of shredded siblings is the one
/// written by the child owning that column.
pub proof fn lemma_shred_children_index(
    fs: Seq<Field>,
    vs: Seq<ValueModel>,
    r: u16,
    dd: int,
    rr: int,
    cs: int,
    ce: int,
    k: int,
    j: int,
)
    requires
        crate::schema::wf_fields(fs, dd, rr, cs, ce),
        valid_children(fs, vs),
        vs.len() == fs.len(),
        0 <= k < fs.len(),
        fs[k].col_start <= j < fs[k].col_end,
    ensures
        shred_children(fs, vs, r)[j - cs] == shred_spec(fs[k], vs[k], r)[j - fs[k].col_start],
    decreases vs,
{
    assert(crate::schema::wf_field(fs[0], dd, rr, cs));
    assert(crate::schema::wf_fields(fs.drop_first(), dd, rr, fs[0].col_end as int, ce));
    lemma_shred_spec_len(fs[0], vs[0], r, dd, rr, cs);
    lemma_shred_children_len(
        fs.drop_first(),
        vs.drop_first(),
        r,
        dd,
        rr,
        fs[0].col_end as int,
        ce,
    );
    lemma_wf_fields_index(fs, dd, rr, cs, ce, k);
    if k == 0 {
        assert(shred_children(fs, vs, r)[j - cs] == shred_spec(fs[0], vs[0], r)[j - cs]);
    } else {
        lemma_wf_fields_index(fs.drop_first(), dd, rr, fs[0].col_end as int, ce, k - 1);
        assert(fs.drop_first()[k - 1] == fs[k]);
        assert(vs.drop_first()[k - 1] == vs[k]);
        lemma_shred_children_index(
            fs.drop_first(),
            vs.drop_first(),
            r,
            dd,
            rr,
            fs[0].col_end as int,
            ce,
            k - 1,
            j,
        );
        assert(shred_children(fs, vs, r)[j - cs] == shred_children(
            fs.drop_first(),
            vs.drop_first(),
            r,
        )[j - fs[0].col_end]);
    }
}

/// Appending one more element to a shredded list appends its chunks
/// pointwise.
pub proof fn lemma_shred_elements_snoc(
    elem: Field,
    s: Seq<ValueModel>,
    x: ValueModel,
    r: u16,
    k: u16,
    dd: int,
    rr: int,
    cs: int,
)
    requires
        crate::schema::wf_field(elem, dd, rr, cs),
        crate::value::valid_elements(elem, s),
        valid_value(elem, x),
    ensures
        s.len() == 0 ==> shred_elements(elem, s.push(x), r, k) == shred_spec(elem, x, r),
        s.len() > 0 ==> shred_elements(elem, s.push(x), r, k) == cat_chunks(
            shred_elements(elem, s, r, k),
            shred_spec(elem, x, k),
        ),
    decreases s,
{
    if s.len() == 0 {
        assert(s.push(x)[0] == x);
    } else if s.len() == 1 {
        assert(s.push(x)[0] == s[0]);
        assert(s.push(x).drop_first() =~= seq![x]);
        assert(seq![x][0] == x);
        assert(shred_elements(elem, seq![x], k, k) == shred_spec(elem, x, k));
    } else {
        assert(valid_value(elem, s[0]));
        assert(crate::value::valid_elements(elem, s.drop_first()));
        lemma_shred_elements_snoc(elem, s.drop_first(), x, k, k, dd, rr, cs);
        assert(s.push(x)[0] == s[0]);
        assert(s.push(x).drop_first() =~= s.drop_first().push(x));
        lemma_shred_spec_len(elem, s[0], r, dd, rr, cs);
        lemma_shred_elements_len(elem, s.drop_first(), k, k, dd, rr, cs);
        lemma_shred_spec_len(elem, x, k, dd, rr, cs);
        lemma_cat_chunks_assoc(
            shred_spec(elem, s[0], r),
            shred_elements(elem, s.drop_first(), k, k),
            shred_spec(elem, x, k),
        );
    }
}

/// Pointwise chunk concatenation is associative.
pub proof fn lemma_cat_chunks_assoc(a: Seq<ColChunk>, b: Seq<ColChunk>, c: Seq<ColChunk>)
    requires
        b.len() == a.len(),
        c.len() == a.len(),
    ensures
        cat_chunks(cat_chunks(a, b), c) == cat_chunks(a, cat_chunks(b, c)),
{
    assert forall|i: int| 0 <= i < a.len() implies cat_chunks(cat_chunks(a, b), c)[i] == cat_chunks(
        a,
        cat_chunks(b, c),
    )[i] by {
        assert(cat_chunk(cat_chunk(a[i], b[i]), c[i]) =~= cat_chunk(a[i], cat_chunk(b[i], c[i])))
            by {
            assert((a[i].vals + b[i].vals) + c[i].vals =~= a[i].vals + (b[i].vals + c[i].vals));
            assert((a[i].defs + b[i].defs) + c[i].defs =~= a[i].defs + (b[i].defs + c[i].defs));
            assert((a[i].reps + b[i].reps) + c[i].reps =~= a[i].reps + (b[i].reps + c[i].reps));
        }
    }
    assert(cat_chunks(cat_chunks(a, b), c) =~= cat_chunks(a, cat_chunks(b, c)));
}

/// Write the absent-field levels for every column a field owns.
#[verifier::loop_isolation(false)]
fn write_null_levels(
    f: &Field,
    def: u16,
    r: u16,
    ws: &mut Workspace,
    Ghost(dd): Ghost<int>,
    Ghost(rr): Ghost<int>,
)
    requires
        crate::schema::wf_field(*f, dd, rr, f.col_start as int),
        f.col_end <= old(ws).columns@.len(),
    ensures
        final(ws).columns@.len() == old(ws).columns@.len(),
        forall|j: int|
            0 <= j < old(ws).columns@.len() && !(f.col_start <= j < f.col_end)
                ==> final(ws).chunks()[j] == old(ws).chunks()[j],
        forall|j: int|
            f.col_start <= j < f.col_end ==> final(ws).chunks()[j] == cat_chunk(
                old(ws).chunks()[j],
                null_chunks(*f, def, r)[j - f.col_start],
            ),
    decreases *f,
{
    proof {
        lemma_null_chunks_len(*f, dd, rr, f.col_start as int, def, r);
    }
    proof {
        assert(crate::schema::wf_field(*f, dd, rr, f.col_start as int));
    }
    match &f.kind {
        FieldKind::Leaf(_) => {
            proof {
                assert(f.col_end == f.col_start + 1);
            }
            push_occurrence(
                ws,
                f.col_start,
                None,
                Some(def),
                if f.rep_depth > 0 {
                    Some(r)
                } else {
                    None
                },
            );
            proof {
                assert(final(ws).chunks()[f.col_start as int] =~= cat_chunk(
                    old(ws).chunks()[f.col_start as int],
                    null_chunks(*f, def, r)[0],
                ));
            }
        }
        FieldKind::Group(children) => {
            let ghost fdd = f.def_depth as int;
            let ghost frr = f.rep_depth as int;
            let ghost fcs = f.col_start as int;
            let ghost fce = f.col_end as int;
            let n = children.len();
            let mut i: usize = 0;
            proof {
                lemma_wf_fields_index(children@, fdd, frr, fcs, fce, 0);
            }
            while i < n
                invariant
                    i <= n,
                    ws.columns@.len() == old(ws).columns@.len(),
                    forall|j: int|
                        0 <= j < old(ws).columns@.len() && !(fcs <= j < (if i < n {
                            children@[i as int].col_start as int
                        } else {
                            fce
                        })) ==> ws.chunks()[j] == old(ws).chunks()[j],
                    forall|j: int|
                        fcs <= j < (if i < n {
                            children@[i as int].col_start as int
                        } else {
                            fce
                        }) ==> ws.chunks()[j] == cat_chunk(
                            old(ws).chunks()[j],
                            null_chunks(*f, def, r)[j - fcs],
                        ),
                decreases n - i,
            {
                proof {
                    assert(decreases_to!(*f => f.kind));
                    assert(decreases_to!(f.kind => f.kind->Group_0));
                    assert(decreases_to!(f.kind->Group_0 => f.kind->Group_0[i as int]));
                    lemma_wf_fields_index(children@, fdd, frr, fcs, fce, i as int);
                }
                let ghost mid = ws.chunks();
                write_null_levels(&children[i], def, r, ws, Ghost(fdd), Ghost(frr));
                proof {
                    lemma_wf_fields_index(children@, fdd, frr, fcs, fce, i as int);
                    crate::sortkey::lemma_leaf_metas_len(
                        children@[i as int],
                        fdd,
                        frr,
                        children@[i as int].col_start as int,
                    );
                    if i + 1 < n {
                        lemma_wf_fields_index(children@, fdd, frr, fcs, fce, i as int + 1);
                    }
                    assert forall|j: int|
                        children@[i as int].col_start <= j < children@[i as int].col_end implies
                        ws.chunks()[j] == cat_chunk(
                            old(ws).chunks()[j],
                            null_chunks(*f, def, r)[j - fcs],
                        ) by {
                        lemma_null_chunks_seq_index(
                            children@,
                            fdd,
                            frr,
                            fcs,
                            fce,
                            def,
                            r,
                            i as int,
                            j,
                        );
                        assert(mid[j] == old(ws).chunks()[j]);
                    }
                }
                i = i + 1;
            }
        }
        FieldKind::List(elem) => {
            proof {
                assert(crate::schema::wf_field(
                    **elem,
                    f.def_depth as int,
                    f.rep_depth as int,
                    f.col_start as int,
                ));
                assert(elem.col_start == f.col_start && elem.col_end == f.col_end);
            }
            write_null_levels(
                &**elem,
                def,
                r,
                ws,
                Ghost(f.def_depth as int),
                Ghost(f.rep_depth as int),
            );
        }
    }
}


/// Shred one value of one field into the workspace: append its chunks
/// to the columns the field owns, at inherited repetition level `r`.
#[verifier::loop_isolation(false)]
fn shred_field(
    f: &Field,
    v: &Value,
    r: u16,
    ws: &mut Workspace,
    Ghost(dd): Ghost<int>,
    Ghost(rr): Ghost<int>,
)
    requires
        crate::schema::wf_field(*f, dd, rr, f.col_start as int),
        valid_value(*f, v@),
        f.col_end <= old(ws).columns@.len(),
        dd >= 0,
        rr >= 0,
    ensures
        final(ws).columns@.len() == old(ws).columns@.len(),
        forall|j: int|
            0 <= j < old(ws).columns@.len() && !(f.col_start <= j < f.col_end)
                ==> final(ws).chunks()[j] == old(ws).chunks()[j],
        forall|j: int|
            f.col_start <= j < f.col_end ==> final(ws).chunks()[j] == cat_chunk(
                old(ws).chunks()[j],
                shred_spec(*f, v@, r)[j - f.col_start],
            ),
    decreases *v,
{
    proof {
        assert(crate::schema::wf_field(*f, dd, rr, f.col_start as int));
        lemma_shred_spec_len(*f, v@, r, dd, rr, f.col_start as int);
    }
    match v {
        Value::Null => {
            if matches!(f.kind, FieldKind::List(_)) {
                write_null_levels(f, f.def_depth - 2, r, ws, Ghost(dd), Ghost(rr));
            } else {
                write_null_levels(f, f.def_depth - 1, r, ws, Ghost(dd), Ghost(rr));
            }
        }
        _ => {
            match &f.kind {
                FieldKind::Leaf(_) => {
                    proof {
                        assert(f.col_end == f.col_start + 1);
                    }
                    push_occurrence(
                        ws,
                        f.col_start,
                        Some(v),
                        if f.def_depth > 0 {
                            Some(f.def_depth)
                        } else {
                            None
                        },
                        if f.rep_depth > 0 {
                            Some(r)
                        } else {
                            None
                        },
                    );
                    proof {
                        assert(final(ws).chunks()[f.col_start as int] =~= cat_chunk(
                            old(ws).chunks()[f.col_start as int],
                            shred_spec(*f, v@, r)[0],
                        ));
                    }
                }
                FieldKind::Group(children) => {
                    match v {
                        Value::Group(vs) => {
                            proof {
                                assert(decreases_to!(*v => v->Group_0));
                                assert(decreases_to!(v->Group_0 => v->Group_0@));
                                lemma_vmodel_seq_index(vs@);
                            }
                            shred_fields(
                                children,
                                vs,
                                r,
                                ws,
                                Ghost(f.def_depth as int),
                                Ghost(f.rep_depth as int),
                                Ghost(f.col_start as int),
                                Ghost(f.col_end as int),
                            );
                        }
                        _ => {
                            proof {
                                assert(false);
                            }
                        }
                    }
                }
                FieldKind::List(elem) => {
                    match v {
                        Value::List(vs) => {
                            if vs.len() == 0 {
                                write_null_levels(
                                    f,
                                    f.def_depth - 1,
                                    r,
                                    ws,
                                    Ghost(dd),
                                    Ghost(rr),
                                );
                            } else {
                                proof {
                                    lemma_vmodel_seq_index(vs@);
                                    assert(crate::schema::wf_field(
                                        **elem,
                                        f.def_depth as int,
                                        f.rep_depth as int,
                                        f.col_start as int,
                                    ));
                                }
                                let k = f.rep_depth;
                                let n = vs.len();
                                let ghost target = shred_elements(
                                    **elem,
                                    vmodel_seq(vs@),
                                    r,
                                    k,
                                );
                                let mut i: usize = 0;
                                while i < n
                                    invariant
                                        1 <= n == vs@.len(),
                                        i <= n,
                                        ws.columns@.len() == old(ws).columns@.len(),
                                        forall|j: int|
                                            0 <= j < old(ws).columns@.len() && !(f.col_start <= j
                                                < f.col_end) ==> ws.chunks()[j] == old(
                                                ws,
                                            ).chunks()[j],
                                        i == 0 ==> forall|j: int|
                                            f.col_start <= j < f.col_end ==> ws.chunks()[j] == old(
                                                ws,
                                            ).chunks()[j],
                                        i > 0 ==> forall|j: int|
                                            f.col_start <= j < f.col_end ==> ws.chunks()[j]
                                                == cat_chunk(
                                                old(ws).chunks()[j],
                                                shred_elements(
                                                    **elem,
                                                    vmodel_seq(vs@).take(i as int),
                                                    r,
                                                    k,
                                                )[j - f.col_start],
                                            ),
                                    decreases n - i,
                                {
                                    proof {
                                        assert(decreases_to!(*v => v->List_0));
                                        assert(decreases_to!(v->List_0 => v->List_0[i as int]));
                                        lemma_valid_elements_upto(
                                            **elem,
                                            vmodel_seq(vs@),
                                            vs@.len() as int,
                                        );
                                        assert(valid_value(**elem, vmodel_seq(vs@)[i as int]));
                                    }
                                    let rep = if i == 0 {
                                        r
                                    } else {
                                        k
                                    };
                                    let ghost mid = ws.chunks();
                                    shred_field(
                                        &**elem,
                                        &vs[i],
                                        rep,
                                        ws,
                                        Ghost(f.def_depth as int),
                                        Ghost(f.rep_depth as int),
                                    );
                                    proof {
                                        let evs = vmodel_seq(vs@);
                                        assert(evs.take(i as int).push(evs[i as int]) =~= evs.take(
                                            i + 1,
                                        ));
                                        assert(crate::value::valid_elements(
                                            **elem,
                                            evs.take(i as int),
                                        )) by {
                                            crate::value::lemma_valid_elements_upto(
                                                **elem,
                                                evs.take(i as int),
                                                i as int,
                                            );
                                        }
                                        lemma_shred_elements_snoc(
                                            **elem,
                                            evs.take(i as int),
                                            evs[i as int],
                                            r,
                                            k,
                                            f.def_depth as int,
                                            f.rep_depth as int,
                                            f.col_start as int,
                                        );
                                        if i > 0 {
                                            lemma_shred_elements_len(
                                                **elem,
                                                evs.take(i as int),
                                                r,
                                                k,
                                                f.def_depth as int,
                                                f.rep_depth as int,
                                                f.col_start as int,
                                            );
                                            lemma_shred_spec_len(
                                                **elem,
                                                evs[i as int],
                                                k,
                                                f.def_depth as int,
                                                f.rep_depth as int,
                                                f.col_start as int,
                                            );
                                            assert forall|j: int|
                                                f.col_start <= j < f.col_end implies ws.chunks()[j]
                                                == cat_chunk(
                                                old(ws).chunks()[j],
                                                shred_elements(**elem, evs.take(i + 1), r, k)[j
                                                    - f.col_start],
                                            ) by {
                                                assert(ws.chunks()[j] == cat_chunk(
                                                    mid[j],
                                                    shred_spec(**elem, evs[i as int], k)[j
                                                        - f.col_start],
                                                ));
                                                assert(mid[j] == cat_chunk(
                                                    old(ws).chunks()[j],
                                                    shred_elements(**elem, evs.take(i as int), r, k)[
                                                        j - f.col_start],
                                                ));
                                                assert(shred_elements(**elem, evs.take(i + 1), r, k)[
                                                    j - f.col_start] == cat_chunk(
                                                    shred_elements(**elem, evs.take(i as int), r, k)[
                                                        j - f.col_start],
                                                    shred_spec(**elem, evs[i as int], k)[j
                                                        - f.col_start],
                                                ));
                                                assert(cat_chunk(
                                                    cat_chunk(
                                                        old(ws).chunks()[j],
                                                        shred_elements(
                                                            **elem,
                                                            evs.take(i as int),
                                                            r,
                                                            k,
                                                        )[j - f.col_start],
                                                    ),
                                                    shred_spec(**elem, evs[i as int], k)[j
                                                        - f.col_start],
                                                ) =~= cat_chunk(
                                                    old(ws).chunks()[j],
                                                    cat_chunk(
                                                        shred_elements(
                                                            **elem,
                                                            evs.take(i as int),
                                                            r,
                                                            k,
                                                        )[j - f.col_start],
                                                        shred_spec(**elem, evs[i as int], k)[j
                                                            - f.col_start],
                                                    ),
                                                )) by {
                                                    assert((old(ws).chunks()[j].vals
                                                        + shred_elements(
                                                        **elem,
                                                        evs.take(i as int),
                                                        r,
                                                        k,
                                                    )[j - f.col_start].vals) + shred_spec(
                                                        **elem,
                                                        evs[i as int],
                                                        k,
                                                    )[j - f.col_start].vals =~= old(
                                                        ws,
                                                    ).chunks()[j].vals + (shred_elements(
                                                        **elem,
                                                        evs.take(i as int),
                                                        r,
                                                        k,
                                                    )[j - f.col_start].vals + shred_spec(
                                                        **elem,
                                                        evs[i as int],
                                                        k,
                                                    )[j - f.col_start].vals));
                                                    assert((old(ws).chunks()[j].defs
                                                        + shred_elements(
                                                        **elem,
                                                        evs.take(i as int),
                                                        r,
                                                        k,
                                                    )[j - f.col_start].defs) + shred_spec(
                                                        **elem,
                                                        evs[i as int],
                                                        k,
                                                    )[j - f.col_start].defs =~= old(
                                                        ws,
                                                    ).chunks()[j].defs + (shred_elements(
                                                        **elem,
                                                        evs.take(i as int),
                                                        r,
                                                        k,
                                                    )[j - f.col_start].defs + shred_spec(
                                                        **elem,
                                                        evs[i as int],
                                                        k,
                                                    )[j - f.col_start].defs));
                                                    assert((old(ws).chunks()[j].reps
                                                        + shred_elements(
                                                        **elem,
                                                        evs.take(i as int),
                                                        r,
                                                        k,
                                                    )[j - f.col_start].reps) + shred_spec(
                                                        **elem,
                                                        evs[i as int],
                                                        k,
                                                    )[j - f.col_start].reps =~= old(
                                                        ws,
                                                    ).chunks()[j].reps + (shred_elements(
                                                        **elem,
                                                        evs.take(i as int),
                                                        r,
                                                        k,
                                                    )[j - f.col_start].reps + shred_spec(
                                                        **elem,
                                                        evs[i as int],
                                                        k,
                                                    )[j - f.col_start].reps));
                                                }
                                            }
                                        }
                                    }
                                    i = i + 1;
                                }
                                proof {
                                    assert(vmodel_seq(vs@).take(n as int) =~= vmodel_seq(vs@));
                                }
                            }
                        }
                        _ => {
                            proof {
                                assert(false);
                            }
                        }
                    }
                }
            }
        }
    }
}

/// Shred a run of sibling fields' values into the workspace, side by
/// side over the columns they cover.
#[verifier::loop_isolation(false)]
fn shred_fields(
    fields: &Vec<Field>,
    vs: &Vec<Value>,
    r: u16,
    ws: &mut Workspace,
    Ghost(dd): Ghost<int>,
    Ghost(rr): Ghost<int>,
    Ghost(cs): Ghost<int>,
    Ghost(ce): Ghost<int>,
)
    requires
        crate::schema::wf_fields(fields@, dd, rr, cs, ce),
        valid_children(fields@, vmodel_seq(vs@)),
        vs@.len() == fields@.len(),
        0 <= cs,
        ce <= old(ws).columns@.len(),
        dd >= 0,
        rr >= 0,
    ensures
        final(ws).columns@.len() == old(ws).columns@.len(),
        forall|j: int|
            0 <= j < old(ws).columns@.len() && !(cs <= j < ce)
                ==> final(ws).chunks()[j] == old(ws).chunks()[j],
        forall|j: int|
            cs <= j < ce ==> final(ws).chunks()[j] == cat_chunk(
                old(ws).chunks()[j],
                shred_children(fields@, vmodel_seq(vs@), r)[j - cs],
            ),
    decreases vs@,
{
    proof {
        lemma_vmodel_seq_index(vs@);
        crate::sortkey::lemma_leaf_metas_seq_len(fields@, dd, rr, cs, ce);
    }
    let n = fields.len();
    let mut i: usize = 0;
    proof {
        if n > 0 {
            lemma_wf_fields_index(fields@, dd, rr, cs, ce, 0);
        }
    }
    while i < n
        invariant
            i <= n,
            ws.columns@.len() == old(ws).columns@.len(),
            forall|j: int|
                0 <= j < old(ws).columns@.len() && !(cs <= j < (if i < n {
                    fields@[i as int].col_start as int
                } else {
                    ce
                })) ==> ws.chunks()[j] == old(ws).chunks()[j],
            forall|j: int|
                cs <= j < (if i < n {
                    fields@[i as int].col_start as int
                } else {
                    ce
                }) ==> ws.chunks()[j] == cat_chunk(
                    old(ws).chunks()[j],
                    shred_children(fields@, vmodel_seq(vs@), r)[j - cs],
                ),
        decreases n - i,
    {
        proof {
            assert(decreases_to!(vs@ => vs@[i as int]));
            lemma_wf_fields_index(fields@, dd, rr, cs, ce, i as int);
            crate::value::lemma_valid_children_upto(
                fields@,
                vmodel_seq(vs@),
                fields@.len() as int,
            );
            assert(valid_value(fields@[i as int], vmodel_seq(vs@)[i as int]));
        }
        let ghost mid = ws.chunks();
        shred_field(&fields[i], &vs[i], r, ws, Ghost(dd), Ghost(rr));
        proof {
            lemma_wf_fields_index(fields@, dd, rr, cs, ce, i as int);
            crate::sortkey::lemma_leaf_metas_len(
                fields@[i as int],
                dd,
                rr,
                fields@[i as int].col_start as int,
            );
            if i + 1 < n {
                lemma_wf_fields_index(fields@, dd, rr, cs, ce, i as int + 1);
            }
            assert forall|j: int|
                fields@[i as int].col_start <= j < fields@[i as int].col_end implies ws.chunks()[j]
                == cat_chunk(
                old(ws).chunks()[j],
                shred_children(fields@, vmodel_seq(vs@), r)[j - cs],
            ) by {
                lemma_shred_children_index(
                    fields@,
                    vmodel_seq(vs@),
                    r,
                    dd,
                    rr,
                    cs,
                    ce,
                    i as int,
                    j,
                );
                assert(mid[j] == old(ws).chunks()[j]);
            }
        }
        i = i + 1;
    }
}

/// Shred one row into the workspace: append, for each leaf column,
/// the row's scalars, definition levels, and repetition levels. A
/// row's occurrences start at repetition level zero.
pub fn shred(s: &Schema, row: &Value, ws: &mut Workspace)
    requires
        crate::schema::wf_schema(*s),
        valid_row(*s, row@),
        old(ws).columns@.len() == s.columns@.len(),
    ensures
        final(ws).columns@.len() == old(ws).columns@.len(),
        final(ws).chunks() == cat_chunks(
            old(ws).chunks(),
            shred_children(s.fields@, row@->Group_0, 0),
        ),
{
    match row {
        Value::Group(vs) => {
            proof {
                lemma_vmodel_seq_index(vs@);
            }
            shred_fields(
                &s.fields,
                vs,
                0,
                ws,
                Ghost(0),
                Ghost(0),
                Ghost(0),
                Ghost(s.columns@.len() as int),
            );
            proof {
                assert(vmodel_seq(vs@) == row@->Group_0);
                assert(final(ws).chunks() =~= cat_chunks(
                    old(ws).chunks(),
                    shred_children(s.fields@, row@->Group_0, 0),
                ));
            }
        }
        _ => {
            proof {
                assert(false);
            }
        }
    }
}


/// Whether a field tree contains no lists.
pub open spec fn list_free(f: Field) -> bool
    decreases f,
{
    match f.kind {
        FieldKind::Leaf(_) => true,
        FieldKind::Group(children) => list_free_seq(children@),
        FieldKind::List(_) => false,
    }
}

/// Whether a run of fields contains no lists.
pub open spec fn list_free_seq(s: Seq<Field>) -> bool
    decreases s,
{
    if s.len() == 0 {
        true
    } else {
        list_free(s[0]) && list_free_seq(s.drop_first())
    }
}

/// In a list-free subtree whose depth admits definition levels, every
/// column's first written definition level tells a present value from
/// an absent one: an absent field writes one below its depth, a
/// present value writes at least its depth.
proof fn lemma_first_def_bound(f: Field, v: ValueModel, r: u16, dd: int, rr: int, cs: int, j: int)
    requires
        crate::schema::wf_field(f, dd, rr, cs),
        valid_value(f, v),
        list_free(f),
        f.def_depth >= 1,
        0 <= j < f.col_end - cs,
    ensures
        shred_spec(f, v, r)[j].defs.len() >= 1,
        v is Null ==> shred_spec(f, v, r)[j].defs[0] == f.def_depth - 1,
        !(v is Null) ==> shred_spec(f, v, r)[j].defs[0] >= f.def_depth,
    decreases v,
{
    crate::shred::lemma_shred_spec_len(f, v, r, dd, rr, cs);
    if v is Null {
        lemma_null_first_def(f, (f.def_depth - 1) as u16, r, dd, rr, cs, j);
    } else {
        match f.kind {
            FieldKind::Leaf(_) => {}
            FieldKind::Group(children) => {
                lemma_children_first_def_bound(
                    children@,
                    v->Group_0,
                    r,
                    f.def_depth as int,
                    f.rep_depth as int,
                    cs,
                    f.col_end as int,
                    j,
                    f.def_depth as int,
                );
            }
            FieldKind::List(_) => {}
        }
    }
}

/// Absent-field chunks write exactly the given definition level.
proof fn lemma_null_first_def(f: Field, def: u16, r: u16, dd: int, rr: int, cs: int, j: int)
    requires
        crate::schema::wf_field(f, dd, rr, cs),
        0 <= j < f.col_end - cs,
    ensures
        null_chunks(f, def, r)[j].defs.len() >= 1,
        null_chunks(f, def, r)[j].defs[0] == def,
    decreases f,
{
    lemma_null_chunks_len(f, dd, rr, cs, def, r);
    match f.kind {
        FieldKind::Leaf(_) => {}
        FieldKind::Group(children) => {
            lemma_null_seq_first_def(
                children@,
                def,
                r,
                f.def_depth as int,
                f.rep_depth as int,
                cs,
                f.col_end as int,
                j,
            );
        }
        FieldKind::List(elem) => {
            lemma_null_first_def(*elem, def, r, f.def_depth as int, f.rep_depth as int, cs, j);
        }
    }
}

/// Absent-field chunks of a run of fields write exactly the given
/// definition level.
proof fn lemma_null_seq_first_def(
    fs: Seq<Field>,
    def: u16,
    r: u16,
    dd: int,
    rr: int,
    cs: int,
    ce: int,
    j: int,
)
    requires
        crate::schema::wf_fields(fs, dd, rr, cs, ce),
        0 <= j < ce - cs,
    ensures
        null_chunks_seq(fs, def, r)[j].defs.len() >= 1,
        null_chunks_seq(fs, def, r)[j].defs[0] == def,
    decreases fs,
{
    assert(crate::schema::wf_field(fs[0], dd, rr, cs));
    lemma_null_chunks_len(fs[0], dd, rr, cs, def, r);
    lemma_null_chunks_seq_len(fs.drop_first(), dd, rr, fs[0].col_end as int, ce, def, r);
    if j < fs[0].col_end - cs {
        lemma_null_first_def(fs[0], def, r, dd, rr, cs, j);
    } else {
        lemma_null_seq_first_def(
            fs.drop_first(),
            def,
            r,
            dd,
            rr,
            fs[0].col_end as int,
            ce,
            j - (fs[0].col_end - cs),
        );
    }
}

/// Every column under a list-free run of present values opens with a
/// definition level at least the run's depth bound.
proof fn lemma_children_first_def_bound(
    fs: Seq<Field>,
    vs: Seq<ValueModel>,
    r: u16,
    dd: int,
    rr: int,
    cs: int,
    ce: int,
    j: int,
    bound: int,
)
    requires
        crate::schema::wf_fields(fs, dd, rr, cs, ce),
        valid_children(fs, vs),
        vs.len() == fs.len(),
        list_free_seq(fs),
        1 <= bound <= dd,
        0 <= j < ce - cs,
    ensures
        shred_children(fs, vs, r)[j].defs.len() >= 1,
        shred_children(fs, vs, r)[j].defs[0] >= bound,
    decreases vs,
{
    assert(crate::schema::wf_field(fs[0], dd, rr, cs));
    crate::shred::lemma_shred_spec_len(fs[0], vs[0], r, dd, rr, cs);
    crate::shred::lemma_shred_children_len(
        fs.drop_first(),
        vs.drop_first(),
        r,
        dd,
        rr,
        fs[0].col_end as int,
        ce,
    );
    if j < fs[0].col_end - cs {
        assert(valid_value(fs[0], vs[0]));
        assert(list_free(fs[0]));
        lemma_first_def_bound(fs[0], vs[0], r, dd, rr, cs, j);
        if vs[0] is Null {
            assert(fs[0].optional);
            assert(fs[0].def_depth == dd + 1);
        }
    } else {
        lemma_children_first_def_bound(
            fs.drop_first(),
            vs.drop_first(),
            r,
            dd,
            rr,
            fs[0].col_end as int,
            ce,
            j - (fs[0].col_end - cs),
            bound,
        );
    }
}

/// In a list-free schema, shredding is one to one: two valid values
/// that write the same chunks are the same value. Together with the
/// decoder's contract, whatever a successful decode of shredded data
/// returns is the very value that was shredded.
pub proof fn lemma_shred_injective(
    f: Field,
    v1: ValueModel,
    v2: ValueModel,
    r: u16,
    dd: int,
    rr: int,
    cs: int,
)
    requires
        crate::schema::wf_field(f, dd, rr, cs),
        valid_value(f, v1),
        valid_value(f, v2),
        list_free(f),
        dd >= 0,
        shred_spec(f, v1, r) == shred_spec(f, v2, r),
    ensures
        v1 == v2,
    decreases v1,
{
    crate::shred::lemma_shred_spec_len(f, v1, r, dd, rr, cs);
    crate::shred::lemma_shred_spec_len(f, v2, r, dd, rr, cs);
    crate::sortkey::lemma_leaf_metas_len(f, dd, rr, cs);
    crate::reconstruct::lemma_field_width_pos(f, dd, rr, cs);
    if v1 is Null && v2 is Null {
    } else if v1 is Null {
        assert(f.optional);
        lemma_first_def_bound(f, v1, r, dd, rr, cs, 0);
        lemma_first_def_bound(f, v2, r, dd, rr, cs, 0);
        assert(false);
    } else if v2 is Null {
        assert(f.optional);
        lemma_first_def_bound(f, v1, r, dd, rr, cs, 0);
        lemma_first_def_bound(f, v2, r, dd, rr, cs, 0);
        assert(false);
    } else {
        match f.kind {
            FieldKind::Leaf(_) => {
                assert(shred_spec(f, v1, r)[0].vals == shred_spec(f, v2, r)[0].vals);
                assert(shred_spec(f, v1, r)[0].vals[0] == v1);
                assert(shred_spec(f, v2, r)[0].vals[0] == v2);
            }
            FieldKind::Group(children) => {
                lemma_shred_children_injective(
                    children@,
                    v1->Group_0,
                    v2->Group_0,
                    r,
                    f.def_depth as int,
                    f.rep_depth as int,
                    cs,
                    f.col_end as int,
                );
                assert(v1 =~= v2);
            }
            FieldKind::List(_) => {}
        }
    }
}

/// Runs of sibling values that shred to the same chunks are the same
/// run, child by child.
pub proof fn lemma_shred_children_injective(
    fs: Seq<Field>,
    vs1: Seq<ValueModel>,
    vs2: Seq<ValueModel>,
    r: u16,
    dd: int,
    rr: int,
    cs: int,
    ce: int,
)
    requires
        crate::schema::wf_fields(fs, dd, rr, cs, ce),
        valid_children(fs, vs1),
        valid_children(fs, vs2),
        vs1.len() == fs.len(),
        vs2.len() == fs.len(),
        list_free_seq(fs),
        dd >= 0,
        shred_children(fs, vs1, r) == shred_children(fs, vs2, r),
    ensures
        vs1 == vs2,
    decreases vs1,
{
    if fs.len() == 0 {
        assert(vs1 =~= vs2);
    } else {
        assert(crate::schema::wf_field(fs[0], dd, rr, cs));
        crate::shred::lemma_shred_spec_len(fs[0], vs1[0], r, dd, rr, cs);
        crate::shred::lemma_shred_spec_len(fs[0], vs2[0], r, dd, rr, cs);
        crate::shred::lemma_shred_children_len(
            fs.drop_first(),
            vs1.drop_first(),
            r,
            dd,
            rr,
            fs[0].col_end as int,
            ce,
        );
        crate::shred::lemma_shred_children_len(
            fs.drop_first(),
            vs2.drop_first(),
            r,
            dd,
            rr,
            fs[0].col_end as int,
            ce,
        );
        let w = fs[0].col_end - cs;
        assert forall|j: int| 0 <= j < w implies shred_spec(fs[0], vs1[0], r)[j] == shred_spec(
            fs[0],
            vs2[0],
            r,
        )[j] by {
            assert(shred_children(fs, vs1, r)[j] == shred_spec(fs[0], vs1[0], r)[j]);
            assert(shred_children(fs, vs2, r)[j] == shred_spec(fs[0], vs2[0], r)[j]);
        }
        assert(shred_spec(fs[0], vs1[0], r) =~= shred_spec(fs[0], vs2[0], r));
        lemma_shred_injective(fs[0], vs1[0], vs2[0], r, dd, rr, cs);
        assert forall|j: int|
            0 <= j < ce - fs[0].col_end implies shred_children(fs.drop_first(), vs1.drop_first(), r)[
            j
        ] == shred_children(fs.drop_first(), vs2.drop_first(), r)[j] by {
            assert(shred_children(fs, vs1, r)[j + w] == shred_children(
                fs.drop_first(),
                vs1.drop_first(),
                r,
            )[j]);
            assert(shred_children(fs, vs2, r)[j + w] == shred_children(
                fs.drop_first(),
                vs2.drop_first(),
                r,
            )[j]);
        }
        assert(shred_children(fs.drop_first(), vs1.drop_first(), r) =~= shred_children(
            fs.drop_first(),
            vs2.drop_first(),
            r,
        ));
        lemma_shred_children_injective(
            fs.drop_first(),
            vs1.drop_first(),
            vs2.drop_first(),
            r,
            dd,
            rr,
            fs[0].col_end as int,
            ce,
        );
        assert(vs1[0] == vs2[0]);
        assert forall|idx: int| 0 <= idx < vs1.len() implies vs1[idx] == vs2[idx] by {
            if idx > 0 {
                assert(vs1.drop_first()[idx - 1] == vs2.drop_first()[idx - 1]);
            }
        }
        assert(vs1 =~= vs2);
    }
}


/// In a list-free subtree, shredding one value writes exactly one
/// occurrence to every owned column: one definition level where the
/// column records them (none otherwise), no repetition levels, and a
/// value exactly when the occurrence's definition level reaches the
/// column's maximum.
proof fn lemma_chunk_shape(f: Field, v: ValueModel, r: u16, dd: int, rr: int, cs: int, j: int)
    requires
        crate::schema::wf_field(f, dd, rr, cs),
        valid_value(f, v),
        list_free(f),
        rr == 0,
        dd >= 0,
        0 <= j < f.col_end - cs,
    ensures
        shred_spec(f, v, r)[j].defs.len() == (if crate::schema::leaf_metas(f)[j].max_def > 0 {
            1int
        } else {
            0int
        }),
        shred_spec(f, v, r)[j].reps.len() == 0,
        shred_spec(f, v, r)[j].vals.len() == (if crate::schema::leaf_metas(f)[j].max_def == 0 {
            1int
        } else if shred_spec(f, v, r)[j].defs[0] == crate::schema::leaf_metas(f)[j].max_def {
            1int
        } else {
            0int
        }),
    decreases v,
{
    crate::shred::lemma_shred_spec_len(f, v, r, dd, rr, cs);
    crate::sortkey::lemma_leaf_metas_len(f, dd, rr, cs);
    crate::sortkey::lemma_leaf_bounds(f, dd, rr, cs);
    if v is Null {
        assert(f.optional);
        lemma_null_shape(f, (f.def_depth - 1) as u16, r, dd, rr, cs, j);
        assert(crate::schema::leaf_metas(f)[j].max_def >= f.def_depth >= 1);
        assert(shred_spec(f, v, r)[j].defs[0] == f.def_depth - 1);
        lemma_leaf_def_exceeds(f, dd, rr, cs, j);
    } else {
        match f.kind {
            FieldKind::Leaf(_) => {
                assert(crate::schema::leaf_metas(f)[j].max_def == f.def_depth);
                assert(crate::schema::leaf_metas(f)[j].max_rep == f.rep_depth);
            }
            FieldKind::Group(children) => {
                lemma_children_chunk_shape(
                    children@,
                    v->Group_0,
                    r,
                    f.def_depth as int,
                    f.rep_depth as int,
                    cs,
                    f.col_end as int,
                    j,
                );
            }
            FieldKind::List(_) => {}
        }
    }
}

/// A column's maximum definition level strictly exceeds the level its
/// owner writes when absent.
proof fn lemma_leaf_def_exceeds(f: Field, dd: int, rr: int, cs: int, j: int)
    requires
        crate::schema::wf_field(f, dd, rr, cs),
        0 <= j < f.col_end - cs,
    ensures
        crate::schema::leaf_metas(f)[j].max_def >= f.def_depth,
    decreases f,
{
    crate::sortkey::lemma_leaf_metas_len(f, dd, rr, cs);
    crate::sortkey::lemma_leaf_bounds(f, dd, rr, cs);
}

/// Absent-field chunks in a list-free subtree at repetition depth zero
/// carry exactly one definition level and nothing else.
proof fn lemma_null_shape(f: Field, def: u16, r: u16, dd: int, rr: int, cs: int, j: int)
    requires
        crate::schema::wf_field(f, dd, rr, cs),
        list_free(f),
        rr == 0,
        0 <= j < f.col_end - cs,
    ensures
        null_chunks(f, def, r)[j].defs.len() == 1,
        null_chunks(f, def, r)[j].defs[0] == def,
        null_chunks(f, def, r)[j].reps.len() == 0,
        null_chunks(f, def, r)[j].vals.len() == 0,
    decreases f,
{
    lemma_null_chunks_len(f, dd, rr, cs, def, r);
    match f.kind {
        FieldKind::Leaf(_) => {}
        FieldKind::Group(children) => {
            lemma_null_seq_shape(
                children@,
                def,
                r,
                f.def_depth as int,
                f.rep_depth as int,
                cs,
                f.col_end as int,
                j,
            );
        }
        FieldKind::List(_) => {}
    }
}

/// Absent-field chunks of a list-free run at repetition depth zero
/// carry exactly one definition level and nothing else.
proof fn lemma_null_seq_shape(
    fs: Seq<Field>,
    def: u16,
    r: u16,
    dd: int,
    rr: int,
    cs: int,
    ce: int,
    j: int,
)
    requires
        crate::schema::wf_fields(fs, dd, rr, cs, ce),
        list_free_seq(fs),
        rr == 0,
        0 <= j < ce - cs,
    ensures
        null_chunks_seq(fs, def, r)[j].defs.len() == 1,
        null_chunks_seq(fs, def, r)[j].defs[0] == def,
        null_chunks_seq(fs, def, r)[j].reps.len() == 0,
        null_chunks_seq(fs, def, r)[j].vals.len() == 0,
    decreases fs,
{
    assert(crate::schema::wf_field(fs[0], dd, rr, cs));
    lemma_null_chunks_len(fs[0], dd, rr, cs, def, r);
    lemma_null_chunks_seq_len(fs.drop_first(), dd, rr, fs[0].col_end as int, ce, def, r);
    if j < fs[0].col_end - cs {
        lemma_null_shape(fs[0], def, r, dd, rr, cs, j);
    } else {
        lemma_null_seq_shape(
            fs.drop_first(),
            def,
            r,
            dd,
            rr,
            fs[0].col_end as int,
            ce,
            j - (fs[0].col_end - cs),
        );
    }
}

/// Chunk shapes of a list-free run of sibling values, column by
/// column.
pub proof fn lemma_children_chunk_shape(
    fs: Seq<Field>,
    vs: Seq<ValueModel>,
    r: u16,
    dd: int,
    rr: int,
    cs: int,
    ce: int,
    j: int,
)
    requires
        crate::schema::wf_fields(fs, dd, rr, cs, ce),
        valid_children(fs, vs),
        vs.len() == fs.len(),
        list_free_seq(fs),
        rr == 0,
        dd >= 0,
        0 <= j < ce - cs,
    ensures
        shred_children(fs, vs, r)[j].defs.len() == (if crate::schema::leaf_metas_seq(fs)[j].max_def
            > 0 {
            1int
        } else {
            0int
        }),
        shred_children(fs, vs, r)[j].reps.len() == 0,
        shred_children(fs, vs, r)[j].vals.len() == (if crate::schema::leaf_metas_seq(fs)[j].max_def
            == 0 {
            1int
        } else if shred_children(fs, vs, r)[j].defs[0] == crate::schema::leaf_metas_seq(fs)[
            j
        ].max_def {
            1int
        } else {
            0int
        }),
    decreases vs,
{
    assert(crate::schema::wf_field(fs[0], dd, rr, cs));
    assert(valid_value(fs[0], vs[0]));
    assert(list_free(fs[0]));
    crate::shred::lemma_shred_spec_len(fs[0], vs[0], r, dd, rr, cs);
    crate::shred::lemma_shred_children_len(
        fs.drop_first(),
        vs.drop_first(),
        r,
        dd,
        rr,
        fs[0].col_end as int,
        ce,
    );
    crate::sortkey::lemma_leaf_metas_len(fs[0], dd, rr, cs);
    crate::sortkey::lemma_leaf_metas_seq_len(fs.drop_first(), dd, rr, fs[0].col_end as int, ce);
    if j < fs[0].col_end - cs {
        lemma_chunk_shape(fs[0], vs[0], r, dd, rr, cs, j);
        assert(crate::schema::leaf_metas_seq(fs)[j] == crate::schema::leaf_metas(fs[0])[j]);
    } else {
        lemma_children_chunk_shape(
            fs.drop_first(),
            vs.drop_first(),
            r,
            dd,
            rr,
            fs[0].col_end as int,
            ce,
            j - (fs[0].col_end - cs),
        );
        assert(crate::schema::leaf_metas_seq(fs)[j] == crate::schema::leaf_metas_seq(
            fs.drop_first(),
        )[j - (fs[0].col_end - cs)]);
    }
}


/// Every column's first definition level under one shredded value
/// tells the value's shape: at least the surrounding depth always; one
/// (or, for lists, two) below the field's depth when absent; one below
/// when an empty list; at least the field's depth otherwise.
pub proof fn lemma_first_def(f: Field, v: ValueModel, r: u16, dd: int, rr: int, cs: int, j: int)
    requires
        crate::schema::wf_field(f, dd, rr, cs),
        valid_value(f, v),
        dd >= 0,
        f.def_depth >= 1,
        0 <= j < f.col_end - cs,
    ensures
        shred_spec(f, v, r)[j].defs.len() >= 1,
        shred_spec(f, v, r)[j].defs[0] >= dd,
        v is Null ==> shred_spec(f, v, r)[j].defs[0] == f.def_depth - (if f.kind is List {
            2int
        } else {
            1int
        }),
        (v is List && v->List_0.len() == 0) ==> shred_spec(f, v, r)[j].defs[0] == f.def_depth - 1,
        (!(v is Null) && !(v is List && v->List_0.len() == 0)) ==> shred_spec(f, v, r)[j].defs[0]
            >= f.def_depth,
    decreases v,
{
    crate::shred::lemma_shred_spec_len(f, v, r, dd, rr, cs);
    if v is Null {
        if f.kind is List {
            lemma_null_first_def(f, (f.def_depth - 2) as u16, r, dd, rr, cs, j);
        } else {
            lemma_null_first_def(f, (f.def_depth - 1) as u16, r, dd, rr, cs, j);
        }
    } else {
        match f.kind {
            FieldKind::Leaf(_) => {}
            FieldKind::Group(children) => {
                lemma_children_first_def(
                    children@,
                    v->Group_0,
                    r,
                    f.def_depth as int,
                    f.rep_depth as int,
                    cs,
                    f.col_end as int,
                    j,
                );
            }
            FieldKind::List(elem) => {
                if v->List_0.len() == 0 {
                    lemma_null_first_def(f, (f.def_depth - 1) as u16, r, dd, rr, cs, j);
                } else {
                    lemma_elements_first_def(
                        *elem,
                        v->List_0,
                        r,
                        f.rep_depth,
                        f.def_depth as int,
                        f.rep_depth as int,
                        cs,
                        j,
                    );
                }
            }
        }
    }
}

/// Every column's first definition level under a run of shredded
/// sibling values reaches at least the run's depth.
proof fn lemma_children_first_def(
    fs: Seq<Field>,
    vs: Seq<ValueModel>,
    r: u16,
    dd: int,
    rr: int,
    cs: int,
    ce: int,
    j: int,
)
    requires
        crate::schema::wf_fields(fs, dd, rr, cs, ce),
        valid_children(fs, vs),
        vs.len() == fs.len(),
        dd >= 1,
        0 <= j < ce - cs,
    ensures
        shred_children(fs, vs, r)[j].defs.len() >= 1,
        shred_children(fs, vs, r)[j].defs[0] >= dd,
    decreases vs,
{
    assert(crate::schema::wf_field(fs[0], dd, rr, cs));
    crate::shred::lemma_shred_spec_len(fs[0], vs[0], r, dd, rr, cs);
    crate::shred::lemma_shred_children_len(
        fs.drop_first(),
        vs.drop_first(),
        r,
        dd,
        rr,
        fs[0].col_end as int,
        ce,
    );
    if j < fs[0].col_end - cs {
        lemma_first_def(fs[0], vs[0], r, dd, rr, cs, j);
        if vs[0] is Null {
            assert(fs[0].optional);
        }
    } else {
        lemma_children_first_def(
            fs.drop_first(),
            vs.drop_first(),
            r,
            dd,
            rr,
            fs[0].col_end as int,
            ce,
            j - (fs[0].col_end - cs),
        );
    }
}

/// Every column's first definition level under a non-empty run of list
/// elements reaches at least the list's depth.
proof fn lemma_elements_first_def(
    elem: Field,
    vs: Seq<ValueModel>,
    r: u16,
    k: u16,
    dd: int,
    rr: int,
    cs: int,
    j: int,
)
    requires
        crate::schema::wf_field(elem, dd, rr, cs),
        crate::value::valid_elements(elem, vs),
        vs.len() > 0,
        dd >= 1,
        0 <= j < elem.col_end - cs,
    ensures
        shred_elements(elem, vs, r, k)[j].defs.len() >= 1,
        shred_elements(elem, vs, r, k)[j].defs[0] >= dd,
    decreases vs,
{
    crate::shred::lemma_shred_spec_len(elem, vs[0], r, dd, rr, cs);
    lemma_first_def(elem, vs[0], r, dd, rr, cs, j);
    if vs[0] is Null {
        assert(elem.optional);
    }
    if vs.len() > 1 {
        crate::shred::lemma_shred_elements_len(elem, vs.drop_first(), k, k, dd, rr, cs);
    }
}

/// Absent-field chunks open every column with the written repetition
/// level whenever the field sits inside a list.
proof fn lemma_null_first_rep(f: Field, def: u16, r: u16, dd: int, rr: int, cs: int, j: int)
    requires
        crate::schema::wf_field(f, dd, rr, cs),
        0 <= j < f.col_end - cs,
    ensures
        crate::schema::leaf_metas(f)[j].max_rep > 0 ==> null_chunks(f, def, r)[j].reps.len() >= 1
            && null_chunks(f, def, r)[j].reps[0] == r,
        crate::schema::leaf_metas(f)[j].max_rep == 0 ==> null_chunks(f, def, r)[j].reps.len() == 0,
    decreases f,
{
    lemma_null_chunks_len(f, dd, rr, cs, def, r);
    crate::sortkey::lemma_leaf_metas_len(f, dd, rr, cs);
    match f.kind {
        FieldKind::Leaf(_) => {}
        FieldKind::Group(children) => {
            lemma_null_seq_first_rep(
                children@,
                def,
                r,
                f.def_depth as int,
                f.rep_depth as int,
                cs,
                f.col_end as int,
                j,
            );
        }
        FieldKind::List(elem) => {
            lemma_null_first_rep(*elem, def, r, f.def_depth as int, f.rep_depth as int, cs, j);
        }
    }
}

/// Absent-field chunks of a run of fields open every column with the
/// written repetition level whenever the run sits inside a list.
proof fn lemma_null_seq_first_rep(
    fs: Seq<Field>,
    def: u16,
    r: u16,
    dd: int,
    rr: int,
    cs: int,
    ce: int,
    j: int,
)
    requires
        crate::schema::wf_fields(fs, dd, rr, cs, ce),
        0 <= j < ce - cs,
    ensures
        crate::schema::leaf_metas_seq(fs)[j].max_rep > 0 ==> null_chunks_seq(fs, def, r)[
            j
        ].reps.len() >= 1 && null_chunks_seq(fs, def, r)[j].reps[0] == r,
        crate::schema::leaf_metas_seq(fs)[j].max_rep == 0 ==> null_chunks_seq(fs, def, r)[
            j
        ].reps.len() == 0,
    decreases fs,
{
    assert(crate::schema::wf_field(fs[0], dd, rr, cs));
    lemma_null_chunks_len(fs[0], dd, rr, cs, def, r);
    lemma_null_chunks_seq_len(fs.drop_first(), dd, rr, fs[0].col_end as int, ce, def, r);
    crate::sortkey::lemma_leaf_metas_len(fs[0], dd, rr, cs);
    crate::sortkey::lemma_leaf_metas_seq_len(fs.drop_first(), dd, rr, fs[0].col_end as int, ce);
    if j < fs[0].col_end - cs {
        lemma_null_first_rep(fs[0], def, r, dd, rr, cs, j);
        assert(crate::schema::leaf_metas_seq(fs)[j] == crate::schema::leaf_metas(fs[0])[j]);
    } else {
        lemma_null_seq_first_rep(
            fs.drop_first(),
            def,
            r,
            dd,
            rr,
            fs[0].col_end as int,
            ce,
            j - (fs[0].col_end - cs),
        );
        assert(crate::schema::leaf_metas_seq(fs)[j] == crate::schema::leaf_metas_seq(
            fs.drop_first(),
        )[j - (fs[0].col_end - cs)]);
    }
}

/// Every column that records repetition levels opens each shredded
/// value's chunk with exactly the inherited level the value was
/// shredded at; columns that record none stay empty.
pub proof fn lemma_first_rep(f: Field, v: ValueModel, r: u16, dd: int, rr: int, cs: int, j: int)
    requires
        crate::schema::wf_field(f, dd, rr, cs),
        valid_value(f, v),
        dd >= 0,
        rr >= 0,
        0 <= j < f.col_end - cs,
    ensures
        crate::schema::leaf_metas(f)[j].max_rep > 0 ==> shred_spec(f, v, r)[j].reps.len() >= 1
            && shred_spec(f, v, r)[j].reps[0] == r,
        crate::schema::leaf_metas(f)[j].max_rep == 0 ==> shred_spec(f, v, r)[j].reps.len() == 0,
    decreases v,
{
    crate::shred::lemma_shred_spec_len(f, v, r, dd, rr, cs);
    crate::sortkey::lemma_leaf_metas_len(f, dd, rr, cs);
    if v is Null {
        if f.kind is List {
            lemma_null_first_rep(f, (f.def_depth - 2) as u16, r, dd, rr, cs, j);
        } else {
            lemma_null_first_rep(f, (f.def_depth - 1) as u16, r, dd, rr, cs, j);
        }
    } else {
        match f.kind {
            FieldKind::Leaf(_) => {}
            FieldKind::Group(children) => {
                lemma_children_first_rep(
                    children@,
                    v->Group_0,
                    r,
                    f.def_depth as int,
                    f.rep_depth as int,
                    cs,
                    f.col_end as int,
                    j,
                );
            }
            FieldKind::List(elem) => {
                crate::sortkey::lemma_leaf_bounds(f, dd, rr, cs);
                if v->List_0.len() == 0 {
                    lemma_null_first_rep(f, (f.def_depth - 1) as u16, r, dd, rr, cs, j);
                } else {
                    lemma_elements_first_rep(
                        *elem,
                        v->List_0,
                        r,
                        f.rep_depth,
                        f.def_depth as int,
                        f.rep_depth as int,
                        cs,
                        j,
                    );
                }
            }
        }
    }
}

/// Inside a list, every column's first repetition level under a run of
/// shredded sibling values is the inherited level.
pub proof fn lemma_children_first_rep(
    fs: Seq<Field>,
    vs: Seq<ValueModel>,
    r: u16,
    dd: int,
    rr: int,
    cs: int,
    ce: int,
    j: int,
)
    requires
        crate::schema::wf_fields(fs, dd, rr, cs, ce),
        valid_children(fs, vs),
        vs.len() == fs.len(),
        dd >= 0,
        rr >= 0,
        0 <= j < ce - cs,
    ensures
        crate::schema::leaf_metas_seq(fs)[j].max_rep > 0 ==> shred_children(fs, vs, r)[
            j
        ].reps.len() >= 1 && shred_children(fs, vs, r)[j].reps[0] == r,
        crate::schema::leaf_metas_seq(fs)[j].max_rep == 0 ==> shred_children(fs, vs, r)[
            j
        ].reps.len() == 0,
    decreases vs,
{
    assert(crate::schema::wf_field(fs[0], dd, rr, cs));
    crate::shred::lemma_shred_spec_len(fs[0], vs[0], r, dd, rr, cs);
    crate::shred::lemma_shred_children_len(
        fs.drop_first(),
        vs.drop_first(),
        r,
        dd,
        rr,
        fs[0].col_end as int,
        ce,
    );
    crate::sortkey::lemma_leaf_metas_len(fs[0], dd, rr, cs);
    crate::sortkey::lemma_leaf_metas_seq_len(fs.drop_first(), dd, rr, fs[0].col_end as int, ce);
    if j < fs[0].col_end - cs {
        lemma_first_rep(fs[0], vs[0], r, dd, rr, cs, j);
        assert(crate::schema::leaf_metas_seq(fs)[j] == crate::schema::leaf_metas(fs[0])[j]);
    } else {
        lemma_children_first_rep(
            fs.drop_first(),
            vs.drop_first(),
            r,
            dd,
            rr,
            fs[0].col_end as int,
            ce,
            j - (fs[0].col_end - cs),
        );
        assert(crate::schema::leaf_metas_seq(fs)[j] == crate::schema::leaf_metas_seq(
            fs.drop_first(),
        )[j - (fs[0].col_end - cs)]);
    }
}

/// Inside a list, every column's first repetition level under a
/// non-empty run of list elements is the first element's inherited
/// level.
pub proof fn lemma_elements_first_rep(
    elem: Field,
    vs: Seq<ValueModel>,
    r: u16,
    k: u16,
    dd: int,
    rr: int,
    cs: int,
    j: int,
)
    requires
        crate::schema::wf_field(elem, dd, rr, cs),
        crate::value::valid_elements(elem, vs),
        vs.len() > 0,
        dd >= 0,
        rr >= 0,
        0 <= j < elem.col_end - cs,
    ensures
        crate::schema::leaf_metas(elem)[j].max_rep > 0 ==> shred_elements(elem, vs, r, k)[
            j
        ].reps.len() >= 1 && shred_elements(elem, vs, r, k)[j].reps[0] == r,
    decreases vs,
{
    crate::shred::lemma_shred_spec_len(elem, vs[0], r, dd, rr, cs);
    lemma_first_rep(elem, vs[0], r, dd, rr, cs, j);
    if vs.len() > 1 {
        crate::shred::lemma_shred_elements_len(elem, vs.drop_first(), k, k, dd, rr, cs);
    }
}

/// Splitting a run of list elements after its first element: the
/// remaining elements' chunks follow, all at the list's own depth.
pub proof fn lemma_shred_elements_head(elem: Field, vs: Seq<ValueModel>, r: u16, k: u16)
    requires
        vs.len() >= 1,
    ensures
        vs.len() == 1 ==> shred_elements(elem, vs, r, k) == shred_spec(elem, vs[0], r),
        vs.len() > 1 ==> shred_elements(elem, vs, r, k) == cat_chunks(
            shred_spec(elem, vs[0], r),
            shred_elements(elem, vs.drop_first(), k, k),
        ),
{
}


/// Splitting a run of list elements anywhere: the first `i` elements'
/// chunks come first, then the remaining elements' chunks, which all
/// carry the list's own depth.
pub proof fn lemma_shred_elements_split(
    elem: Field,
    vs: Seq<ValueModel>,
    i: int,
    r: u16,
    k: u16,
    dd: int,
    rr: int,
    cs: int,
)
    requires
        crate::schema::wf_field(elem, dd, rr, cs),
        crate::value::valid_elements(elem, vs),
        1 <= i < vs.len(),
    ensures
        shred_elements(elem, vs, r, k) == cat_chunks(
            shred_elements(elem, vs.take(i), r, k),
            shred_elements(elem, vs.skip(i), k, k),
        ),
    decreases i,
{
    assert forall|q: int| 0 <= q < vs.take(i).len() implies crate::value::valid_value(
        elem,
        #[trigger] vs.take(i)[q],
    ) by {
        lemma_valid_elements_index(elem, vs, q);
    }
    assert(crate::value::valid_elements(elem, vs.take(i))) by {
        crate::value::lemma_valid_elements_upto(elem, vs.take(i), i);
    }
    if i == 1 {
        lemma_shred_elements_head(elem, vs, r, k);
        assert(vs.take(1) =~= seq![vs[0]]);
        assert(seq![vs[0]][0] == vs[0]);
        assert(shred_elements(elem, vs.take(1), r, k) == shred_spec(elem, vs[0], r));
        assert(vs.skip(1) =~= vs.drop_first());
    } else {
        lemma_shred_elements_split(elem, vs, i - 1, r, k, dd, rr, cs);
        // peel one more element off the tail
        let a = shred_elements(elem, vs.take(i - 1), r, k);
        let tail = vs.skip(i - 1);
        assert(tail.len() >= 2);
        lemma_shred_elements_head(elem, tail, k, k);
        assert(tail[0] == vs[i - 1]);
        assert(tail.drop_first() =~= vs.skip(i));
        assert(crate::value::valid_elements(elem, tail)) by {
            assert forall|q: int| 0 <= q < tail.len() implies crate::value::valid_value(
                elem,
                #[trigger] tail[q],
            ) by {
                lemma_valid_elements_index(elem, vs, q + (i - 1));
            }
            crate::value::lemma_valid_elements_upto(elem, tail, tail.len() as int);
        }
        assert(crate::value::valid_elements(elem, vs.take(i - 1))) by {
            assert forall|q: int| 0 <= q < i - 1 implies crate::value::valid_value(
                elem,
                #[trigger] vs.take(i - 1)[q],
            ) by {
                lemma_valid_elements_index(elem, vs, q);
            }
            crate::value::lemma_valid_elements_upto(elem, vs.take(i - 1), i - 1);
        }
        lemma_valid_elements_index(elem, vs, i - 1);
        lemma_shred_elements_snoc(elem, vs.take(i - 1), vs[i - 1], r, k, dd, rr, cs);
        assert(vs.take(i - 1).push(vs[i - 1]) =~= vs.take(i));
        crate::shred::lemma_shred_spec_len(elem, vs[i - 1], k, dd, rr, cs);
        assert(crate::value::valid_elements(elem, vs.skip(i))) by {
            assert(tail.drop_first() =~= vs.skip(i));
        }
        lemma_shred_elements_len(elem, vs.take(i - 1), r, k, dd, rr, cs);
        lemma_shred_elements_len(elem, vs.skip(i), k, k, dd, rr, cs);
        lemma_cat_chunks_assoc(
            a,
            shred_spec(elem, vs[i - 1], k),
            shred_elements(elem, vs.skip(i), k, k),
        );
    }
}

/// Each element of a valid run of list elements is valid.
pub proof fn lemma_valid_elements_index(elem: Field, vs: Seq<ValueModel>, q: int)
    requires
        crate::value::valid_elements(elem, vs),
        0 <= q < vs.len(),
    ensures
        crate::value::valid_value(elem, vs[q]),
    decreases q,
{
    if q > 0 {
        lemma_valid_elements_index(elem, vs.drop_first(), q - 1);
    }
}

} // verus!
