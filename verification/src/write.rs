use vstd::prelude::*;

use crate::error::Error;

verus! {

/// Write-side settings: the row-group byte budget and what to do with a
/// single row that exceeds it on its own.
pub struct WriteConfig {
    pub max_size: u64,
    pub fail_on_oversized: bool,
}

impl WriteConfig {
    /// A fresh size counter for one row group, using this budget.
    pub fn size_counter(&self) -> (c: SizeCounter)
        ensures
            c.max_size == self.max_size,
            c.current_size is None,
            c.oversized is None,
    {
        SizeCounter::new(self.max_size)
    }
}

/// Accumulates row sizes for the row group being filled and remembers
/// when the group's very first row already exceeded the budget.
pub struct SizeCounter {
    pub max_size: u64,
    pub current_size: Option<u64>,
    pub oversized: Option<u64>,
}

impl SizeCounter {
    /// An empty counter with the given budget.
    pub fn new(max_size: u64) -> (c: Self)
        ensures
            c.max_size == max_size,
            c.current_size is None,
            c.oversized is None,
    {
        Self { max_size, current_size: None, oversized: None }
    }

    /// True when no row has been counted since the last reset.
    pub fn is_empty(&self) -> (r: bool)
        ensures
            r == (self.current_size is None),
    {
        self.current_size.is_none()
    }

    /// Forget the current row group's accumulated size.
    pub fn reset(&mut self)
        ensures
            final(self).max_size == old(self).max_size,
            final(self).current_size is None,
            final(self).oversized is None,
    {
        self.current_size = None;
        self.oversized = None;
    }

    /// Count one more row of the given size. Returns true when the row
    /// joins the current row group: always for the group's first row
    /// (even over budget, which is recorded), otherwise exactly when the
    /// accumulated size stays within the budget.
    pub fn add(&mut self, next_size: u64) -> (r: bool)
        ensures
            final(self).max_size == old(self).max_size,
            match old(self).current_size {
                Some(cur) => {
                    &&& r == (cur + next_size <= old(self).max_size)
                    &&& final(self).oversized == old(self).oversized
                    &&& if r {
                        final(self).current_size == Some((cur + next_size) as u64)
                    } else {
                        final(self).current_size == old(self).current_size
                    }
                },
                None => {
                    &&& r
                    &&& final(self).current_size == Some(next_size)
                    &&& final(self).oversized == if next_size > old(self).max_size {
                        Some(next_size)
                    } else {
                        old(self).oversized
                    }
                },
            },
    {
        match self.current_size {
            Some(current_size) => {
                match next_size.checked_add(current_size) {
                    Some(new_current_size) => {
                        if new_current_size <= self.max_size {
                            self.current_size = Some(new_current_size);
                            true
                        } else {
                            false
                        }
                    }
                    None => false,
                }
            }
            None => {
                if next_size > self.max_size {
                    self.oversized = Some(next_size);
                }
                self.current_size = Some(next_size);
                true
            }
        }
    }

    /// Wrap a row that was just counted, marking it oversized when it
    /// was the first of its group and over budget.
    pub fn checked<T>(&mut self, item: T) -> (r: SizeChecked<T>)
        ensures
            final(self).max_size == old(self).max_size,
            final(self).current_size == old(self).current_size,
            final(self).oversized is None,
            match old(self).oversized {
                Some(size) => r == (SizeChecked::Oversized {
                    value: item,
                    size,
                    limit: old(self).max_size,
                }),
                None => r == SizeChecked::Valid(item),
            },
    {
        match self.oversized {
            Some(size) => {
                self.oversized = None;
                SizeChecked::Oversized { value: item, size, limit: self.max_size }
            }
            None => SizeChecked::Valid(item),
        }
    }
}

/// A row to be written that may exceed the row-group size budget.
#[derive(Clone, Copy, Debug, Eq, PartialEq)]
pub enum SizeChecked<T> {
    Valid(T),
    Oversized { value: T, size: u64, limit: u64 },
}

impl<T> SizeChecked<T> {
    /// The wrapped row, whether or not it is oversized.
    pub fn value(&self) -> (v: &T)
        ensures
            match self {
                SizeChecked::Valid(value) => v == value,
                SizeChecked::Oversized { value, .. } => v == value,
            },
    {
        match self {
            SizeChecked::Valid(value) => value,
            SizeChecked::Oversized { value, .. } => value,
        }
    }
}

/// The greedy row-group partition of a stream of row sizes: each row
/// joins the open group when the accumulated size stays within `max`;
/// otherwise the open group closes and the row opens a new one. A row
/// larger than `max` therefore always stands alone in its own group.
/// Returns the row count of each closed group in order. `cur` and `cnt`
/// carry the open group's accumulated size and row count.
pub open spec fn greedy_counts(sizes: Seq<u64>, max: nat, cur: nat, cnt: nat) -> Seq<nat>
    decreases sizes.len(),
{
    if sizes.len() == 0 {
        if cnt > 0 {
            seq![cnt]
        } else {
            Seq::empty()
        }
    } else {
        let s = sizes[0] as nat;
        if cnt == 0 {
            greedy_counts(sizes.drop_first(), max, s, 1)
        } else if cur + s <= max {
            greedy_counts(sizes.drop_first(), max, cur + s, cnt + 1)
        } else {
            seq![cnt] + greedy_counts(sizes.drop_first(), max, s, 1)
        }
    }
}

/// The row-group partition of `sizes` under budget `max`.
pub open spec fn row_group_counts(sizes: Seq<u64>, max: nat) -> Seq<nat> {
    greedy_counts(sizes, max, 0, 0)
}

/// Whether some row size in `sizes` exceeds `max`.
pub open spec fn has_oversized(sizes: Seq<u64>, max: nat) -> bool {
    exists|i: int| 0 <= i < sizes.len() && sizes[i] > max
}

/// The index of the first row size in `sizes` that exceeds `max`.
pub open spec fn first_oversized(sizes: Seq<u64>, max: nat) -> int {
    choose|i: int|
        0 <= i < sizes.len() && sizes[i] > max && forall|j: int|
            0 <= j < i ==> sizes[j] <= max
}

/// The index of the row group that the first over-budget row opens:
/// the number of groups that the partition closes strictly before it,
/// written as the whole partition minus the part from that row on.
pub open spec fn oversized_row_group_index(sizes: Seq<u64>, max: nat) -> int {
    let i = first_oversized(sizes, max);
    row_group_counts(sizes, max).len() - greedy_counts(
        sizes.skip(i + 1),
        max,
        sizes[i] as nat,
        1,
    ).len()
}

/// Split a stream of row sizes into size-bounded row groups, returning
/// the row count of each group in order. A row whose size alone exceeds
/// `max_size` is placed alone in its own over-budget group when
/// `fail_on_oversized` is false; otherwise the split fails with
/// `OversizedRowValue`, carrying the index of the group that the first
/// such row would have opened, and no partition is returned.
pub fn plan_row_groups(sizes: &Vec<u64>, max_size: u64, fail_on_oversized: bool) -> (r: Result<
    Vec<usize>,
    Error,
>)
    ensures
        match r {
            Ok(counts) => {
                &&& !(fail_on_oversized && has_oversized(sizes@, max_size as nat))
                &&& counts@.map_values(|c: usize| c as nat) == row_group_counts(
                    sizes@,
                    max_size as nat,
                )
            },
            Err(e) => {
                &&& fail_on_oversized && has_oversized(sizes@, max_size as nat)
                &&& e == (Error::OversizedRowValue {
                    row_group_index: oversized_row_group_index(
                        sizes@,
                        max_size as nat,
                    ) as usize,
                })
            },
        },
{
    let mut counts: Vec<usize> = Vec::new();
    let mut counter = SizeCounter::new(max_size);
    let mut cnt: usize = 0;
    let mut i: usize = 0;

    proof {
        assert(sizes@.skip(0) =~= sizes@);
        assert(counts@.map_values(|c: usize| c as nat) =~= Seq::<nat>::empty());
        assert(Seq::<nat>::empty() + greedy_counts(sizes@, max_size as nat, 0, 0)
            =~= greedy_counts(sizes@, max_size as nat, 0, 0));
    }
    while i < sizes.len()
        invariant
            i <= sizes@.len(),
            cnt <= i,
            counts@.len() <= i,
            counter.max_size == max_size,
            counter.oversized is None,
            cnt == 0 <==> counter.current_size is None,
            forall|j: int| 0 <= j < i ==> !fail_on_oversized || sizes@[j] <= max_size,
            row_group_counts(sizes@, max_size as nat) == counts@.map_values(|c: usize| c as nat)
                + greedy_counts(
                sizes@.skip(i as int),
                max_size as nat,
                match counter.current_size {
                    Some(c) => c as nat,
                    None => 0,
                },
                cnt as nat,
            ),
        decreases sizes@.len() - i,
    {
        let ghost counts_top = counts@.map_values(|c: usize| c as nat);
        let ghost cur_top: nat = match counter.current_size {
            Some(c) => c as nat,
            None => 0,
        };
        let ghost cnt_top: nat = cnt as nat;
        let s = sizes[i];
        proof {
            assert(sizes@.skip(i as int)[0] == sizes@[i as int]);
            assert(sizes@.skip(i as int).drop_first() =~= sizes@.skip(i + 1));
        }
        let joined = counter.add(s);
        if joined {
            cnt = cnt + 1;
        } else {
            counts.push(cnt);
            counter.reset();
            let opened = counter.add(s);
            assert(opened);
            cnt = 1;
            proof {
                assert(counts@.map_values(|c: usize| c as nat) =~= counts_top.push(cnt_top));
                assert(counts_top.push(cnt_top) =~= counts_top + seq![cnt_top]);
            }
        }
        if counter.oversized.is_some() {
            proof {
                assert(sizes@[i as int] > max_size);
            }
            if fail_on_oversized {
                proof {
                    let iv = i as int;
                    assert(0 <= iv < sizes@.len() && sizes@[iv] > max_size && forall|j: int|
                        0 <= j < iv ==> sizes@[j] <= max_size);
                    let ic = first_oversized(sizes@, max_size as nat);
                    assert(0 <= ic < sizes@.len() && sizes@[ic] > max_size && forall|j: int|
                        0 <= j < ic ==> sizes@[j] <= max_size);
                    assert(ic == iv);
                    assert(row_group_counts(sizes@, max_size as nat)
                        == counts@.map_values(|c: usize| c as nat) + greedy_counts(
                        sizes@.skip(iv + 1),
                        max_size as nat,
                        sizes@[iv] as nat,
                        1,
                    ));
                    assert(counts@.len() == oversized_row_group_index(sizes@, max_size as nat));
                }
                return Err(Error::OversizedRowValue { row_group_index: counts.len() });
            }
            counter.oversized = None;
        }
        i = i + 1;
    }
    if cnt > 0 {
        counts.push(cnt);
    }
    proof {
        assert(sizes@.skip(i as int) =~= Seq::<u64>::empty());
        assert(counts@.map_values(|c: usize| c as nat) =~= row_group_counts(
            sizes@,
            max_size as nat,
        ));
        if fail_on_oversized {
            assert(!has_oversized(sizes@, max_size as nat));
        }
    }
    Ok(counts)
}

} // verus!
