use vstd::prelude::*;

use crate::error::Error;
use crate::schema::{Field, FieldKind, Schema, TypeMapping};
use crate::shred::{
    buffer_chunk, cat_chunk, cat_chunks, empty_chunk, null_chunks, shred_children,
    shred_elements, shred_spec, ColChunk, Workspace, lemma_wf_fields_index,
    lemma_null_chunks_seq_index, lemma_null_chunks_len, lemma_null_chunks_seq_len,
};
use crate::value::{valid_children, valid_value, vmodel, vmodel_seq, Value, ValueModel};

verus! {

/// Read positions into the three streams of every column buffer.
pub struct Cursors {
    pub vals: Vec<usize>,
    pub defs: Vec<usize>,
    pub reps: Vec<usize>,
}

/// Whether the cursors index one position per column of the workspace
/// and none of them stands past its stream's end.
pub open spec fn cursors_wf(cur: Cursors, ws: Workspace) -> bool {
    &&& cur.vals@.len() == ws.columns@.len()
    &&& cur.defs@.len() == ws.columns@.len()
    &&& cur.reps@.len() == ws.columns@.len()
    &&& forall|c: int|
        #![trigger cur.vals@[c]]
        #![trigger cur.defs@[c]]
        #![trigger cur.reps@[c]]
        0 <= c < ws.columns@.len() ==> cur.vals@[c] <= ws.chunks()[c].vals.len() && cur.defs@[c]
            <= ws.chunks()[c].defs.len() && cur.reps@[c] <= ws.chunks()[c].reps.len()
}

/// The chunk read between two cursor states on one column.
pub open spec fn window(ws: Workspace, a: Cursors, b: Cursors, c: int) -> ColChunk {
    ColChunk {
        vals: ws.chunks()[c].vals.subrange(a.vals@[c] as int, b.vals@[c] as int),
        defs: ws.chunks()[c].defs.subrange(a.defs@[c] as int, b.defs@[c] as int),
        reps: ws.chunks()[c].reps.subrange(a.reps@[c] as int, b.reps@[c] as int),
    }
}

/// Whether the second cursor state reads on from the first.
pub open spec fn cursors_ge(a: Cursors, b: Cursors) -> bool {
    &&& a.vals@.len() == b.vals@.len()
    &&& a.defs@.len() == b.defs@.len()
    &&& a.reps@.len() == b.reps@.len()
    &&& forall|c: int|
        #![trigger b.vals@[c]]
        #![trigger b.defs@[c]]
        #![trigger b.reps@[c]]
        0 <= c < a.vals@.len() ==> b.vals@[c] >= a.vals@[c] && b.defs@[c] >= a.defs@[c]
            && b.reps@[c] >= a.reps@[c]
}

impl Cursors {
    /// Cursors at the start of every stream.
    #[verifier::loop_isolation(false)]
    pub fn new_for(ws: &Workspace) -> (cur: Cursors)
        ensures
            cursors_wf(cur, *ws),
            forall|c: int|
                0 <= c < ws.columns@.len() ==> (#[trigger] cur.vals@[c]) == 0 && cur.defs@[c] == 0
                    && cur.reps@[c] == 0,
    {
        let n = ws.columns.len();
        let mut cur = Cursors { vals: Vec::new(), defs: Vec::new(), reps: Vec::new() };
        let mut i: usize = 0;
        while i < n
            invariant
                i <= n,
                cur.vals@.len() == i,
                cur.defs@.len() == i,
                cur.reps@.len() == i,
                forall|c: int|
                    0 <= c < i ==> (#[trigger] cur.vals@[c]) == 0 && cur.defs@[c] == 0
                        && cur.reps@[c] == 0,
            decreases n - i,
        {
            cur.vals.push(0);
            cur.defs.push(0);
            cur.reps.push(0);
            i = i + 1;
        }
        proof {
            assert(cur.vals@.len() == ws.columns@.len());
            assert(cur.defs@.len() == ws.columns@.len());
            assert(cur.reps@.len() == ws.columns@.len());
            assert forall|c: int|
                0 <= c < ws.columns@.len() implies (#[trigger] cur.vals@[c]) <= ws.chunks()[
                c].vals.len() && cur.defs@[c] <= ws.chunks()[c].defs.len() && cur.reps@[c]
                <= ws.chunks()[c].reps.len() by {
                assert(i == n);
                assert(n == ws.columns@.len());
                assert(0 <= c < i as int);
                assert(cur.vals@[c] == 0);
                assert(cur.defs@[c] == 0);
                assert(cur.reps@[c] == 0);
            }
            assert(cursors_wf(cur, *ws));
        }
        cur
    }
}

/// Read and consume one occurrence of column `c`: its definition level
/// when `take_def`, its repetition level when `take_rep` (which must
/// equal `want_rep`), and its scalar when `take_val`. Fails with
/// `InvalidField` when a stream is exhausted or the repetition level
/// does not match.
fn take_occurrence(
    ws: &Workspace,
    cur: &mut Cursors,
    c: usize,
    take_val: bool,
    take_def: bool,
    take_rep: bool,
    want_rep: u16,
    name: &String,
) -> (r: Result<(Option<Value>, u16), Error>)
    requires
        cursors_wf(*old(cur), *ws),
        c < ws.columns@.len(),
    ensures
        cursors_wf(*final(cur), *ws),
        cursors_ge(*old(cur), *final(cur)),
        match r {
            Ok((v, d)) => {
                &&& forall|j: int|
                    0 <= j < ws.columns@.len() && j != c ==> (#[trigger] final(cur).vals@[j])
                        == old(cur).vals@[j] && final(cur).defs@[j] == old(cur).defs@[j]
                        && final(cur).reps@[j] == old(cur).reps@[j]
                &&& window(*ws, *old(cur), *final(cur), c as int) == (ColChunk {
                    vals: match v {
                        Some(x) => seq![x@],
                        None => Seq::empty(),
                    },
                    defs: if take_def {
                        seq![d]
                    } else {
                        Seq::empty()
                    },
                    reps: if take_rep {
                        seq![want_rep]
                    } else {
                        Seq::empty()
                    },
                })
                &&& (v is Some) == take_val
                &&& (v matches Some(x) ==> !(x is Null) && !(x is Group) && !(x is List))
                &&& take_val ==> final(cur).vals@[c as int] == old(cur).vals@[c as int] + 1
                &&& take_def ==> final(cur).defs@[c as int] == old(cur).defs@[c as int] + 1
                &&& take_rep ==> final(cur).reps@[c as int] == old(cur).reps@[c as int] + 1
                &&& !take_val ==> final(cur).vals@[c as int] == old(cur).vals@[c as int]
                &&& !take_def ==> final(cur).defs@[c as int] == old(cur).defs@[c as int]
                &&& !take_rep ==> final(cur).reps@[c as int] == old(cur).reps@[c as int]
            },
            Err(e) => {
                &&& e is InvalidField
                &&& final(cur).vals@ == old(cur).vals@
                &&& final(cur).defs@ == old(cur).defs@
                &&& final(cur).reps@ == old(cur).reps@
                &&& {
                    ||| (take_def && old(cur).defs@[c as int] >= ws.chunks()[c as int].defs.len())
                    ||| (take_rep && (old(cur).reps@[c as int] >= ws.chunks()[
                        c as int].reps.len() || ws.chunks()[c as int].reps[old(cur).reps@[
                        c as int] as int] != want_rep))
                    ||| (take_val && (old(cur).vals@[c as int] >= ws.chunks()[
                        c as int].vals.len() || ws.chunks()[c as int].vals[old(cur).vals@[
                        c as int] as int] is Null || ws.chunks()[c as int].vals[old(cur).vals@[
                        c as int] as int] is Group || ws.chunks()[c as int].vals[old(cur).vals@[
                        c as int] as int] is List))
                }
            },
        },
{
    proof {
        assert(ws.chunks()[c as int] == buffer_chunk(ws.columns@[c as int]));
    }
    let ghost pre = *cur;
    let dpos = cur.defs[c];
    let rpos = cur.reps[c];
    let vpos = cur.vals[c];
    let mut out_val: Option<Value> = None;
    let mut out_def: u16 = 0;
    if take_def {
        if dpos >= ws.columns[c].def_levels.len() {
            return Err(Error::InvalidField(name.clone()));
        }
        out_def = ws.columns[c].def_levels[dpos];
    }
    if take_rep {
        if rpos >= ws.columns[c].rep_levels.len() {
            return Err(Error::InvalidField(name.clone()));
        }
        let got = ws.columns[c].rep_levels[rpos];
        if got != want_rep {
            return Err(Error::InvalidField(name.clone()));
        }
    }
    if take_val {
        proof {
            crate::value::lemma_vmodel_seq_index(ws.columns@[c as int].values@);
        }
        if vpos >= ws.columns[c].values.len() {
            return Err(Error::InvalidField(name.clone()));
        }
        proof {
            assert(ws.chunks()[c as int].vals[vpos as int] == crate::value::vmodel(
                ws.columns@[c as int].values@[vpos as int],
            ));
        }
        let v = &ws.columns[c].values[vpos];
        match v {
            Value::Null => {
                return Err(Error::InvalidField(name.clone()));
            }
            Value::Group(_) => {
                return Err(Error::InvalidField(name.clone()));
            }
            Value::List(_) => {
                return Err(Error::InvalidField(name.clone()));
            }
            _ => {}
        }
        out_val = Some(v.clone_scalar());
        proof {
            crate::value::lemma_vmodel_seq_index(ws.columns@[c as int].values@);
        }
    }
    if take_def {
        cur.defs.set(c, dpos + 1);
    }
    if take_rep {
        cur.reps.set(c, rpos + 1);
    }
    if take_val {
        cur.vals.set(c, vpos + 1);
    }
    proof {
        assert forall|j: int|
            0 <= j < ws.columns@.len() implies (#[trigger] cur.vals@[j]) <= ws.chunks()[
            j].vals.len() && cur.defs@[j] <= ws.chunks()[j].defs.len() && cur.reps@[j]
            <= ws.chunks()[j].reps.len() by {
            if j != c {
                assert(cur.vals@[j] == pre.vals@[j] && cur.defs@[j] == pre.defs@[j] && cur.reps@[j]
                    == pre.reps@[j]);
            }
        }
        assert(cursors_wf(*cur, *ws));
        assert forall|j: int|
            0 <= j < pre.vals@.len() implies (#[trigger] cur.vals@[j]) >= pre.vals@[j]
            && cur.defs@[j] >= pre.defs@[j] && cur.reps@[j] >= pre.reps@[j] by {
            if j != c {
                assert(cur.vals@[j] == pre.vals@[j] && cur.defs@[j] == pre.defs@[j] && cur.reps@[j]
                    == pre.reps@[j]);
            }
        }
        assert(cursors_ge(pre, *cur));
        assert(window(*ws, pre, *cur, c as int) =~= (ColChunk {
            vals: match out_val {
                Some(x) => seq![x@],
                None => Seq::empty(),
            },
            defs: if take_def {
                seq![out_def]
            } else {
                Seq::empty()
            },
            reps: if take_rep {
                seq![want_rep]
            } else {
                Seq::empty()
            },
        }));
    }
    Ok((out_val, out_def))
}

/// Peek the next definition level of column `c` without consuming it.
fn peek_def(ws: &Workspace, cur: &Cursors, c: usize) -> (r: Option<u16>)
    requires
        cursors_wf(*cur, *ws),
        c < ws.columns@.len(),
    ensures
        match r {
            Some(d) => {
                &&& cur.defs@[c as int] < ws.chunks()[c as int].defs.len()
                &&& d == ws.chunks()[c as int].defs[cur.defs@[c as int] as int]
            },
            None => cur.defs@[c as int] == ws.chunks()[c as int].defs.len(),
        },
{
    proof {
        assert(ws.chunks()[c as int] == buffer_chunk(ws.columns@[c as int]));
    }
    let pos = cur.defs[c];
    if pos >= ws.columns[c].def_levels.len() {
        None
    } else {
        Some(ws.columns[c].def_levels[pos])
    }
}

/// Peek the next repetition level of column `c` without consuming it.
fn peek_rep(ws: &Workspace, cur: &Cursors, c: usize) -> (r: Option<u16>)
    requires
        cursors_wf(*cur, *ws),
        c < ws.columns@.len(),
    ensures
        match r {
            Some(d) => {
                &&& cur.reps@[c as int] < ws.chunks()[c as int].reps.len()
                &&& d == ws.chunks()[c as int].reps[cur.reps@[c as int] as int]
            },
            None => cur.reps@[c as int] == ws.chunks()[c as int].reps.len(),
        },
{
    proof {
        assert(ws.chunks()[c as int] == buffer_chunk(ws.columns@[c as int]));
    }
    let pos = cur.reps[c];
    if pos >= ws.columns[c].rep_levels.len() {
        None
    } else {
        Some(ws.columns[c].rep_levels[pos])
    }
}


/// Under at least one optional or repeated level, every occurrence a
/// field shreds writes a definition level to each of its columns.
pub proof fn lemma_shred_defs_nonempty(
    f: Field,
    v: ValueModel,
    r: u16,
    dd: int,
    rr: int,
    cs: int,
    j: int,
)
    requires
        crate::schema::wf_field(f, dd, rr, cs),
        valid_value(f, v),
        dd >= 1,
        0 <= j < f.col_end - cs,
    ensures
        shred_spec(f, v, r)[j].defs.len() >= 1,
    decreases v,
{
    crate::shred::lemma_shred_spec_len(f, v, r, dd, rr, cs);
    if v is Null {
        if f.kind is List {
            lemma_null_defs_nonempty(f, (f.def_depth - 2) as u16, r, dd, rr, cs, j);
        } else {
            lemma_null_defs_nonempty(f, (f.def_depth - 1) as u16, r, dd, rr, cs, j);
        }
    } else {
        match f.kind {
            FieldKind::Leaf(_) => {}
            FieldKind::Group(children) => {
                lemma_shred_children_defs_nonempty(
                    children@,
                    v->Group_0,
                    r,
                    f.def_depth as int,
                    f.rep_depth as int,
                    cs,
                    f.col_end as int,
                    j,
                );
            }
            FieldKind::List(elem) => {
                if v->List_0.len() == 0 {
                    lemma_null_defs_nonempty(f, (f.def_depth - 1) as u16, r, dd, rr, cs, j);
                } else {
                    lemma_shred_elements_defs_nonempty(
                        *elem,
                        v->List_0,
                        r,
                        f.rep_depth,
                        f.def_depth as int,
                        f.rep_depth as int,
                        cs,
                        j,
                    );
                }
            }
        }
    }
}

/// Absent-field chunks always carry one definition level per column.
proof fn lemma_null_defs_nonempty(f: Field, def: u16, r: u16, dd: int, rr: int, cs: int, j: int)
    requires
        crate::schema::wf_field(f, dd, rr, cs),
        0 <= j < f.col_end - cs,
    ensures
        null_chunks(f, def, r)[j].defs.len() >= 1,
    decreases f,
{
    lemma_null_chunks_len(f, dd, rr, cs, def, r);
    match f.kind {
        FieldKind::Leaf(_) => {}
        FieldKind::Group(children) => {
            lemma_null_seq_defs_nonempty(
                children@,
                def,
                r,
                f.def_depth as int,
                f.rep_depth as int,
                cs,
                f.col_end as int,
                j,
            );
        }
        FieldKind::List(elem) => {
            lemma_null_defs_nonempty(*elem, def, r, f.def_depth as int, f.rep_depth as int, cs, j);
        }
    }
}

/// Absent-field chunks of a run of fields carry one definition level
/// per column.
proof fn lemma_null_seq_defs_nonempty(
    fs: Seq<Field>,
    def: u16,
    r: u16,
    dd: int,
    rr: int,
    cs: int,
    ce: int,
    j: int,
)
    requires
        crate::schema::wf_fields(fs, dd, rr, cs, ce),
        0 <= j < ce - cs,
    ensures
        crate::shred::null_chunks_seq(fs, def, r)[j].defs.len() >= 1,
    decreases fs,
{
    assert(crate::schema::wf_field(fs[0], dd, rr, cs));
    lemma_null_chunks_len(fs[0], dd, rr, cs, def, r);
    lemma_null_chunks_seq_len(fs.drop_first(), dd, rr, fs[0].col_end as int, ce, def, r);
    if j < fs[0].col_end - cs {
        lemma_null_defs_nonempty(fs[0], def, r, dd, rr, cs, j);
    } else {
        lemma_null_seq_defs_nonempty(
            fs.drop_first(),
            def,
            r,
            dd,
            rr,
            fs[0].col_end as int,
            ce,
            j - (fs[0].col_end - cs),
        );
    }
}

/// Shredded sibling chunks under at least one optional or repeated
/// level carry one definition level per column.
proof fn lemma_shred_children_defs_nonempty(
    fs: Seq<Field>,
    vs: Seq<ValueModel>,
    r: u16,
    dd: int,
    rr: int,
    cs: int,
    ce: int,
    j: int,
)
    requires
        crate::schema::wf_fields(fs, dd, rr, cs, ce),
        valid_children(fs, vs),
        vs.len() == fs.len(),
        dd >= 1,
        0 <= j < ce - cs,
    ensures
        shred_children(fs, vs, r)[j].defs.len() >= 1,
    decreases vs,
{
    assert(crate::schema::wf_field(fs[0], dd, rr, cs));
    crate::shred::lemma_shred_spec_len(fs[0], vs[0], r, dd, rr, cs);
    crate::shred::lemma_shred_children_len(
        fs.drop_first(),
        vs.drop_first(),
        r,
        dd,
        rr,
        fs[0].col_end as int,
        ce,
    );
    if j < fs[0].col_end - cs {
        lemma_shred_defs_nonempty(fs[0], vs[0], r, dd, rr, cs, j);
    } else {
        lemma_shred_children_defs_nonempty(
            fs.drop_first(),
            vs.drop_first(),
            r,
            dd,
            rr,
            fs[0].col_end as int,
            ce,
            j - (fs[0].col_end - cs),
        );
    }
}

/// Shredded list-element chunks carry one definition level per column
/// for each element, so at least one overall.
proof fn lemma_shred_elements_defs_nonempty(
    elem: Field,
    vs: Seq<ValueModel>,
    r: u16,
    k: u16,
    dd: int,
    rr: int,
    cs: int,
    j: int,
)
    requires
        crate::schema::wf_field(elem, dd, rr, cs),
        crate::value::valid_elements(elem, vs),
        vs.len() > 0,
        dd >= 1,
        0 <= j < elem.col_end - cs,
    ensures
        shred_elements(elem, vs, r, k)[j].defs.len() >= 1,
    decreases vs,
{
    crate::shred::lemma_shred_spec_len(elem, vs[0], r, dd, rr, cs);
    if vs.len() == 1 {
        lemma_shred_defs_nonempty(elem, vs[0], r, dd, rr, cs, j);
    } else {
        lemma_shred_defs_nonempty(elem, vs[0], r, dd, rr, cs, j);
        crate::shred::lemma_shred_elements_len(elem, vs.drop_first(), k, k, dd, rr, cs);
    }
}



/// Whether, at the cursors, the streams of columns `cs .. ce` hold
/// exactly the given chunks next.
pub open spec fn chunks_at(
    ws: Workspace,
    cur: Cursors,
    chunks: Seq<ColChunk>,
    cs: int,
    ce: int,
) -> bool {
    forall|j: int|
        #![trigger ws.chunks()[j]]
        cs <= j < ce ==> {
            &&& cur.defs@[j] + chunks[j - cs].defs.len() <= ws.chunks()[j].defs.len()
            &&& ws.chunks()[j].defs.subrange(
                cur.defs@[j] as int,
                cur.defs@[j] + chunks[j - cs].defs.len(),
            ) == chunks[j - cs].defs
            &&& cur.vals@[j] + chunks[j - cs].vals.len() <= ws.chunks()[j].vals.len()
            &&& ws.chunks()[j].vals.subrange(
                cur.vals@[j] as int,
                cur.vals@[j] + chunks[j - cs].vals.len(),
            ) == chunks[j - cs].vals
            &&& cur.reps@[j] + chunks[j - cs].reps.len() <= ws.chunks()[j].reps.len()
            &&& ws.chunks()[j].reps.subrange(
                cur.reps@[j] as int,
                cur.reps@[j] + chunks[j - cs].reps.len(),
            ) == chunks[j - cs].reps
        }
}

/// Whether, right after the given chunks, each column's repetition
/// stream either ends or returns to a level at most `bound`.
pub open spec fn rep_boundary_at(
    ws: Workspace,
    cur: Cursors,
    chunks: Seq<ColChunk>,
    cs: int,
    ce: int,
    bound: int,
) -> bool {
    forall|j: int|
        #![trigger ws.chunks()[j]]
        cs <= j < ce ==> {
            ||| cur.reps@[j] + chunks[j - cs].reps.len() == ws.chunks()[j].reps.len()
            ||| ws.chunks()[j].reps[cur.reps@[j] + chunks[j - cs].reps.len()] <= bound
        }
}

/// Consume the absent-field levels for every column a field owns,
/// checking that each records definition level `def` and, for columns
/// inside a list, repetition level `want_rep`.
#[verifier::loop_isolation(false)]
fn consume_null_levels(
    f: &Field,
    def: u16,
    want_rep: u16,
    ws: &Workspace,
    cur: &mut Cursors,
    Ghost(dd): Ghost<int>,
    Ghost(rr): Ghost<int>,
) -> (r: Result<(), Error>)
    requires
        crate::schema::wf_field(*f, dd, rr, f.col_start as int),
        f.col_end <= ws.columns@.len(),
        cursors_wf(*old(cur), *ws),
    ensures
        cursors_wf(*final(cur), *ws),
        cursors_ge(*old(cur), *final(cur)),
        match r {
            Ok(_) => {
                &&& forall|j: int|
                    0 <= j < ws.columns@.len() && !(f.col_start <= j < f.col_end) ==> (
                    #[trigger] final(cur).vals@[j]) == old(cur).vals@[j] && final(cur).defs@[j]
                        == old(cur).defs@[j] && final(cur).reps@[j] == old(cur).reps@[j]
                &&& forall|j: int|
                    f.col_start <= j < f.col_end ==> window(*ws, *old(cur), *final(cur), j)
                        == null_chunks(*f, def, want_rep)[j - f.col_start]
            },
            Err(e) => e is InvalidField,
        },
        chunks_at(
            *ws,
            *old(cur),
            null_chunks(*f, def, want_rep),
            f.col_start as int,
            f.col_end as int,
        ) ==> r is Ok,
    decreases *f,
{
    proof {
        assert(crate::schema::wf_field(*f, dd, rr, f.col_start as int));
        lemma_null_chunks_len(*f, dd, rr, f.col_start as int, def, want_rep);
    }
    match &f.kind {
        FieldKind::Leaf(_) => {
            proof {
                assert(f.col_end == f.col_start + 1);
            }
            let ghost nc0 = null_chunks(*f, def, want_rep)[0];
            let got = match take_occurrence(
                ws,
                cur,
                f.col_start,
                false,
                true,
                f.rep_depth > 0,
                want_rep,
                &f.name,
            ) {
                Ok((_, d)) => d,
                Err(e) => {
                    proof {
                        if chunks_at(
                            *ws,
                            *old(cur),
                            null_chunks(*f, def, want_rep),
                            f.col_start as int,
                            f.col_end as int,
                        ) {
                            assert(nc0 =~= (ColChunk {
                                vals: Seq::empty(),
                                defs: seq![def],
                                reps: if f.rep_depth > 0 {
                                    seq![want_rep]
                                } else {
                                    Seq::empty()
                                },
                            }));
                            assert(nc0.defs == seq![def] && nc0.vals == Seq::<ValueModel>::empty());
                            assert(ws.chunks()[f.col_start as int].defs.subrange(
                                old(cur).defs@[f.col_start as int] as int,
                                old(cur).defs@[f.col_start as int] + 1,
                            ) == seq![def]);
                            if f.rep_depth > 0 {
                                assert(nc0.reps == seq![want_rep]);
                                assert(ws.chunks()[f.col_start as int].reps.subrange(
                                    old(cur).reps@[f.col_start as int] as int,
                                    old(cur).reps@[f.col_start as int] + 1,
                                ) == seq![want_rep]);
                                assert(ws.chunks()[f.col_start as int].reps.subrange(
                                    old(cur).reps@[f.col_start as int] as int,
                                    old(cur).reps@[f.col_start as int] + 1,
                                )[0] == want_rep);
                                assert(ws.chunks()[f.col_start as int].reps[old(cur).reps@[
                                    f.col_start as int] as int] == want_rep);
                            }
                            assert(false);
                        }
                    }
                    return Err(e);
                }
            };
            if got != def {
                proof {
                    if chunks_at(
                        *ws,
                        *old(cur),
                        null_chunks(*f, def, want_rep),
                        f.col_start as int,
                        f.col_end as int,
                    ) {
                        assert(nc0 =~= (ColChunk {
                            vals: Seq::empty(),
                            defs: seq![def],
                            reps: if f.rep_depth > 0 {
                                seq![want_rep]
                            } else {
                                Seq::empty()
                            },
                        }));
                        assert(nc0.defs == seq![def]);
                        assert(ws.chunks()[f.col_start as int].defs.subrange(
                            old(cur).defs@[f.col_start as int] as int,
                            old(cur).defs@[f.col_start as int] + 1,
                        ) == seq![def]);
                        assert(ws.chunks()[f.col_start as int].defs.subrange(
                            old(cur).defs@[f.col_start as int] as int,
                            old(cur).defs@[f.col_start as int] + 1,
                        )[0] == def);
                        assert(ws.chunks()[f.col_start as int].defs[old(cur).defs@[
                            f.col_start as int] as int] == def);
                        assert(false);
                    }
                }
                return Err(Error::InvalidField(f.name.clone()));
            }
            proof {
                assert(window(*ws, *old(cur), *cur, f.col_start as int) =~= null_chunks(
                    *f,
                    def,
                    want_rep,
                )[0]);
            }
            Ok(())
        }
        FieldKind::Group(children) => {
            let ghost fdd = f.def_depth as int;
            let ghost frr = f.rep_depth as int;
            let ghost fcs = f.col_start as int;
            let ghost fce = f.col_end as int;
            let n = children.len();
            let mut i: usize = 0;
            proof {
                lemma_wf_fields_index(children@, fdd, frr, fcs, fce, 0);
            }
            while i < n
                invariant
                    i <= n,
                    cursors_wf(*cur, *ws),
                    cursors_ge(*old(cur), *cur),
                    forall|j: int|
                        0 <= j < ws.columns@.len() && !(fcs <= j < (if i < n {
                            children@[i as int].col_start as int
                        } else {
                            fce
                        })) ==> (#[trigger] cur.vals@[j]) == old(cur).vals@[j] && cur.defs@[j]
                            == old(cur).defs@[j] && cur.reps@[j] == old(cur).reps@[j],
                    forall|j: int|
                        fcs <= j < (if i < n {
                            children@[i as int].col_start as int
                        } else {
                            fce
                        }) ==> window(*ws, *old(cur), *cur, j) == null_chunks(*f, def, want_rep)[j
                            - fcs],
                decreases n - i,
            {
                proof {
                    assert(decreases_to!(*f => f.kind));
                    assert(decreases_to!(f.kind => f.kind->Group_0));
                    assert(decreases_to!(f.kind->Group_0 => f.kind->Group_0[i as int]));
                    lemma_wf_fields_index(children@, fdd, frr, fcs, fce, i as int);
                    crate::sortkey::lemma_leaf_metas_len(
                        children@[i as int],
                        fdd,
                        frr,
                        children@[i as int].col_start as int,
                    );
                }
                let ghost mid = *cur;
                match consume_null_levels(&children[i], def, want_rep, ws, cur, Ghost(fdd), Ghost(frr)) {
                    Ok(_) => {}
                    Err(e) => {
                        proof {
                            if chunks_at(
                                *ws,
                                *old(cur),
                                null_chunks(*f, def, want_rep),
                                fcs,
                                fce,
                            ) {
                                let child = children@[i as int];
                                assert forall|j: int|
                                    child.col_start <= j < child.col_end implies mid.vals@[j]
                                    == old(cur).vals@[j] && mid.defs@[j] == old(cur).defs@[j]
                                    && mid.reps@[j] == old(cur).reps@[j] by {}
                                assert forall|j: int|
                                    #![trigger ws.chunks()[j]]
                                    child.col_start as int <= j < child.col_end as int implies {
                                    let ch = null_chunks(child, def, want_rep)[j
                                        - child.col_start];
                                    &&& mid.defs@[j] + ch.defs.len() <= ws.chunks()[j].defs.len()
                                    &&& ws.chunks()[j].defs.subrange(
                                        mid.defs@[j] as int,
                                        mid.defs@[j] + ch.defs.len(),
                                    ) == ch.defs
                                    &&& mid.vals@[j] + ch.vals.len() <= ws.chunks()[j].vals.len()
                                    &&& ws.chunks()[j].vals.subrange(
                                        mid.vals@[j] as int,
                                        mid.vals@[j] + ch.vals.len(),
                                    ) == ch.vals
                                    &&& mid.reps@[j] + ch.reps.len() <= ws.chunks()[j].reps.len()
                                    &&& ws.chunks()[j].reps.subrange(
                                        mid.reps@[j] as int,
                                        mid.reps@[j] + ch.reps.len(),
                                    ) == ch.reps
                                } by {
                                    lemma_null_chunks_seq_index(
                                        children@,
                                        fdd,
                                        frr,
                                        fcs,
                                        fce,
                                        def,
                                        want_rep,
                                        i as int,
                                        j,
                                    );
                                }
                                assert(chunks_at(
                                    *ws,
                                    mid,
                                    null_chunks(child, def, want_rep),
                                    child.col_start as int,
                                    child.col_end as int,
                                ));
                                assert(false);
                            }
                        }
                        return Err(e);
                    }
                }
                proof {
                    if i + 1 < n {
                        lemma_wf_fields_index(children@, fdd, frr, fcs, fce, i as int + 1);
                    }
                    assert forall|j: int|
                        fcs <= j < children@[i as int].col_end implies window(
                        *ws,
                        *old(cur),
                        *cur,
                        j,
                    ) == null_chunks(*f, def, want_rep)[j - fcs] by {
                        if j < children@[i as int].col_start {
                            assert(window(*ws, *old(cur), mid, j) == null_chunks(
                                *f,
                                def,
                                want_rep,
                            )[j - fcs]);
                            assert(cur.vals@[j] == mid.vals@[j] && cur.defs@[j] == mid.defs@[j]
                                && cur.reps@[j] == mid.reps@[j]);
                            assert(window(*ws, *old(cur), *cur, j) =~= window(
                                *ws,
                                *old(cur),
                                mid,
                                j,
                            ));
                        } else {
                            lemma_null_chunks_seq_index(
                                children@,
                                fdd,
                                frr,
                                fcs,
                                fce,
                                def,
                                want_rep,
                                i as int,
                                j,
                            );
                            assert(mid.vals@[j] == old(cur).vals@[j] && mid.defs@[j] == old(
                                cur,
                            ).defs@[j] && mid.reps@[j] == old(cur).reps@[j]);
                            assert(window(*ws, mid, *cur, j) == null_chunks(
                                children@[i as int],
                                def,
                                want_rep,
                            )[j - children@[i as int].col_start]);
                            assert(window(*ws, *old(cur), *cur, j) =~= window(*ws, mid, *cur, j));
                        }
                    }
                }
                i = i + 1;
            }
            Ok(())
        }
        FieldKind::List(elem) => {
            proof {
                assert(crate::schema::wf_field(
                    **elem,
                    f.def_depth as int,
                    f.rep_depth as int,
                    f.col_start as int,
                ));
                assert(null_chunks(*f, def, want_rep) == null_chunks(**elem, def, want_rep));
            }
            consume_null_levels(
                &**elem,
                def,
                want_rep,
                ws,
                cur,
                Ghost(f.def_depth as int),
                Ghost(f.rep_depth as int),
            )
        }
    }
}


/// What is left to read of one column: the unread entries of its three
/// streams.
pub open spec fn remaining_col(ws: Workspace, cur: Cursors, c: int) -> int {
    (ws.chunks()[c].defs.len() - cur.defs@[c]) + (ws.chunks()[c].vals.len() - cur.vals@[c]) + (
    ws.chunks()[c].reps.len() - cur.reps@[c])
}

/// What is left to read of the first `n` columns.
pub open spec fn remaining_upto(ws: Workspace, cur: Cursors, n: int) -> int
    decreases n,
{
    if n <= 0 {
        0
    } else {
        remaining_upto(ws, cur, n - 1) + remaining_col(ws, cur, n - 1)
    }
}

/// Reading forward never increases what is left, and consuming one
/// definition level of a column below `n` strictly decreases it.
pub proof fn lemma_remaining_monotone(ws: Workspace, a: Cursors, b: Cursors, n: int)
    requires
        cursors_wf(a, ws),
        cursors_wf(b, ws),
        cursors_ge(a, b),
        n <= ws.columns@.len(),
    ensures
        remaining_upto(ws, b, n) <= remaining_upto(ws, a, n),
        forall|c: int|
            0 <= c < n && (b.defs@[c] > a.defs@[c] || b.vals@[c] > a.vals@[c] || b.reps@[c]
                > a.reps@[c]) ==> remaining_upto(ws, b, n) < remaining_upto(ws, a, n),
    decreases n,
{
    if n > 0 {
        lemma_remaining_monotone(ws, a, b, n - 1);
        assert forall|c: int|
            0 <= c < n && (b.defs@[c] > a.defs@[c] || b.vals@[c] > a.vals@[c] || b.reps@[c]
                > a.reps@[c]) implies remaining_upto(ws, b, n) < remaining_upto(ws, a, n) by {
            if c == n - 1 {
                assert(remaining_col(ws, b, n - 1) < remaining_col(ws, a, n - 1));
            }
        }
    }
}

/// Shredding one more sibling value appends its chunks after those of
/// the values before it.
pub proof fn lemma_shred_children_snoc(
    fs: Seq<Field>,
    vs: Seq<ValueModel>,
    x: ValueModel,
    r: u16,
)
    requires
        vs.len() < fs.len(),
    ensures
        shred_children(fs, vs.push(x), r) == shred_children(fs, vs, r) + shred_spec(
            fs[vs.len() as int],
            x,
            r,
        ),
    decreases vs,
{
    if vs.len() == 0 {
        assert(vs.push(x)[0] == x);
        assert(vs.push(x).drop_first() =~= Seq::<ValueModel>::empty());
        assert(shred_children(fs.drop_first(), vs.push(x).drop_first(), r)
            =~= Seq::<ColChunk>::empty());
        assert(shred_children(fs, vs.push(x), r) =~= shred_children(fs, vs, r) + shred_spec(
            fs[0],
            x,
            r,
        ));
    } else {
        lemma_shred_children_snoc(fs.drop_first(), vs.drop_first(), x, r);
        assert(vs.push(x)[0] == vs[0]);
        assert(vs.push(x).drop_first() =~= vs.drop_first().push(x));
        assert(fs.drop_first()[vs.len() - 1] == fs[vs.len() as int]);
        assert(shred_children(fs, vs.push(x), r) =~= shred_children(fs, vs, r) + shred_spec(
            fs[vs.len() as int],
            x,
            r,
        ));
    }
}


/// Every well-formed field owns at least one column.
pub proof fn lemma_field_width_pos(f: Field, dd: int, rr: int, cs: int)
    requires
        crate::schema::wf_field(f, dd, rr, cs),
    ensures
        f.col_end > cs,
    decreases f,
{
    match f.kind {
        FieldKind::Leaf(_) => {}
        FieldKind::Group(children) => {
            assert(crate::schema::wf_fields(
                children@,
                f.def_depth as int,
                f.rep_depth as int,
                cs,
                f.col_end as int,
            ));
            assert(crate::schema::wf_field(children@[0], f.def_depth as int, f.rep_depth as int, cs));
            lemma_field_width_pos(children@[0], f.def_depth as int, f.rep_depth as int, cs);
            crate::sortkey::lemma_leaf_metas_seq_len(
                children@.drop_first(),
                f.def_depth as int,
                f.rep_depth as int,
                children@[0].col_end as int,
                f.col_end as int,
            );
        }
        FieldKind::List(elem) => {
            lemma_field_width_pos(*elem, f.def_depth as int, f.rep_depth as int, cs);
        }
    }
}

/// What is left to read is never negative.
pub proof fn lemma_remaining_nonneg(ws: Workspace, cur: Cursors, n: int)
    requires
        cursors_wf(cur, ws),
        n <= ws.columns@.len(),
    ensures
        remaining_upto(ws, cur, n) >= 0,
    decreases n,
{
    if n > 0 {
        lemma_remaining_nonneg(ws, cur, n - 1);
        assert(remaining_col(ws, cur, n - 1) >= 0);
    }
}



/// What the next definition level of a field's first column must be
/// when the streams hold a shredded valid value next: one (or two, for
/// lists) below the field's depth when the value is absent, one below
/// for an empty list, at least the field's depth otherwise.
proof fn lemma_premise_first_def(
    ws: Workspace,
    cur: Cursors,
    f: Field,
    v: ValueModel,
    exp: u16,
    dd: int,
    rr: int,
)
    requires
        crate::schema::wf_field(f, dd, rr, f.col_start as int),
        valid_value(f, v),
        dd >= 0,
        f.def_depth >= 1,
        chunks_at(
            ws,
            cur,
            shred_spec(f, v, exp),
            f.col_start as int,
            f.col_end as int,
        ),
        f.col_end <= ws.columns@.len(),
    ensures
        cur.defs@[f.col_start as int] < ws.chunks()[f.col_start as int].defs.len(),
        ({
            let d0 = ws.chunks()[f.col_start as int].defs[cur.defs@[f.col_start as int] as int];
            &&& (v is Null ==> d0 == f.def_depth - (if f.kind is List {
                2int
            } else {
                1int
            }))
            &&& ((v is List && v->List_0.len() == 0) ==> d0 == f.def_depth - 1)
            &&& ((!(v is Null) && !(v is List && v->List_0.len() == 0)) ==> d0 >= f.def_depth)
        }),
{
    let cs = f.col_start as int;
    lemma_field_width_pos(f, dd, rr, cs);
    crate::shred::lemma_first_def(f, v, exp, dd, rr, cs, 0);
    let ch = shred_spec(f, v, exp)[0];
    assert(cur.defs@[cs] + ch.defs.len() <= ws.chunks()[cs].defs.len() && ws.chunks()[
        cs].defs.subrange(cur.defs@[cs] as int, cur.defs@[cs] + ch.defs.len()) == ch.defs);
    assert(ws.chunks()[cs].defs.subrange(cur.defs@[cs] as int, cur.defs@[cs] + ch.defs.len())[0]
        == ws.chunks()[cs].defs[cur.defs@[cs] as int]);
    assert(ch.defs[0] == ws.chunks()[cs].defs[cur.defs@[cs] as int]);
}

/// Whether the streams hold, at the cursors, a shredded valid value of
/// the field next, with the repetition streams afterwards back at or
/// below the given bound.
pub open spec fn value_at(
    ws: Workspace,
    cur: Cursors,
    f: Field,
    v: ValueModel,
    exp: u16,
    bound: int,
) -> bool {
    &&& valid_value(f, v)
    &&& chunks_at(ws, cur, shred_spec(f, v, exp), f.col_start as int, f.col_end as int)
    &&& rep_boundary_at(
        ws,
        cur,
        shred_spec(f, v, exp),
        f.col_start as int,
        f.col_end as int,
        bound,
    )
}


/// A scalar that fits a leaf type is never a null, group, or list
/// model.
proof fn lemma_scalar_fits_kind(m: TypeMapping, v: ValueModel)
    requires
        crate::value::scalar_fits(m, v),
    ensures
        !(v is Null),
        !(v is Group),
        !(v is List),
{
}

/// What the streams must hold when a shredded valid leaf value sits at
/// the cursors.
proof fn lemma_leaf_value_at(
    ws: Workspace,
    cur: Cursors,
    f: Field,
    v: ValueModel,
    exp: u16,
    dd: int,
    rr: int,
)
    requires
        crate::schema::wf_field(f, dd, rr, f.col_start as int),
        f.kind is Leaf,
        valid_value(f, v),
        dd >= 0,
        chunks_at(ws, cur, shred_spec(f, v, exp), f.col_start as int, f.col_end as int),
        f.col_end <= ws.columns@.len(),
    ensures
        ({
            let cs = f.col_start as int;
            let st = ws.chunks()[cs];
            &&& (v is Null ==> {
                &&& f.optional
                &&& f.def_depth >= 1
                &&& cur.defs@[cs] < st.defs.len()
                &&& st.defs[cur.defs@[cs] as int] == f.def_depth - 1
                &&& (f.rep_depth > 0 ==> cur.reps@[cs] < st.reps.len() && st.reps[cur.reps@[
                    cs] as int] == exp)
            })
            &&& (!(v is Null) ==> {
                &&& !(v is Group) && !(v is List)
                &&& cur.vals@[cs] < st.vals.len()
                &&& st.vals[cur.vals@[cs] as int] == v
                &&& (f.def_depth > 0 ==> cur.defs@[cs] < st.defs.len() && st.defs[cur.defs@[
                    cs] as int] == f.def_depth)
                &&& (f.rep_depth > 0 ==> cur.reps@[cs] < st.reps.len() && st.reps[cur.reps@[
                    cs] as int] == exp)
            })
        }),
{
    let cs = f.col_start as int;
    let st = ws.chunks()[cs];
    let ch = shred_spec(f, v, exp)[0];
    assert(f.col_end == f.col_start + 1);
    assert(cur.defs@[cs] + ch.defs.len() <= st.defs.len() && st.defs.subrange(
        cur.defs@[cs] as int,
        cur.defs@[cs] + ch.defs.len(),
    ) == ch.defs && cur.vals@[cs] + ch.vals.len() <= st.vals.len() && st.vals.subrange(
        cur.vals@[cs] as int,
        cur.vals@[cs] + ch.vals.len(),
    ) == ch.vals && cur.reps@[cs] + ch.reps.len() <= st.reps.len() && st.reps.subrange(
        cur.reps@[cs] as int,
        cur.reps@[cs] + ch.reps.len(),
    ) == ch.reps);
    if v is Null {
        assert(f.optional);
        assert(f.def_depth >= 1) by {
            assert(f.def_depth == dd + 1);
        }
        assert(ch =~= (ColChunk {
            vals: Seq::empty(),
            defs: seq![(f.def_depth - 1) as u16],
            reps: if f.rep_depth > 0 {
                seq![exp]
            } else {
                Seq::empty()
            },
        }));
        assert(st.defs.subrange(cur.defs@[cs] as int, cur.defs@[cs] + 1)[0] == st.defs[cur.defs@[
            cs] as int]);
        if f.rep_depth > 0 {
            assert(st.reps.subrange(cur.reps@[cs] as int, cur.reps@[cs] + 1)[0] == st.reps[
                cur.reps@[cs] as int]);
        }
    } else {
        lemma_scalar_fits_kind(f.kind->Leaf_0, v);
        assert(ch =~= (ColChunk {
            vals: seq![v],
            defs: if f.def_depth > 0 {
                seq![f.def_depth]
            } else {
                Seq::empty()
            },
            reps: if f.rep_depth > 0 {
                seq![exp]
            } else {
                Seq::empty()
            },
        }));
        assert(st.vals.subrange(cur.vals@[cs] as int, cur.vals@[cs] + 1)[0] == st.vals[cur.vals@[
            cs] as int]);
        if f.def_depth > 0 {
            assert(st.defs.subrange(cur.defs@[cs] as int, cur.defs@[cs] + 1)[0] == st.defs[
                cur.defs@[cs] as int]);
        }
        if f.rep_depth > 0 {
            assert(st.reps.subrange(cur.reps@[cs] as int, cur.reps@[cs] + 1)[0] == st.reps[
                cur.reps@[cs] as int]);
        }
    }
}


/// The model of a buffered value has the same variant as the value.
proof fn lemma_vmodel_variants(s: Seq<Value>, i: int)
    requires
        0 <= i < s.len(),
    ensures
        vmodel_seq(s)[i] is Null <==> s[i] is Null,
        vmodel_seq(s)[i] is Group <==> s[i] is Group,
        vmodel_seq(s)[i] is List <==> s[i] is List,
{
    crate::value::lemma_vmodel_seq_index(s);
}


/// Each value in a valid run of children is valid for its field.
proof fn lemma_valid_children_index(fs: Seq<Field>, vs: Seq<ValueModel>, q: int)
    requires
        valid_children(fs, vs),
        vs.len() == fs.len(),
        0 <= q < fs.len(),
    ensures
        valid_value(fs[q], vs[q]),
    decreases q,
{
    if q > 0 {
        lemma_valid_children_index(fs.drop_first(), vs.drop_first(), q - 1);
    }
}

/// When a shredded group value sits at the cursors and one child's
/// columns are still unread, that child's shredded value sits at the
/// cursors of its own columns.
#[verifier::rlimit(60)]
#[verifier::spinoff_prover]
proof fn lemma_group_child_value_at(
    ws: Workspace,
    ocur: Cursors,
    mcur: Cursors,
    f: Field,
    vp: ValueModel,
    exp: u16,
    i: int,
    dd: int,
    rr: int,
)
    requires
        crate::schema::wf_field(f, dd, rr, f.col_start as int),
        f.kind is Group,
        dd >= 0,
        rr >= 0,
        f.col_end <= ws.columns@.len(),
        valid_value(f, vp),
        vp is Group,
        chunks_at(ws, ocur, shred_spec(f, vp, exp), f.col_start as int, f.col_end as int),
        rep_boundary_at(ws, ocur, shred_spec(f, vp, exp), f.col_start as int, f.col_end as int, rr),
        0 <= i < f.kind->Group_0@.len(),
        forall|j: int|
            f.kind->Group_0@[i].col_start <= j < f.kind->Group_0@[i].col_end ==> (
            #[trigger] mcur.vals@[j]) == ocur.vals@[j] && mcur.defs@[j] == ocur.defs@[j]
                && mcur.reps@[j] == ocur.reps@[j],
    ensures
        value_at(ws, mcur, f.kind->Group_0@[i], vp->Group_0[i], exp, rr),
{
    let children = f.kind->Group_0@;
    let vs = vp->Group_0;
    let fdd = f.def_depth as int;
    let frr = f.rep_depth as int;
    let fcs = f.col_start as int;
    let fce = f.col_end as int;
    let child = children[i];
    assert(crate::schema::wf_field(f, dd, rr, f.col_start as int));
    assert(crate::schema::wf_fields(children, fdd, frr, fcs, fce));
    assert(valid_value(f, vp));
    assert(valid_children(children, vs) && vs.len() == children.len());
    lemma_wf_fields_index(children, fdd, frr, fcs, fce, i);
    lemma_valid_children_index(children, vs, i);
    assert(frr == rr);
    assert forall|j: int|
        #![trigger ws.chunks()[j]]
        child.col_start as int <= j < child.col_end as int implies {
        let ch = shred_spec(child, vs[i], exp)[j - child.col_start];
        &&& mcur.defs@[j] + ch.defs.len() <= ws.chunks()[j].defs.len()
        &&& ws.chunks()[j].defs.subrange(mcur.defs@[j] as int, mcur.defs@[j] + ch.defs.len())
            == ch.defs
        &&& mcur.vals@[j] + ch.vals.len() <= ws.chunks()[j].vals.len()
        &&& ws.chunks()[j].vals.subrange(mcur.vals@[j] as int, mcur.vals@[j] + ch.vals.len())
            == ch.vals
        &&& mcur.reps@[j] + ch.reps.len() <= ws.chunks()[j].reps.len()
        &&& ws.chunks()[j].reps.subrange(mcur.reps@[j] as int, mcur.reps@[j] + ch.reps.len())
            == ch.reps
        &&& (mcur.reps@[j] + ch.reps.len() == ws.chunks()[j].reps.len() || ws.chunks()[j].reps[
            mcur.reps@[j] + ch.reps.len()] <= rr)
    } by {
        assert(shred_spec(f, vp, exp) == shred_children(children, vs, exp));
        crate::shred::lemma_shred_children_index(
            children,
            vs,
            exp,
            fdd,
            frr,
            fcs,
            fce,
            i,
            j,
        );
        assert(shred_spec(f, vp, exp)[j - fcs] == shred_spec(child, vs[i], exp)[j
            - child.col_start]);
        assert(f.kind->Group_0@[i].col_start <= j < f.kind->Group_0@[i].col_end);
        assert(mcur.vals@[j] == ocur.vals@[j] && mcur.defs@[j] == ocur.defs@[j] && mcur.reps@[j]
            == ocur.reps@[j]);
        assert(fcs <= j < fce);
    }
}


/// When a shredded non-empty list value sits at the cursors and the
/// first `i` elements have been read, the next element's shredded
/// value sits at the current cursors of the list's columns.
proof fn lemma_list_element_value_at(
    ws: Workspace,
    ocur: Cursors,
    mcur: Cursors,
    f: Field,
    vp: ValueModel,
    exp: u16,
    i: int,
    dd: int,
    rr: int,
)
    requires
        crate::schema::wf_field(f, dd, rr, f.col_start as int),
        f.kind is List,
        dd >= 0,
        rr >= 0,
        f.col_end <= ws.columns@.len(),
        valid_value(f, vp),
        vp is List,
        0 <= i < vp->List_0.len(),
        chunks_at(ws, ocur, shred_spec(f, vp, exp), f.col_start as int, f.col_end as int),
        rep_boundary_at(ws, ocur, shred_spec(f, vp, exp), f.col_start as int, f.col_end as int, rr),
        forall|j: int|
            f.col_start <= j < f.col_end ==> (#[trigger] mcur.defs@[j]) == ocur.defs@[j] + (if i
                == 0 {
                0int
            } else {
                shred_elements(
                    *f.kind->List_0,
                    vp->List_0.take(i),
                    exp,
                    f.rep_depth,
                )[j - f.col_start].defs.len() as int
            }) && mcur.vals@[j] == ocur.vals@[j] + (if i == 0 {
                0int
            } else {
                shred_elements(
                    *f.kind->List_0,
                    vp->List_0.take(i),
                    exp,
                    f.rep_depth,
                )[j - f.col_start].vals.len() as int
            }) && mcur.reps@[j] == ocur.reps@[j] + (if i == 0 {
                0int
            } else {
                shred_elements(
                    *f.kind->List_0,
                    vp->List_0.take(i),
                    exp,
                    f.rep_depth,
                )[j - f.col_start].reps.len() as int
            }),
    ensures
        value_at(
            ws,
            mcur,
            *f.kind->List_0,
            vp->List_0[i],
            if i == 0 {
                exp
            } else {
                f.rep_depth
            },
            f.rep_depth as int,
        ),
{
    let elem = *f.kind->List_0;
    let es = vp->List_0;
    let k = f.rep_depth;
    let fcs = f.col_start as int;
    let fce = f.col_end as int;
    let fdd = f.def_depth as int;
    let rep0: u16 = if i == 0 {
        exp
    } else {
        k
    };
    assert(crate::schema::wf_field(f, dd, rr, fcs));
    assert(crate::schema::wf_field(elem, fdd, k as int, fcs));
    assert(elem.col_end == f.col_end);
    assert(crate::value::valid_elements(elem, es));
    crate::shred::lemma_valid_elements_index(elem, es, i);
    assert(shred_spec(f, vp, exp) == shred_elements(elem, es, exp, k));
    // split the elements around position i
    let whole = shred_elements(elem, es, exp, k);
    let pre = if i == 0 {
        Seq::<ColChunk>::new((fce - fcs) as nat, |q: int| crate::shred::empty_chunk())
    } else {
        shred_elements(elem, es.take(i), exp, k)
    };
    let suf = if i == 0 {
        whole
    } else {
        shred_elements(elem, es.skip(i), k, k)
    };
    if i > 0 {
        crate::shred::lemma_shred_elements_split(elem, es, i, exp, k, fdd, k as int, fcs);
        assert(crate::value::valid_elements(elem, es.take(i))) by {
            assert forall|q: int| 0 <= q < i implies valid_value(
                elem,
                #[trigger] es.take(i)[q],
            ) by {
                crate::shred::lemma_valid_elements_index(elem, es, q);
            }
            crate::value::lemma_valid_elements_upto(elem, es.take(i), i);
        }
        crate::shred::lemma_shred_elements_len(elem, es.take(i), exp, k, fdd, k as int, fcs);
    }
    assert(crate::value::valid_elements(elem, es.skip(i))) by {
        assert forall|q: int| 0 <= q < es.skip(i).len() implies valid_value(
            elem,
            #[trigger] es.skip(i)[q],
        ) by {
            crate::shred::lemma_valid_elements_index(elem, es, q + i);
        }
        crate::value::lemma_valid_elements_upto(elem, es.skip(i), es.skip(i).len() as int);
    }
    crate::shred::lemma_shred_elements_len(elem, es.skip(i), rep0, k, fdd, k as int, fcs);
    assert(es.skip(i)[0] == es[i]);
    crate::shred::lemma_shred_elements_head(elem, es.skip(i), rep0, k);
    crate::shred::lemma_shred_spec_len(elem, es[i], rep0, fdd, k as int, fcs);
    let ech = shred_spec(elem, es[i], rep0);
    if i == 0 {
        assert(es.skip(0) =~= es);
        assert(suf == shred_elements(elem, es, rep0, k));
    }
    assert forall|j: int|
        #![trigger ws.chunks()[j]]
        fcs <= j < fce implies {
        let ch = ech[j - fcs];
        &&& mcur.defs@[j] + ch.defs.len() <= ws.chunks()[j].defs.len()
        &&& ws.chunks()[j].defs.subrange(mcur.defs@[j] as int, mcur.defs@[j] + ch.defs.len())
            == ch.defs
        &&& mcur.vals@[j] + ch.vals.len() <= ws.chunks()[j].vals.len()
        &&& ws.chunks()[j].vals.subrange(mcur.vals@[j] as int, mcur.vals@[j] + ch.vals.len())
            == ch.vals
        &&& mcur.reps@[j] + ch.reps.len() <= ws.chunks()[j].reps.len()
        &&& ws.chunks()[j].reps.subrange(mcur.reps@[j] as int, mcur.reps@[j] + ch.reps.len())
            == ch.reps
        &&& (mcur.reps@[j] + ch.reps.len() == ws.chunks()[j].reps.len() || ws.chunks()[j].reps[
            mcur.reps@[j] + ch.reps.len()] <= k)
    } by {
        let jj = j - fcs;
        let st = ws.chunks()[j];
        let wch = whole[jj];
        assert(ocur.defs@[j] + wch.defs.len() <= st.defs.len() && st.defs.subrange(
            ocur.defs@[j] as int,
            ocur.defs@[j] + wch.defs.len(),
        ) == wch.defs && ocur.vals@[j] + wch.vals.len() <= st.vals.len() && st.vals.subrange(
            ocur.vals@[j] as int,
            ocur.vals@[j] + wch.vals.len(),
        ) == wch.vals && ocur.reps@[j] + wch.reps.len() <= st.reps.len() && st.reps.subrange(
            ocur.reps@[j] as int,
            ocur.reps@[j] + wch.reps.len(),
        ) == wch.reps);
        if i > 0 {
            assert(whole == cat_chunks(pre, suf));
            assert(wch == cat_chunk(pre[jj], suf[jj]));
        }
        let prel_d: int = if i == 0 { 0 } else { pre[jj].defs.len() as int };
        let prel_v: int = if i == 0 { 0 } else { pre[jj].vals.len() as int };
        let prel_r: int = if i == 0 { 0 } else { pre[jj].reps.len() as int };
        // the element's chunk is the head of the suffix
        if es.skip(i).len() > 1 {
            assert(suf[jj] == cat_chunk(ech[jj], shred_elements(elem, es.skip(i).drop_first(), k, k)[jj]));
        } else {
            assert(suf[jj] == ech[jj]);
        }
        // defs
        assert(st.defs.subrange(mcur.defs@[j] as int, mcur.defs@[j] + ech[jj].defs.len())
            =~= wch.defs.subrange(prel_d, prel_d + ech[jj].defs.len()));
        assert(wch.defs.subrange(prel_d, prel_d + ech[jj].defs.len()) =~= ech[jj].defs);
        // vals
        assert(st.vals.subrange(mcur.vals@[j] as int, mcur.vals@[j] + ech[jj].vals.len())
            =~= wch.vals.subrange(prel_v, prel_v + ech[jj].vals.len()));
        assert(wch.vals.subrange(prel_v, prel_v + ech[jj].vals.len()) =~= ech[jj].vals);
        // reps
        assert(st.reps.subrange(mcur.reps@[j] as int, mcur.reps@[j] + ech[jj].reps.len())
            =~= wch.reps.subrange(prel_r, prel_r + ech[jj].reps.len()));
        assert(wch.reps.subrange(prel_r, prel_r + ech[jj].reps.len()) =~= ech[jj].reps);
        // the boundary after this element
        if es.skip(i).len() > 1 {
            let rest = shred_elements(elem, es.skip(i).drop_first(), k, k);
            assert(es.skip(i).drop_first() =~= es.skip(i + 1));
            assert(crate::value::valid_elements(elem, es.skip(i + 1))) by {
                assert forall|q: int| 0 <= q < es.skip(i + 1).len() implies valid_value(
                    elem,
                    #[trigger] es.skip(i + 1)[q],
                ) by {
                    crate::shred::lemma_valid_elements_index(elem, es, q + i + 1);
                }
                crate::value::lemma_valid_elements_upto(
                    elem,
                    es.skip(i + 1),
                    es.skip(i + 1).len() as int,
                );
            }
            crate::shred::lemma_elements_first_rep(
                elem,
                es.skip(i + 1),
                k,
                k,
                fdd,
                k as int,
                fcs,
                jj,
            );
            crate::sortkey::lemma_leaf_bounds(elem, fdd, k as int, fcs);
            crate::sortkey::lemma_leaf_metas_len(elem, fdd, k as int, fcs);
            assert(crate::schema::leaf_metas(elem)[jj].max_rep >= k >= 1);
            assert(rest[jj].reps.len() >= 1 && rest[jj].reps[0] == k);
            assert(wch.reps[prel_r + ech[jj].reps.len()] == rest[jj].reps[0]);
            assert(st.reps[mcur.reps@[j] + ech[jj].reps.len()] == k);
        } else {
            // the parent boundary takes over
            assert(mcur.reps@[j] + ech[jj].reps.len() == ocur.reps@[j] + wch.reps.len());
            assert(f.rep_depth == rr + 1);
        }
    }
}


/// When a shredded list element sits at the cursors, the next
/// repetition level of the list's first column is the list's own
/// depth.
proof fn lemma_next_rep_is_k(
    ws: Workspace,
    cur: Cursors,
    f: Field,
    ev: ValueModel,
    dd: int,
    rr: int,
)
    requires
        crate::schema::wf_field(f, dd, rr, f.col_start as int),
        f.kind is List,
        dd >= 0,
        rr >= 0,
        f.col_end <= ws.columns@.len(),
        value_at(ws, cur, *f.kind->List_0, ev, f.rep_depth, f.rep_depth as int),
    ensures
        cur.reps@[f.col_start as int] < ws.chunks()[f.col_start as int].reps.len(),
        ws.chunks()[f.col_start as int].reps[cur.reps@[f.col_start as int] as int]
            == f.rep_depth,
{
    let elem = *f.kind->List_0;
    let k = f.rep_depth;
    let fcs = f.col_start as int;
    let fdd = f.def_depth as int;
    assert(crate::schema::wf_field(f, dd, rr, fcs));
    assert(crate::schema::wf_field(elem, fdd, k as int, fcs));
    lemma_field_width_pos(elem, fdd, k as int, fcs);
    crate::shred::lemma_first_rep(elem, ev, k, fdd, k as int, fcs, 0);
    crate::sortkey::lemma_leaf_bounds(elem, fdd, k as int, fcs);
    crate::sortkey::lemma_leaf_metas_len(elem, fdd, k as int, fcs);
    assert(crate::schema::leaf_metas(elem)[0].max_rep >= k >= 1);
    let ch = shred_spec(elem, ev, k)[0];
    assert(ch.reps.len() >= 1 && ch.reps[0] == k);
    assert(cur.reps@[fcs] + ch.reps.len() <= ws.chunks()[fcs].reps.len() && ws.chunks()[
        fcs].reps.subrange(cur.reps@[fcs] as int, cur.reps@[fcs] + ch.reps.len()) == ch.reps);
    assert(ws.chunks()[fcs].reps.subrange(cur.reps@[fcs] as int, cur.reps@[fcs] + ch.reps.len())[0]
        == ws.chunks()[fcs].reps[cur.reps@[fcs] as int]);
}

/// Reconstruct one value of one field from the column streams,
/// expecting its first occurrence at repetition level `exp`: compare
/// definition levels against the field's thresholds to decide null,
/// empty list, or descent, and use repetition levels to find where a
/// list's elements end. On success the value matches the field, and
/// what was consumed is exactly what shredding the value again would
/// write.
#[verifier::loop_isolation(false)]
#[verifier::rlimit(100)]
#[verifier::spinoff_prover]
fn reconstruct_field(
    f: &Field,
    ws: &Workspace,
    cur: &mut Cursors,
    exp: u16,
    Ghost(dd): Ghost<int>,
    Ghost(rr): Ghost<int>,
) -> (r: Result<Value, Error>)
    requires
        crate::schema::wf_field(*f, dd, rr, f.col_start as int),
        f.col_end <= ws.columns@.len(),
        cursors_wf(*old(cur), *ws),
        dd >= 0,
        rr >= 0,
    ensures
        cursors_wf(*final(cur), *ws),
        cursors_ge(*old(cur), *final(cur)),
        match r {
            Ok(v) => {
                &&& valid_value(*f, v@)
                &&& forall|j: int|
                    0 <= j < ws.columns@.len() && !(f.col_start <= j < f.col_end) ==> (
                    #[trigger] final(cur).vals@[j]) == old(cur).vals@[j] && final(cur).defs@[j]
                        == old(cur).defs@[j] && final(cur).reps@[j] == old(cur).reps@[j]
                &&& forall|j: int|
                    f.col_start <= j < f.col_end ==> window(*ws, *old(cur), *final(cur), j)
                        == shred_spec(*f, v@, exp)[j - f.col_start]
            },
            Err(e) => e is InvalidField,
        },
        forall|v: ValueModel|
            #[trigger] value_at(*ws, *old(cur), *f, v, exp, rr) ==> (r is Ok && vmodel(r->Ok_0)
                == v),
    decreases remaining_upto(*ws, *cur, ws.columns@.len() as int), *f,
{
    proof {
        assert(crate::schema::wf_field(*f, dd, rr, f.col_start as int));
        lemma_field_width_pos(*f, dd, rr, f.col_start as int);
        lemma_remaining_nonneg(*ws, *cur, ws.columns@.len() as int);
    }
    match &f.kind {
        FieldKind::Leaf(m) => {
            proof {
                assert(f.col_end == f.col_start + 1);
            }
            if f.def_depth > 0 {
                let d = match peek_def(ws, cur, f.col_start) {
                    Some(d) => d,
                    None => {
                        proof {
                            assert forall|vp: ValueModel|
                                #[trigger] value_at(*ws, *old(cur), *f, vp, exp, rr) implies
                                false by {
                                lemma_leaf_value_at(*ws, *old(cur), *f, vp, exp, dd, rr);
                            }
                        }
                        return Err(Error::InvalidField(f.name.clone()));
                    }
                };
                if d == f.def_depth {
                    let got = match take_occurrence(
                        ws,
                        cur,
                        f.col_start,
                        true,
                        true,
                        f.rep_depth > 0,
                        exp,
                        &f.name,
                    ) {
                        Ok(p) => p,
                        Err(e) => {
                            proof {
                                assert forall|vp: ValueModel|
                                    #[trigger] value_at(*ws, *old(cur), *f, vp, exp, rr) implies
                                    false by {
                                    lemma_leaf_value_at(*ws, *old(cur), *f, vp, exp, dd, rr);
                                    lemma_vmodel_variants(
                                        ws.columns@[f.col_start as int].values@,
                                        old(cur).vals@[f.col_start as int] as int,
                                    );
                                }
                            }
                            return Err(e);
                        }
                    };
                    let v = match got.0 {
                        Some(v) => v,
                        None => {
                            proof {
                                assert(false);
                            }
                            return Err(Error::InvalidField(f.name.clone()));
                        }
                    };
                    proof {
                        assert forall|vp: ValueModel|
                            #[trigger] value_at(*ws, *old(cur), *f, vp, exp, rr) implies vmodel(v)
                            == vp by {
                            lemma_leaf_value_at(*ws, *old(cur), *f, vp, exp, dd, rr);
                            let cs = f.col_start as int;
                            assert(window(*ws, *old(cur), *cur, cs).vals == seq![v@]);
                            assert(ws.chunks()[cs].vals.subrange(
                                old(cur).vals@[cs] as int,
                                old(cur).vals@[cs] + 1,
                            )[0] == ws.chunks()[cs].vals[old(cur).vals@[cs] as int]);
                        }
                    }
                    if !v.validate(f) {
                        return Err(Error::InvalidField(f.name.clone()));
                    }
                    proof {
                        assert(window(*ws, *old(cur), *cur, f.col_start as int) =~= shred_spec(
                            *f,
                            v@,
                            exp,
                        )[0]);
                    }
                    Ok(v)
                } else if f.optional && d == f.def_depth - 1 {
                    match take_occurrence(
                        ws,
                        cur,
                        f.col_start,
                        false,
                        true,
                        f.rep_depth > 0,
                        exp,
                        &f.name,
                    ) {
                        Ok(_) => {}
                        Err(e) => {
                            proof {
                                assert forall|vp: ValueModel|
                                    #[trigger] value_at(*ws, *old(cur), *f, vp, exp, rr) implies
                                    false by {
                                    lemma_leaf_value_at(*ws, *old(cur), *f, vp, exp, dd, rr);
                                }
                            }
                            return Err(e);
                        }
                    }
                    proof {
                        assert forall|vp: ValueModel|
                            #[trigger] value_at(*ws, *old(cur), *f, vp, exp, rr) implies vmodel(
                            Value::Null,
                        ) == vp by {
                            lemma_leaf_value_at(*ws, *old(cur), *f, vp, exp, dd, rr);
                        }
                        assert(window(*ws, *old(cur), *cur, f.col_start as int) =~= shred_spec(
                            *f,
                            vmodel(Value::Null),
                            exp,
                        )[0]);
                    }
                    Ok(Value::Null)
                } else {
                    proof {
                        assert forall|vp: ValueModel|
                            #[trigger] value_at(*ws, *old(cur), *f, vp, exp, rr) implies false by {
                            lemma_leaf_value_at(*ws, *old(cur), *f, vp, exp, dd, rr);
                        }
                    }
                    Err(Error::InvalidField(f.name.clone()))
                }
            } else {
                let got = match take_occurrence(
                    ws,
                    cur,
                    f.col_start,
                    true,
                    false,
                    false,
                    exp,
                    &f.name,
                ) {
                    Ok(p) => p,
                    Err(e) => {
                        proof {
                            assert forall|vp: ValueModel|
                                #[trigger] value_at(*ws, *old(cur), *f, vp, exp, rr) implies
                                false by {
                                lemma_leaf_value_at(*ws, *old(cur), *f, vp, exp, dd, rr);
                                if vp is Null {
                                    assert(f.def_depth == dd + 1);
                                }
                                lemma_vmodel_variants(
                                    ws.columns@[f.col_start as int].values@,
                                    old(cur).vals@[f.col_start as int] as int,
                                );
                            }
                        }
                        return Err(e);
                    }
                };
                let v = match got.0 {
                    Some(v) => v,
                    None => {
                        proof {
                            assert(false);
                        }
                        return Err(Error::InvalidField(f.name.clone()));
                    }
                };
                proof {
                    assert forall|vp: ValueModel|
                        #[trigger] value_at(*ws, *old(cur), *f, vp, exp, rr) implies vmodel(v)
                        == vp by {
                        lemma_leaf_value_at(*ws, *old(cur), *f, vp, exp, dd, rr);
                        if vp is Null {
                            assert(f.def_depth == dd + 1);
                        }
                        let cs = f.col_start as int;
                        assert(window(*ws, *old(cur), *cur, cs).vals == seq![v@]);
                        assert(ws.chunks()[cs].vals.subrange(
                            old(cur).vals@[cs] as int,
                            old(cur).vals@[cs] + 1,
                        )[0] == ws.chunks()[cs].vals[old(cur).vals@[cs] as int]);
                    }
                }
                if !v.validate(f) {
                    return Err(Error::InvalidField(f.name.clone()));
                }
                proof {
                    assert(window(*ws, *old(cur), *cur, f.col_start as int) =~= shred_spec(
                        *f,
                        v@,
                        exp,
                    )[0]);
                }
                Ok(v)
            }
        }
        FieldKind::Group(children) => {
            let ghost fdd = f.def_depth as int;
            let ghost frr = f.rep_depth as int;
            let ghost fcs = f.col_start as int;
            let ghost fce = f.col_end as int;
            proof {
                lemma_wf_fields_index(children@, fdd, frr, fcs, fce, 0);
                crate::sortkey::lemma_leaf_metas_len(children@[0], fdd, frr, fcs);
            }
            if f.optional {
                let d = match peek_def(ws, cur, f.col_start) {
                    Some(d) => d,
                    None => {
                        proof {
                            assert forall|vp: ValueModel|
                                #[trigger] value_at(*ws, *old(cur), *f, vp, exp, rr) implies
                                false by {
                                lemma_premise_first_def(*ws, *old(cur), *f, vp, exp, dd, rr);
                            }
                        }
                        return Err(Error::InvalidField(f.name.clone()));
                    }
                };
                if d == f.def_depth - 1 {
                    match consume_null_levels(
                        f,
                        f.def_depth - 1,
                        exp,
                        ws,
                        cur,
                        Ghost(dd),
                        Ghost(rr),
                    ) {
                        Ok(_) => {}
                        Err(e) => {
                            proof {
                                assert forall|vp: ValueModel|
                                    #[trigger] value_at(*ws, *old(cur), *f, vp, exp, rr) implies
                                    false by {
                                    lemma_premise_first_def(*ws, *old(cur), *f, vp, exp, dd, rr);
                                    assert(vp is Null);
                                    assert(shred_spec(*f, vp, exp) == null_chunks(
                                        *f,
                                        (f.def_depth - 1) as u16,
                                        exp,
                                    ));
                                }
                            }
                            return Err(e);
                        }
                    }
                    proof {
                        assert forall|vp: ValueModel|
                            #[trigger] value_at(*ws, *old(cur), *f, vp, exp, rr) implies vmodel(
                            Value::Null,
                        ) == vp by {
                            lemma_premise_first_def(*ws, *old(cur), *f, vp, exp, dd, rr);
                        }
                    }
                    return Ok(Value::Null);
                }
                if d < f.def_depth {
                    proof {
                        assert forall|vp: ValueModel|
                            #[trigger] value_at(*ws, *old(cur), *f, vp, exp, rr) implies false by {
                            lemma_premise_first_def(*ws, *old(cur), *f, vp, exp, dd, rr);
                        }
                    }
                    return Err(Error::InvalidField(f.name.clone()));
                }
                proof {
                    assert forall|vp: ValueModel|
                        #[trigger] value_at(*ws, *old(cur), *f, vp, exp, rr) implies !(vp
                        is Null) by {
                        lemma_premise_first_def(*ws, *old(cur), *f, vp, exp, dd, rr);
                    }
                }
            }
            let n = children.len();
            let mut collected: Vec<Value> = Vec::new();
            let mut i: usize = 0;
            proof {
                assert forall|vp: ValueModel|
                    #[trigger] value_at(*ws, *old(cur), *f, vp, exp, rr) implies vp is Group
                    && vmodel_seq(collected@) == vp->Group_0.take(0) by {
                    if vp is Null {
                        assert(f.optional);
                    }
                    assert(!(vp is Null));
                    assert(vmodel_seq(collected@) =~= vp->Group_0.take(0));
                }
            }
            while i < n
                invariant
                    i <= n,
                    collected@.len() == i,
                    cursors_wf(*cur, *ws),
                    cursors_ge(*old(cur), *cur),
                    forall|vp: ValueModel|
                        #[trigger] value_at(*ws, *old(cur), *f, vp, exp, rr) ==> vp is Group
                            && vmodel_seq(collected@) == vp->Group_0.take(i as int),
                    forall|idx: int|
                        0 <= idx < i ==> valid_value(
                            #[trigger] children@[idx],
                            vmodel_seq(collected@)[idx],
                        ),
                    forall|j: int|
                        0 <= j < ws.columns@.len() && !(fcs <= j < (if i < n {
                            children@[i as int].col_start as int
                        } else {
                            fce
                        })) ==> (#[trigger] cur.vals@[j]) == old(cur).vals@[j] && cur.defs@[j]
                            == old(cur).defs@[j] && cur.reps@[j] == old(cur).reps@[j],
                    shred_children(children@, vmodel_seq(collected@), exp).len() == (if i < n {
                        children@[i as int].col_start as int
                    } else {
                        fce
                    }) - fcs,
                    forall|j: int|
                        fcs <= j < (if i < n {
                            children@[i as int].col_start as int
                        } else {
                            fce
                        }) ==> window(*ws, *old(cur), *cur, j) == shred_children(
                            children@,
                            vmodel_seq(collected@),
                            exp,
                        )[j - fcs],
                decreases n - i,
            {
                proof {
                    assert(decreases_to!(*f => f.kind));
                    assert(decreases_to!(f.kind => f.kind->Group_0));
                    assert(decreases_to!(f.kind->Group_0 => f.kind->Group_0[i as int]));
                    lemma_wf_fields_index(children@, fdd, frr, fcs, fce, i as int);
                    crate::sortkey::lemma_leaf_metas_len(
                        children@[i as int],
                        fdd,
                        frr,
                        children@[i as int].col_start as int,
                    );
                    lemma_remaining_monotone(*ws, *old(cur), *cur, ws.columns@.len() as int);
                    lemma_remaining_nonneg(*ws, *cur, ws.columns@.len() as int);
                    crate::value::lemma_vmodel_seq_index(collected@);
                }
                let ghost mid = *cur;
                let ghost col_pre = collected@;
                proof {
                    assert forall|vp: ValueModel|
                        #[trigger] value_at(*ws, *old(cur), *f, vp, exp, rr) implies value_at(
                        *ws,
                        mid,
                        children@[i as int],
                        vp->Group_0[i as int],
                        exp,
                        rr,
                    ) by {
                        lemma_group_child_value_at(
                            *ws,
                            *old(cur),
                            mid,
                            *f,
                            vp,
                            exp,
                            i as int,
                            dd,
                            rr,
                        );
                    }
                }
                let child = match reconstruct_field(
                    &children[i],
                    ws,
                    cur,
                    exp,
                    Ghost(fdd),
                    Ghost(frr),
                ) {
                    Ok(v) => v,
                    Err(e) => {
                        proof {
                            assert forall|vp: ValueModel|
                                #[trigger] value_at(*ws, *old(cur), *f, vp, exp, rr) implies
                                false by {}
                        }
                        return Err(e);
                    }
                };
                let ghost cm = child@;
                collected.push(child);
                proof {
                    assert forall|vp: ValueModel|
                        #[trigger] value_at(*ws, *old(cur), *f, vp, exp, rr) implies vp is Group
                        && vmodel_seq(collected@) == vp->Group_0.take(i + 1) by {
                        assert(cm == vp->Group_0[i as int]);
                        crate::value::lemma_vmodel_seq_push(col_pre, collected@[i as int]);
                        assert(vmodel_seq(collected@) =~= vp->Group_0.take(i + 1));
                    }
                    crate::value::lemma_vmodel_seq_push(col_pre, collected@[i as int]);
                    lemma_shred_children_snoc(children@, vmodel_seq(col_pre), cm, exp);
                    crate::shred::lemma_shred_spec_len(
                        children@[i as int],
                        cm,
                        exp,
                        fdd,
                        frr,
                        children@[i as int].col_start as int,
                    );
                    if i + 1 < n {
                        lemma_wf_fields_index(children@, fdd, frr, fcs, fce, i as int + 1);
                    }
                    assert(vmodel_seq(collected@) == vmodel_seq(col_pre).push(cm));
                    assert forall|j: int|
                        fcs <= j < children@[i as int].col_end implies window(
                        *ws,
                        *old(cur),
                        *cur,
                        j,
                    ) == shred_children(children@, vmodel_seq(collected@), exp)[j - fcs] by {
                        if j < children@[i as int].col_start {
                            assert(window(*ws, *old(cur), mid, j) == shred_children(
                                children@,
                                vmodel_seq(col_pre),
                                exp,
                            )[j - fcs]);
                            assert(cur.vals@[j] == mid.vals@[j] && cur.defs@[j] == mid.defs@[j]
                                && cur.reps@[j] == mid.reps@[j]);
                            assert(window(*ws, *old(cur), *cur, j) =~= window(
                                *ws,
                                *old(cur),
                                mid,
                                j,
                            ));
                        } else {
                            assert(mid.vals@[j] == old(cur).vals@[j] && mid.defs@[j] == old(
                                cur,
                            ).defs@[j] && mid.reps@[j] == old(cur).reps@[j]);
                            assert(window(*ws, mid, *cur, j) == shred_spec(
                                children@[i as int],
                                cm,
                                exp,
                            )[j - children@[i as int].col_start]);
                            assert(window(*ws, *old(cur), *cur, j) =~= window(*ws, mid, *cur, j));
                        }
                    }
                }
                i = i + 1;
            }
            proof {
                crate::value::lemma_vmodel_seq_index(collected@);
                crate::value::lemma_valid_children_upto(
                    children@,
                    vmodel_seq(collected@),
                    n as int,
                );
            }
            let out = Value::Group(collected);
            proof {
                assert(out@ == ValueModel::Group(vmodel_seq(out->Group_0@)));
                assert(valid_value(*f, out@));
                assert forall|vp: ValueModel|
                    #[trigger] value_at(*ws, *old(cur), *f, vp, exp, rr) implies out@ == vp by {
                    assert(vp->Group_0.len() == children@.len());
                    assert(vmodel_seq(collected@) =~= vp->Group_0);
                }
            }
            Ok(out)
        }
        FieldKind::List(elem) => {
            let ghost fdd = f.def_depth as int;
            let ghost frr = f.rep_depth as int;
            let ghost fcs = f.col_start as int;
            let ghost fce = f.col_end as int;
            proof {
                assert(crate::schema::wf_field(**elem, fdd, frr, fcs));
                crate::sortkey::lemma_leaf_metas_len(**elem, fdd, frr, fcs);
            }
            let d = match peek_def(ws, cur, f.col_start) {
                Some(d) => d,
                None => {
                    proof {
                        assert forall|vp: ValueModel|
                            #[trigger] value_at(*ws, *old(cur), *f, vp, exp, rr) implies false by {
                            lemma_premise_first_def(*ws, *old(cur), *f, vp, exp, dd, rr);
                        }
                    }
                    return Err(Error::InvalidField(f.name.clone()));
                }
            };
            if f.optional && d == f.def_depth - 2 {
                match consume_null_levels(f, f.def_depth - 2, exp, ws, cur, Ghost(dd), Ghost(rr)) {
                    Ok(_) => {}
                    Err(e) => {
                        proof {
                            assert forall|vp: ValueModel|
                                #[trigger] value_at(*ws, *old(cur), *f, vp, exp, rr) implies
                                false by {
                                lemma_premise_first_def(*ws, *old(cur), *f, vp, exp, dd, rr);
                                assert(vp is Null);
                                assert(shred_spec(*f, vp, exp) == null_chunks(
                                    *f,
                                    (f.def_depth - 2) as u16,
                                    exp,
                                ));
                            }
                        }
                        return Err(e);
                    }
                }
                proof {
                    assert forall|vp: ValueModel|
                        #[trigger] value_at(*ws, *old(cur), *f, vp, exp, rr) implies vmodel(
                        Value::Null,
                    ) == vp by {
                        lemma_premise_first_def(*ws, *old(cur), *f, vp, exp, dd, rr);
                    }
                }
                Ok(Value::Null)
            } else if d == f.def_depth - 1 {
                match consume_null_levels(f, f.def_depth - 1, exp, ws, cur, Ghost(dd), Ghost(rr)) {
                    Ok(_) => {}
                    Err(e) => {
                        proof {
                            assert forall|vp: ValueModel|
                                #[trigger] value_at(*ws, *old(cur), *f, vp, exp, rr) implies
                                false by {
                                lemma_premise_first_def(*ws, *old(cur), *f, vp, exp, dd, rr);
                                assert(vp is List && vp->List_0.len() == 0);
                                assert(shred_spec(*f, vp, exp) == null_chunks(
                                    *f,
                                    (f.def_depth - 1) as u16,
                                    exp,
                                ));
                            }
                        }
                        return Err(e);
                    }
                }
                let out = Value::List(Vec::new());
                proof {
                    assert(vmodel_seq(Seq::<Value>::empty()) =~= Seq::<ValueModel>::empty());
                    assert(out@ is List && out@->List_0.len() == 0);
                    assert forall|vp: ValueModel|
                        #[trigger] value_at(*ws, *old(cur), *f, vp, exp, rr) implies out@ == vp by {
                        lemma_premise_first_def(*ws, *old(cur), *f, vp, exp, dd, rr);
                        assert(vp is List && vp->List_0.len() == 0);
                        assert(out@->List_0 =~= vp->List_0);
                    }
                }
                Ok(out)
            } else if d >= f.def_depth {
                let k = f.rep_depth;
                proof {
                    lemma_remaining_monotone(*ws, *old(cur), *cur, ws.columns@.len() as int);
                    lemma_remaining_nonneg(*ws, *cur, ws.columns@.len() as int);
                    assert forall|vp: ValueModel|
                        #[trigger] value_at(*ws, *old(cur), *f, vp, exp, rr) implies vp is List
                        && vp->List_0.len() >= 1 && value_at(
                        *ws,
                        *old(cur),
                        **elem,
                        vp->List_0[0],
                        exp,
                        k as int,
                    ) by {
                        lemma_premise_first_def(*ws, *old(cur), *f, vp, exp, dd, rr);
                        assert(vp is List && vp->List_0.len() >= 1);
                        lemma_list_element_value_at(
                            *ws,
                            *old(cur),
                            *old(cur),
                            *f,
                            vp,
                            exp,
                            0,
                            dd,
                            rr,
                        );
                    }
                }
                let first = match reconstruct_field(&**elem, ws, cur, exp, Ghost(fdd), Ghost(frr)) {
                    Ok(v) => v,
                    Err(e) => {
                        proof {
                            assert forall|vp: ValueModel|
                                #[trigger] value_at(*ws, *old(cur), *f, vp, exp, rr) implies
                                false by {}
                        }
                        return Err(e);
                    }
                };
                let mut collected: Vec<Value> = Vec::new();
                let ghost fm = first@;
                collected.push(first);
                proof {
                    crate::value::lemma_vmodel_seq_push(Seq::<Value>::empty(), collected@[0]);
                    assert(vmodel_seq(Seq::<Value>::empty()) =~= Seq::<ValueModel>::empty());
                    assert(vmodel_seq(collected@) =~= seq![fm]);
                    assert(shred_elements(**elem, vmodel_seq(collected@), exp, k) == shred_spec(
                        **elem,
                        fm,
                        exp,
                    ));
                    lemma_shred_defs_nonempty(**elem, fm, exp, fdd, frr, fcs, 0);
                    crate::shred::lemma_shred_spec_len(**elem, fm, exp, fdd, frr, fcs);
                    assert(window(*ws, *old(cur), *cur, fcs).defs.len() >= 1);
                    assert(cur.defs@[fcs] > old(cur).defs@[fcs]);
                    assert forall|vp: ValueModel|
                        #[trigger] value_at(*ws, *old(cur), *f, vp, exp, rr) implies vp is List
                        && vmodel_seq(collected@) == vp->List_0.take(collected@.len() as int)
                        && collected@.len() <= vp->List_0.len() by {
                        assert(fm == vp->List_0[0]);
                        assert(vmodel_seq(collected@) =~= vp->List_0.take(1));
                    }
                }
                let mut more = match peek_rep(ws, cur, f.col_start) {
                    Some(rp) => rp == k,
                    None => false,
                };
                proof {
                    assert forall|vp: ValueModel|
                        #[trigger] value_at(*ws, *old(cur), *f, vp, exp, rr) implies (more == (
                        collected@.len() < vp->List_0.len())) by {
                        let cnt = collected@.len() as int;
                            assert forall|j: int|
                                fcs <= j < fce implies (#[trigger] (*cur).defs@[j]) == old(
                                cur,
                            ).defs@[j] + shred_elements(
                                **elem,
                                vp->List_0.take(cnt),
                                exp,
                                k,
                            )[j - fcs].defs.len() && (*cur).vals@[j] == old(cur).vals@[j]
                                + shred_elements(
                                **elem,
                                vp->List_0.take(cnt),
                                exp,
                                k,
                            )[j - fcs].vals.len() && (*cur).reps@[j] == old(cur).reps@[j]
                                + shred_elements(
                                **elem,
                                vp->List_0.take(cnt),
                                exp,
                                k,
                            )[j - fcs].reps.len() by {
                                assert(window(*ws, *old(cur), (*cur), j) == shred_elements(
                                    **elem,
                                    vmodel_seq(collected@),
                                    exp,
                                    k,
                                )[j - fcs]);
                            }
                        if cnt < vp->List_0.len() {
                            lemma_list_element_value_at(
                                *ws,
                                *old(cur),
                                *cur,
                                *f,
                                vp,
                                exp,
                                cnt,
                                dd,
                                rr,
                            );
                            lemma_next_rep_is_k(*ws, *cur, *f, vp->List_0[cnt as int], dd, rr);
                        } else {
                            assert(f.rep_depth == rr + 1);
                        }
                    }
                }
                while more
                    invariant
                        collected@.len() >= 1,
                        cursors_wf(*cur, *ws),
                        cursors_ge(*old(cur), *cur),
                        cur.defs@[fcs] > old(cur).defs@[fcs],
                        f.col_end <= ws.columns@.len(),
                        crate::schema::wf_field(*f, dd, rr, fcs),
                        crate::schema::wf_field(**elem, fdd, frr, fcs),
                        f.kind == FieldKind::List(*elem),
                        k == f.rep_depth,
                        forall|vp: ValueModel|
                            #[trigger] value_at(*ws, *old(cur), *f, vp, exp, rr) ==> vp is List
                                && vmodel_seq(collected@) == vp->List_0.take(
                                collected@.len() as int,
                            ) && collected@.len() <= vp->List_0.len() && (more == (
                            collected@.len() < vp->List_0.len())),
                        forall|idx: int|
                            0 <= idx < collected@.len() ==> valid_value(
                                **elem,
                                #[trigger] vmodel_seq(collected@)[idx],
                            ),
                        forall|j: int|
                            0 <= j < ws.columns@.len() && !(fcs <= j < fce) ==> (
                            #[trigger] cur.vals@[j]) == old(cur).vals@[j] && cur.defs@[j] == old(
                                cur,
                            ).defs@[j] && cur.reps@[j] == old(cur).reps@[j],
                        forall|j: int|
                            fcs <= j < fce ==> window(*ws, *old(cur), *cur, j) == shred_elements(
                                **elem,
                                vmodel_seq(collected@),
                                exp,
                                k,
                            )[j - fcs],
                    decreases remaining_upto(*ws, *cur, ws.columns@.len() as int),
                {
                    proof {
                        assert(decreases_to!(*f => f.kind));
                        assert(decreases_to!(f.kind => f.kind->List_0));
                        lemma_remaining_monotone(*ws, *old(cur), *cur, ws.columns@.len() as int);
                        lemma_remaining_nonneg(*ws, *cur, ws.columns@.len() as int);
                    }
                    let ghost mid = *cur;
                    let ghost col_pre = collected@;
                    proof {
                        assert forall|vp: ValueModel|
                            #[trigger] value_at(*ws, *old(cur), *f, vp, exp, rr) implies
                            collected@.len() < vp->List_0.len() && value_at(
                            *ws,
                            mid,
                            **elem,
                            vp->List_0[collected@.len() as int],
                            k,
                            k as int,
                        ) by {
                            let cnt = collected@.len() as int;
                            if cnt == vp->List_0.len() {
                                assert(f.rep_depth == rr + 1);
                                assert(false);
                            }
                            assert forall|j: int|
                                fcs <= j < fce implies (#[trigger] mid.defs@[j]) == old(
                                cur,
                            ).defs@[j] + shred_elements(
                                **elem,
                                vp->List_0.take(cnt),
                                exp,
                                k,
                            )[j - fcs].defs.len() && mid.vals@[j] == old(cur).vals@[j]
                                + shred_elements(
                                **elem,
                                vp->List_0.take(cnt),
                                exp,
                                k,
                            )[j - fcs].vals.len() && mid.reps@[j] == old(cur).reps@[j]
                                + shred_elements(
                                **elem,
                                vp->List_0.take(cnt),
                                exp,
                                k,
                            )[j - fcs].reps.len() by {
                                assert(window(*ws, *old(cur), mid, j) == shred_elements(
                                    **elem,
                                    vmodel_seq(collected@),
                                    exp,
                                    k,
                                )[j - fcs]);
                            }
                            lemma_list_element_value_at(
                                *ws,
                                *old(cur),
                                mid,
                                *f,
                                vp,
                                exp,
                                cnt,
                                dd,
                                rr,
                            );
                        }
                    }
                    let nxt = match reconstruct_field(&**elem, ws, cur, k, Ghost(fdd), Ghost(frr)) {
                        Ok(v) => v,
                        Err(e) => {
                            proof {
                                assert forall|vp: ValueModel|
                                    #[trigger] value_at(*ws, *old(cur), *f, vp, exp, rr) implies
                                    false by {}
                            }
                            return Err(e);
                        }
                    };
                    let ghost nm = nxt@;
                    collected.push(nxt);
                    proof {
                        crate::value::lemma_vmodel_seq_push(
                            col_pre,
                            collected@[collected@.len() - 1],
                        );
                        assert(vmodel_seq(collected@) == vmodel_seq(col_pre).push(nm));
                        assert(crate::value::valid_elements(**elem, vmodel_seq(col_pre))) by {
                            crate::value::lemma_vmodel_seq_index(col_pre);
                            assert forall|idx: int|
                                0 <= idx < vmodel_seq(col_pre).len() implies valid_value(
                                **elem,
                                #[trigger] vmodel_seq(col_pre)[idx],
                            ) by {}
                            crate::value::lemma_valid_elements_upto(
                                **elem,
                                vmodel_seq(col_pre),
                                vmodel_seq(col_pre).len() as int,
                            );
                        }
                        crate::shred::lemma_shred_elements_snoc(
                            **elem,
                            vmodel_seq(col_pre),
                            nm,
                            exp,
                            k,
                            fdd,
                            frr,
                            fcs,
                        );
                        crate::shred::lemma_shred_elements_len(
                            **elem,
                            vmodel_seq(col_pre),
                            exp,
                            k,
                            fdd,
                            frr,
                            fcs,
                        );
                        crate::shred::lemma_shred_spec_len(**elem, nm, k, fdd, frr, fcs);
                        lemma_shred_defs_nonempty(**elem, nm, k, fdd, frr, fcs, 0);
                        assert(window(*ws, mid, *cur, fcs).defs.len() >= 1);
                        assert(cur.defs@[fcs] > mid.defs@[fcs]);
                        assert(cur.defs@[fcs] > old(cur).defs@[fcs]);
                        lemma_remaining_monotone(*ws, mid, *cur, ws.columns@.len() as int);
                        lemma_remaining_nonneg(*ws, *cur, ws.columns@.len() as int);
                        assert(remaining_upto(*ws, *cur, ws.columns@.len() as int)
                            < remaining_upto(*ws, mid, ws.columns@.len() as int));
                        crate::value::lemma_vmodel_seq_index(col_pre);
                        assert forall|idx: int|
                            0 <= idx < collected@.len() implies valid_value(
                            **elem,
                            #[trigger] vmodel_seq(collected@)[idx],
                        ) by {
                            if idx < col_pre.len() {
                                assert(vmodel_seq(collected@)[idx] == vmodel_seq(col_pre)[idx]);
                            } else {
                                assert(vmodel_seq(collected@)[idx] == nm);
                            }
                        }
                        assert forall|j: int|
                            fcs <= j < fce implies window(*ws, *old(cur), *cur, j)
                            == shred_elements(**elem, vmodel_seq(collected@), exp, k)[j - fcs] by {
                            assert(window(*ws, *old(cur), mid, j) == shred_elements(
                                **elem,
                                vmodel_seq(col_pre),
                                exp,
                                k,
                            )[j - fcs]);
                            assert(window(*ws, mid, *cur, j) == shred_spec(**elem, nm, k)[j - fcs]);
                            assert(window(*ws, *old(cur), *cur, j).vals =~= window(
                                *ws,
                                *old(cur),
                                mid,
                                j,
                            ).vals + window(*ws, mid, *cur, j).vals);
                            assert(window(*ws, *old(cur), *cur, j).defs =~= window(
                                *ws,
                                *old(cur),
                                mid,
                                j,
                            ).defs + window(*ws, mid, *cur, j).defs);
                            assert(window(*ws, *old(cur), *cur, j).reps =~= window(
                                *ws,
                                *old(cur),
                                mid,
                                j,
                            ).reps + window(*ws, mid, *cur, j).reps);
                            assert(window(*ws, *old(cur), *cur, j) =~= cat_chunk(
                                window(*ws, *old(cur), mid, j),
                                window(*ws, mid, *cur, j),
                            ));
                        }
                    }
                    more = match peek_rep(ws, cur, f.col_start) {
                        Some(rp) => rp == k,
                        None => false,
                    };
                    proof {
                        assert forall|vp: ValueModel|
                            #[trigger] value_at(*ws, *old(cur), *f, vp, exp, rr) implies (vp
                            is List && vmodel_seq(collected@) == vp->List_0.take(
                            collected@.len() as int,
                        ) && collected@.len() <= vp->List_0.len() && (more == (collected@.len()
                            < vp->List_0.len()))) by {
                            assert(value_at(
                                *ws,
                                mid,
                                **elem,
                                vp->List_0[col_pre.len() as int],
                                k,
                                k as int,
                            ));
                            assert(nm == vp->List_0[col_pre.len() as int]);
                            assert(vmodel_seq(collected@) =~= vp->List_0.take(
                                col_pre.len() as int + 1,
                            ));
                            let cnt = collected@.len() as int;
                            if cnt < vp->List_0.len() {
                                assert forall|j: int|
                                    fcs <= j < fce implies (#[trigger] cur.defs@[j]) == old(
                                    cur,
                                ).defs@[j] + shred_elements(
                                    **elem,
                                    vp->List_0.take(cnt),
                                    exp,
                                    k,
                                )[j - fcs].defs.len() && cur.vals@[j] == old(cur).vals@[j]
                                    + shred_elements(
                                    **elem,
                                    vp->List_0.take(cnt),
                                    exp,
                                    k,
                                )[j - fcs].vals.len() && cur.reps@[j] == old(cur).reps@[j]
                                    + shred_elements(
                                    **elem,
                                    vp->List_0.take(cnt),
                                    exp,
                                    k,
                                )[j - fcs].reps.len() by {
                                    assert(window(*ws, *old(cur), *cur, j) == shred_elements(
                                        **elem,
                                        vmodel_seq(collected@),
                                        exp,
                                        k,
                                    )[j - fcs]);
                                }
                                lemma_list_element_value_at(
                                    *ws,
                                    *old(cur),
                                    *cur,
                                    *f,
                                    vp,
                                    exp,
                                    cnt,
                                    dd,
                                    rr,
                                );
                                lemma_next_rep_is_k(*ws, *cur, *f, vp->List_0[cnt as int], dd, rr);
                            } else {
                                assert(vmodel_seq(collected@) =~= vp->List_0);
                                assert(window(*ws, *old(cur), *cur, fcs) == shred_elements(
                                    **elem,
                                    vmodel_seq(collected@),
                                    exp,
                                    k,
                                )[0]);
                                assert(shred_spec(*f, vp, exp) == shred_elements(
                                    **elem,
                                    vp->List_0,
                                    exp,
                                    k,
                                ));
                                assert(cur.reps@[fcs] == old(cur).reps@[fcs] + shred_spec(
                                    *f,
                                    vp,
                                    exp,
                                )[0].reps.len());
                                assert(f.rep_depth == rr + 1);
                            }
                        }
                    }
                }
                proof {
                    crate::value::lemma_vmodel_seq_index(collected@);
                    crate::value::lemma_valid_elements_upto(
                        **elem,
                        vmodel_seq(collected@),
                        vmodel_seq(collected@).len() as int,
                    );
                }
                let out = Value::List(collected);
                proof {
                    assert(out@ is List && out@->List_0.len() >= 1);
                    assert(valid_value(*f, out@));
                    assert forall|vp: ValueModel|
                        #[trigger] value_at(*ws, *old(cur), *f, vp, exp, rr) implies out@ == vp by {
                        assert(vmodel_seq(collected@) =~= vp->List_0);
                    }
                }
                Ok(out)
            } else {
                proof {
                    assert forall|vp: ValueModel|
                        #[trigger] value_at(*ws, *old(cur), *f, vp, exp, rr) implies false by {
                        lemma_premise_first_def(*ws, *old(cur), *f, vp, exp, dd, rr);
                    }
                }
                Err(Error::InvalidField(f.name.clone()))
            }
        }
    }
}


/// Every occurrence a field shreds writes a definition level or a
/// value to each of its columns.
proof fn lemma_shred_chunk_nonempty(
    f: Field,
    v: ValueModel,
    r: u16,
    dd: int,
    rr: int,
    cs: int,
    j: int,
)
    requires
        crate::schema::wf_field(f, dd, rr, cs),
        valid_value(f, v),
        dd >= 0,
        0 <= j < f.col_end - cs,
    ensures
        shred_spec(f, v, r)[j].defs.len() >= 1 || shred_spec(f, v, r)[j].vals.len() >= 1,
    decreases v,
{
    crate::shred::lemma_shred_spec_len(f, v, r, dd, rr, cs);
    if v is Null {
        if f.kind is List {
            lemma_null_defs_nonempty(f, (f.def_depth - 2) as u16, r, dd, rr, cs, j);
        } else {
            lemma_null_defs_nonempty(f, (f.def_depth - 1) as u16, r, dd, rr, cs, j);
        }
    } else {
        match f.kind {
            FieldKind::Leaf(_) => {}
            FieldKind::Group(children) => {
                lemma_shred_children_chunk_nonempty(
                    children@,
                    v->Group_0,
                    r,
                    f.def_depth as int,
                    f.rep_depth as int,
                    cs,
                    f.col_end as int,
                    j,
                );
            }
            FieldKind::List(elem) => {
                if v->List_0.len() == 0 {
                    lemma_null_defs_nonempty(f, (f.def_depth - 1) as u16, r, dd, rr, cs, j);
                } else {
                    lemma_shred_elements_defs_nonempty(
                        *elem,
                        v->List_0,
                        r,
                        f.rep_depth,
                        f.def_depth as int,
                        f.rep_depth as int,
                        cs,
                        j,
                    );
                }
            }
        }
    }
}

/// Every occurrence a run of fields shreds writes a definition level
/// or a value to each covered column.
proof fn lemma_shred_children_chunk_nonempty(
    fs: Seq<Field>,
    vs: Seq<ValueModel>,
    r: u16,
    dd: int,
    rr: int,
    cs: int,
    ce: int,
    j: int,
)
    requires
        crate::schema::wf_fields(fs, dd, rr, cs, ce),
        valid_children(fs, vs),
        vs.len() == fs.len(),
        dd >= 0,
        0 <= j < ce - cs,
    ensures
        shred_children(fs, vs, r)[j].defs.len() >= 1 || shred_children(fs, vs, r)[j].vals.len()
            >= 1,
    decreases vs,
{
    assert(crate::schema::wf_field(fs[0], dd, rr, cs));
    crate::shred::lemma_shred_spec_len(fs[0], vs[0], r, dd, rr, cs);
    crate::shred::lemma_shred_children_len(
        fs.drop_first(),
        vs.drop_first(),
        r,
        dd,
        rr,
        fs[0].col_end as int,
        ce,
    );
    if j < fs[0].col_end - cs {
        lemma_shred_chunk_nonempty(fs[0], vs[0], r, dd, rr, cs, j);
    } else {
        lemma_shred_children_chunk_nonempty(
            fs.drop_first(),
            vs.drop_first(),
            r,
            dd,
            rr,
            fs[0].col_end as int,
            ce,
            j - (fs[0].col_end - cs),
        );
    }
}


/// When a shredded row sits at the cursors and one root field's
/// columns are still unread, that field's shredded value sits at the
/// cursors of its own columns.
#[verifier::rlimit(60)]
#[verifier::spinoff_prover]
proof fn lemma_root_child_value_at(
    ws: Workspace,
    ocur: Cursors,
    mcur: Cursors,
    s: Schema,
    vp: ValueModel,
    i: int,
)
    requires
        crate::schema::wf_schema(s),
        ws.columns@.len() == s.columns@.len(),
        crate::value::valid_row(s, vp),
        chunks_at(
            ws,
            ocur,
            shred_children(s.fields@, vp->Group_0, 0),
            0,
            s.columns@.len() as int,
        ),
        rep_boundary_at(
            ws,
            ocur,
            shred_children(s.fields@, vp->Group_0, 0),
            0,
            s.columns@.len() as int,
            0,
        ),
        0 <= i < s.fields@.len(),
        forall|j: int|
            s.fields@[i].col_start <= j < s.fields@[i].col_end ==> (#[trigger] mcur.vals@[j])
                == ocur.vals@[j] && mcur.defs@[j] == ocur.defs@[j] && mcur.reps@[j]
                == ocur.reps@[j],
    ensures
        value_at(ws, mcur, s.fields@[i], vp->Group_0[i], 0, 0),
{
    let fields = s.fields@;
    let vs = vp->Group_0;
    let nc = s.columns@.len() as int;
    let child = fields[i];
    lemma_wf_fields_index(fields, 0, 0, 0, nc, i);
    lemma_valid_children_index(fields, vs, i);
    assert forall|j: int|
        #![trigger ws.chunks()[j]]
        child.col_start as int <= j < child.col_end as int implies {
        let ch = shred_spec(child, vs[i], 0)[j - child.col_start];
        &&& mcur.defs@[j] + ch.defs.len() <= ws.chunks()[j].defs.len()
        &&& ws.chunks()[j].defs.subrange(mcur.defs@[j] as int, mcur.defs@[j] + ch.defs.len())
            == ch.defs
        &&& mcur.vals@[j] + ch.vals.len() <= ws.chunks()[j].vals.len()
        &&& ws.chunks()[j].vals.subrange(mcur.vals@[j] as int, mcur.vals@[j] + ch.vals.len())
            == ch.vals
        &&& mcur.reps@[j] + ch.reps.len() <= ws.chunks()[j].reps.len()
        &&& ws.chunks()[j].reps.subrange(mcur.reps@[j] as int, mcur.reps@[j] + ch.reps.len())
            == ch.reps
        &&& (mcur.reps@[j] + ch.reps.len() == ws.chunks()[j].reps.len() || ws.chunks()[j].reps[
            mcur.reps@[j] + ch.reps.len()] <= 0)
    } by {
        crate::shred::lemma_shred_children_index(fields, vs, 0, 0, 0, 0, nc, i, j);
        assert(shred_children(fields, vs, 0)[j] == shred_spec(child, vs[i], 0)[j
            - child.col_start]);
        assert(s.fields@[i].col_start <= j < s.fields@[i].col_end);
        assert(mcur.vals@[j] == ocur.vals@[j] && mcur.defs@[j] == ocur.defs@[j] && mcur.reps@[j]
            == ocur.reps@[j]);
        assert(0 <= j < nc);
    }
}

/// Reconstruct one row from the column streams: one value per root
/// field, with the row's occurrences at repetition level zero. On
/// success the row matches the schema, and what was consumed is
/// exactly what shredding the row again would write.
#[verifier::loop_isolation(false)]
pub fn reconstruct_row(s: &Schema, ws: &Workspace, cur: &mut Cursors) -> (r: Result<Value, Error>)
    requires
        crate::schema::wf_schema(*s),
        ws.columns@.len() == s.columns@.len(),
        cursors_wf(*old(cur), *ws),
    ensures
        cursors_wf(*final(cur), *ws),
        cursors_ge(*old(cur), *final(cur)),
        match r {
            Ok(v) => {
                &&& crate::value::valid_row(*s, v@)
                &&& forall|j: int|
                    0 <= j < ws.columns@.len() ==> window(*ws, *old(cur), *final(cur), j)
                        == shred_children(s.fields@, v@->Group_0, 0)[j]
            },
            Err(e) => e is InvalidField,
        },
        forall|v: ValueModel|
            (crate::value::valid_row(*s, v) && chunks_at(
                *ws,
                *old(cur),
                #[trigger] shred_children(s.fields@, v->Group_0, 0),
                0,
                ws.columns@.len() as int,
            ) && rep_boundary_at(
                *ws,
                *old(cur),
                shred_children(s.fields@, v->Group_0, 0),
                0,
                ws.columns@.len() as int,
                0,
            )) ==> (r is Ok && vmodel(r->Ok_0) == v),
{
    let ghost fields = s.fields@;
    let ghost nc = s.columns@.len() as int;
    proof {
        lemma_wf_fields_index(fields, 0, 0, 0, nc, 0);
    }
    let n = s.fields.len();
    let mut collected: Vec<Value> = Vec::new();
    let mut i: usize = 0;
    proof {
        assert forall|vp: ValueModel|
            (crate::value::valid_row(*s, vp) && chunks_at(
                *ws,
                *old(cur),
                #[trigger] shred_children(fields, vp->Group_0, 0),
                0,
                nc,
            ) && rep_boundary_at(*ws, *old(cur), shred_children(fields, vp->Group_0, 0), 0, nc, 0))
            implies vmodel_seq(collected@) == vp->Group_0.take(0) by {
            assert(vmodel_seq(collected@) =~= vp->Group_0.take(0));
        }
    }
    while i < n
        invariant
            i <= n,
            collected@.len() == i,
            cursors_wf(*cur, *ws),
            cursors_ge(*old(cur), *cur),
            forall|vp: ValueModel|
                (crate::value::valid_row(*s, vp) && chunks_at(
                    *ws,
                    *old(cur),
                    #[trigger] shred_children(fields, vp->Group_0, 0),
                    0,
                    nc,
                ) && rep_boundary_at(
                    *ws,
                    *old(cur),
                    shred_children(fields, vp->Group_0, 0),
                    0,
                    nc,
                    0,
                )) ==> vmodel_seq(collected@) == vp->Group_0.take(i as int),
            forall|idx: int|
                0 <= idx < i ==> valid_value(#[trigger] fields[idx], vmodel_seq(collected@)[idx]),
            forall|j: int|
                0 <= j < nc && !(0 <= j < (if i < n {
                    fields[i as int].col_start as int
                } else {
                    nc
                })) ==> (#[trigger] cur.vals@[j]) == old(cur).vals@[j] && cur.defs@[j] == old(
                    cur,
                ).defs@[j] && cur.reps@[j] == old(cur).reps@[j],
            shred_children(fields, vmodel_seq(collected@), 0).len() == (if i < n {
                fields[i as int].col_start as int
            } else {
                nc
            }),
            forall|j: int|
                0 <= j < (if i < n {
                    fields[i as int].col_start as int
                } else {
                    nc
                }) ==> window(*ws, *old(cur), *cur, j) == shred_children(
                    fields,
                    vmodel_seq(collected@),
                    0,
                )[j],
        decreases n - i,
    {
        proof {
            lemma_wf_fields_index(fields, 0, 0, 0, nc, i as int);
            crate::sortkey::lemma_leaf_metas_len(
                fields[i as int],
                0,
                0,
                fields[i as int].col_start as int,
            );
            crate::value::lemma_vmodel_seq_index(collected@);
        }
        let ghost mid = *cur;
        let ghost col_pre = collected@;
        proof {
            assert forall|vp: ValueModel|
                (crate::value::valid_row(*s, vp) && chunks_at(
                    *ws,
                    *old(cur),
                    #[trigger] shred_children(fields, vp->Group_0, 0),
                    0,
                    nc,
                ) && rep_boundary_at(
                    *ws,
                    *old(cur),
                    shred_children(fields, vp->Group_0, 0),
                    0,
                    nc,
                    0,
                )) implies value_at(*ws, mid, fields[i as int], vp->Group_0[i as int], 0, 0) by {
                lemma_root_child_value_at(*ws, *old(cur), mid, *s, vp, i as int);
            }
        }
        let child = match reconstruct_field(&s.fields[i], ws, cur, 0, Ghost(0), Ghost(0)) {
            Ok(v) => v,
            Err(e) => {
                proof {
                    assert forall|vp: ValueModel|
                        (crate::value::valid_row(*s, vp) && chunks_at(
                            *ws,
                            *old(cur),
                            #[trigger] shred_children(fields, vp->Group_0, 0),
                            0,
                            nc,
                        ) && rep_boundary_at(
                            *ws,
                            *old(cur),
                            shred_children(fields, vp->Group_0, 0),
                            0,
                            nc,
                            0,
                        )) implies false by {}
                }
                return Err(e);
            }
        };
        let ghost cm = child@;
        collected.push(child);
        proof {
            assert forall|vp: ValueModel|
                (crate::value::valid_row(*s, vp) && chunks_at(
                    *ws,
                    *old(cur),
                    #[trigger] shred_children(fields, vp->Group_0, 0),
                    0,
                    nc,
                ) && rep_boundary_at(
                    *ws,
                    *old(cur),
                    shred_children(fields, vp->Group_0, 0),
                    0,
                    nc,
                    0,
                )) implies vmodel_seq(collected@) == vp->Group_0.take(i as int + 1) by {
                assert(cm == vp->Group_0[i as int]);
                crate::value::lemma_vmodel_seq_push(col_pre, collected@[i as int]);
                assert(vmodel_seq(collected@) =~= vp->Group_0.take(i as int + 1));
            }
            crate::value::lemma_vmodel_seq_push(col_pre, collected@[i as int]);
            lemma_shred_children_snoc(fields, vmodel_seq(col_pre), cm, 0);
            crate::shred::lemma_shred_spec_len(
                fields[i as int],
                cm,
                0,
                0,
                0,
                fields[i as int].col_start as int,
            );
            if i + 1 < n {
                lemma_wf_fields_index(fields, 0, 0, 0, nc, i as int + 1);
            }
            assert(vmodel_seq(collected@) == vmodel_seq(col_pre).push(cm));
            assert forall|j: int|
                0 <= j < fields[i as int].col_end implies window(*ws, *old(cur), *cur, j)
                == shred_children(fields, vmodel_seq(collected@), 0)[j] by {
                if j < fields[i as int].col_start {
                    assert(window(*ws, *old(cur), mid, j) == shred_children(
                        fields,
                        vmodel_seq(col_pre),
                        0,
                    )[j]);
                    assert(cur.vals@[j] == mid.vals@[j] && cur.defs@[j] == mid.defs@[j]
                        && cur.reps@[j] == mid.reps@[j]);
                    assert(window(*ws, *old(cur), *cur, j) =~= window(*ws, *old(cur), mid, j));
                } else {
                    assert(mid.vals@[j] == old(cur).vals@[j] && mid.defs@[j] == old(cur).defs@[j]
                        && mid.reps@[j] == old(cur).reps@[j]);
                    assert(window(*ws, mid, *cur, j) == shred_spec(fields[i as int], cm, 0)[j
                        - fields[i as int].col_start]);
                    assert(window(*ws, *old(cur), *cur, j) =~= window(*ws, mid, *cur, j));
                }
            }
        }
        i = i + 1;
    }
    proof {
        crate::value::lemma_vmodel_seq_index(collected@);
        crate::value::lemma_valid_children_upto(fields, vmodel_seq(collected@), n as int);
    }
    let out = Value::Group(collected);
    proof {
        assert(crate::value::valid_row(*s, out@));
        assert forall|vp: ValueModel|
            (crate::value::valid_row(*s, vp) && chunks_at(
                *ws,
                *old(cur),
                #[trigger] shred_children(fields, vp->Group_0, 0),
                0,
                nc,
            ) && rep_boundary_at(
                *ws,
                *old(cur),
                shred_children(fields, vp->Group_0, 0),
                0,
                nc,
                0,
            )) implies out@ == vp by {
            assert(vp->Group_0.len() == fields.len());
            assert(vmodel_seq(collected@) =~= vp->Group_0);
        }
    }
    Ok(out)
}

/// The chunks that shredding a run of rows writes, row after row.
pub open spec fn shred_rows(s: Schema, rows: Seq<ValueModel>) -> Seq<ColChunk>
    decreases rows,
{
    if rows.len() == 0 {
        Seq::new(s.columns@.len() as nat, |i: int| empty_chunk())
    } else {
        cat_chunks(
            shred_rows(s, rows.drop_last()),
            shred_children(s.fields@, rows.last()->Group_0, 0),
        )
    }
}


/// Shredding any run of rows writes one chunk per column.
pub proof fn lemma_shred_rows_len(s: Schema, rows: Seq<ValueModel>)
    requires
        crate::schema::wf_schema(s),
        forall|i: int| 0 <= i < rows.len() ==> crate::value::valid_row(s, #[trigger] rows[i]),
    ensures
        shred_rows(s, rows).len() == s.columns@.len(),
    decreases rows,
{
    if rows.len() > 0 {
        assert forall|i: int|
            0 <= i < rows.drop_last().len() implies crate::value::valid_row(
            s,
            #[trigger] rows.drop_last()[i],
        ) by {
            assert(rows.drop_last()[i] == rows[i]);
        }
        lemma_shred_rows_len(s, rows.drop_last());
    }
}


/// Within the chunks of a whole run of rows, row `m`'s chunks sit
/// right after the chunks of the rows before it, and the repetition
/// streams afterwards either end or open the next row at level zero.
proof fn lemma_rows_at(s: Schema, rows: Seq<ValueModel>, m: int, j: int)
    requires
        crate::schema::wf_schema(s),
        forall|q: int| 0 <= q < rows.len() ==> crate::value::valid_row(s, #[trigger] rows[q]),
        0 <= m < rows.len(),
        0 <= j < s.columns@.len(),
    ensures
        ({
            let pre = shred_rows(s, rows.take(m))[j];
            let chm = shred_children(s.fields@, rows[m]->Group_0, 0)[j];
            let whole = shred_rows(s, rows)[j];
            &&& pre.defs.len() + chm.defs.len() <= whole.defs.len()
            &&& whole.defs.subrange(
                pre.defs.len() as int,
                (pre.defs.len() + chm.defs.len()) as int,
            ) == chm.defs
            &&& pre.vals.len() + chm.vals.len() <= whole.vals.len()
            &&& whole.vals.subrange(
                pre.vals.len() as int,
                (pre.vals.len() + chm.vals.len()) as int,
            ) == chm.vals
            &&& pre.reps.len() + chm.reps.len() <= whole.reps.len()
            &&& whole.reps.subrange(
                pre.reps.len() as int,
                (pre.reps.len() + chm.reps.len()) as int,
            ) == chm.reps
            &&& (pre.reps.len() + chm.reps.len() == whole.reps.len() || whole.reps[(pre.reps.len()
                + chm.reps.len()) as int] == 0)
        }),
    decreases rows.len(),
{
    let nc = s.columns@.len() as int;
    let fields = s.fields@;
    let pre = shred_rows(s, rows.take(m))[j];
    let chm = shred_children(fields, rows[m]->Group_0, 0)[j];
    let whole = shred_rows(s, rows)[j];
    assert forall|q: int| 0 <= q < rows.take(m).len() implies crate::value::valid_row(
        s,
        #[trigger] rows.take(m)[q],
    ) by {
        assert(rows.take(m)[q] == rows[q]);
    }
    lemma_shred_rows_len(s, rows.take(m));
    lemma_shred_rows_len(s, rows);
    assert(crate::value::valid_row(s, rows[m]));
    crate::shred::lemma_shred_children_len(fields, rows[m]->Group_0, 0, 0, 0, 0, nc);
    if m == rows.len() - 1 {
        assert(rows.drop_last() =~= rows.take(m));
        assert(rows.last() == rows[m]);
        assert(whole == cat_chunk(pre, chm));
        assert(whole.defs.subrange(pre.defs.len() as int, (pre.defs.len() + chm.defs.len()) as int)
            =~= chm.defs);
        assert(whole.vals.subrange(pre.vals.len() as int, (pre.vals.len() + chm.vals.len()) as int)
            =~= chm.vals);
        assert(whole.reps.subrange(pre.reps.len() as int, (pre.reps.len() + chm.reps.len()) as int)
            =~= chm.reps);
    } else {
        assert forall|q: int| 0 <= q < rows.drop_last().len() implies crate::value::valid_row(
            s,
            #[trigger] rows.drop_last()[q],
        ) by {
            assert(rows.drop_last()[q] == rows[q]);
        }
        assert(rows.drop_last()[m] == rows[m]);
        assert(rows.drop_last().take(m) =~= rows.take(m));
        lemma_rows_at(s, rows.drop_last(), m, j);
        lemma_shred_rows_len(s, rows.drop_last());
        let prior = shred_rows(s, rows.drop_last())[j];
        let lastr = rows.last();
        assert(crate::value::valid_row(s, lastr)) by {
            assert(rows[rows.len() - 1] == lastr);
        }
        let lastch = shred_children(fields, lastr->Group_0, 0)[j];
        crate::shred::lemma_shred_children_len(fields, lastr->Group_0, 0, 0, 0, 0, nc);
        assert(whole == cat_chunk(prior, lastch));
        assert(whole.defs.subrange(pre.defs.len() as int, (pre.defs.len() + chm.defs.len()) as int)
            =~= prior.defs.subrange(pre.defs.len() as int, (pre.defs.len() + chm.defs.len()) as int));
        assert(whole.vals.subrange(pre.vals.len() as int, (pre.vals.len() + chm.vals.len()) as int)
            =~= prior.vals.subrange(pre.vals.len() as int, (pre.vals.len() + chm.vals.len()) as int));
        assert(whole.reps.subrange(pre.reps.len() as int, (pre.reps.len() + chm.reps.len()) as int)
            =~= prior.reps.subrange(pre.reps.len() as int, (pre.reps.len() + chm.reps.len()) as int));
        let p = pre.reps.len() + chm.reps.len();
        if p == prior.reps.len() {
            crate::shred::lemma_children_first_rep(
                fields,
                lastr->Group_0,
                0,
                0,
                0,
                0,
                nc,
                j,
            );
            crate::sortkey::lemma_leaf_metas_seq_len(fields, 0, 0, 0, nc);
            if crate::schema::leaf_metas_seq(fields)[j].max_rep > 0 {
                assert(whole.reps[p as int] == lastch.reps[0]);
            } else {
                assert(lastch.reps.len() == 0);
            }
        } else {
            assert(whole.reps[p as int] == prior.reps[p as int]);
        }
    }
}



/// After decoding a prefix of an image's rows, the streams' read
/// positions sit exactly at the end of that prefix's chunks.
proof fn lemma_reconstruct_positions(
    s: Schema,
    ws: Workspace,
    start: Cursors,
    cur: Cursors,
    decoded: Seq<ValueModel>,
    j: int,
)
    requires
        crate::schema::wf_schema(s),
        ws.columns@.len() == s.columns@.len(),
        cursors_wf(cur, ws),
        forall|c: int|
            0 <= c < ws.columns@.len() ==> (#[trigger] start.vals@[c]) == 0 && start.defs@[c] == 0
                && start.reps@[c] == 0,
        forall|q: int| 0 <= q < decoded.len() ==> crate::value::valid_row(s, #[trigger] decoded[q]),
        forall|c: int|
            0 <= c < ws.columns@.len() ==> window(ws, start, cur, c) == shred_rows(s, decoded)[c],
        0 <= j < ws.columns@.len(),
    ensures
        cur.defs@[j] == shred_rows(s, decoded)[j].defs.len(),
        cur.vals@[j] == shred_rows(s, decoded)[j].vals.len(),
        cur.reps@[j] == shred_rows(s, decoded)[j].reps.len(),
{
    assert(window(ws, start, cur, j) == shred_rows(s, decoded)[j]);
}

/// Whether more rows remain is exactly whether the decoded prefix is
/// shorter than the image.
proof fn lemma_reconstruct_more_iff(
    s: Schema,
    ws: Workspace,
    start: Cursors,
    cur: Cursors,
    decoded: Seq<ValueModel>,
    rp: Seq<ValueModel>,
    more: bool,
)
    requires
        crate::schema::wf_schema(s),
        ws.columns@.len() == s.columns@.len(),
        cursors_wf(cur, ws),
        forall|c: int|
            0 <= c < ws.columns@.len() ==> (#[trigger] start.vals@[c]) == 0 && start.defs@[c] == 0
                && start.reps@[c] == 0,
        forall|q: int| 0 <= q < decoded.len() ==> crate::value::valid_row(s, #[trigger] decoded[q]),
        forall|c: int|
            0 <= c < ws.columns@.len() ==> window(ws, start, cur, c) == shred_rows(s, decoded)[c],
        rows_image_at(s, ws, rp),
        decoded == rp.take(decoded.len() as int),
        decoded.len() <= rp.len(),
        more == (cur.defs@[0] < ws.chunks()[0].defs.len() || cur.vals@[0] < ws.chunks()[
            0
        ].vals.len()),
    ensures
        more == (decoded.len() < rp.len()),
{
    let nc = s.columns@.len() as int;
    assert(crate::schema::wf_fields(s.fields@, 0, 0, 0, nc));
    lemma_wf_fields_index(s.fields@, 0, 0, 0, nc, 0);
    lemma_field_width_pos(s.fields@[0], 0, 0, 0);
    lemma_reconstruct_positions(s, ws, start, cur, decoded, 0);
    lemma_shred_rows_len(s, decoded);
    lemma_shred_rows_len(s, rp);
    assert(ws.chunks()[0] == shred_rows(s, rp)[0]);
    if decoded.len() < rp.len() {
        let m = decoded.len() as int;
        lemma_rows_at(s, rp, m, 0);
        assert(crate::value::valid_row(s, rp[m]));
        lemma_shred_children_chunk_nonempty(s.fields@, rp[m]->Group_0, 0, 0, 0, 0, nc, 0);
        assert(shred_rows(s, decoded) == shred_rows(s, rp.take(m)));
    } else {
        assert(rp.take(decoded.len() as int) =~= rp);
        assert(shred_rows(s, decoded) == shred_rows(s, rp));
    }
}

/// When more rows remain in an image, the next row's shredded value
/// sits at the current cursors.
proof fn lemma_reconstruct_row_premise(
    s: Schema,
    ws: Workspace,
    start: Cursors,
    cur: Cursors,
    decoded: Seq<ValueModel>,
    rp: Seq<ValueModel>,
)
    requires
        crate::schema::wf_schema(s),
        ws.columns@.len() == s.columns@.len(),
        cursors_wf(cur, ws),
        forall|c: int|
            0 <= c < ws.columns@.len() ==> (#[trigger] start.vals@[c]) == 0 && start.defs@[c] == 0
                && start.reps@[c] == 0,
        forall|q: int| 0 <= q < decoded.len() ==> crate::value::valid_row(s, #[trigger] decoded[q]),
        forall|c: int|
            0 <= c < ws.columns@.len() ==> window(ws, start, cur, c) == shred_rows(s, decoded)[c],
        rows_image_at(s, ws, rp),
        decoded == rp.take(decoded.len() as int),
        decoded.len() < rp.len(),
    ensures
        crate::value::valid_row(s, rp[decoded.len() as int]),
        chunks_at(
            ws,
            cur,
            shred_children(s.fields@, rp[decoded.len() as int]->Group_0, 0),
            0,
            ws.columns@.len() as int,
        ),
        rep_boundary_at(
            ws,
            cur,
            shred_children(s.fields@, rp[decoded.len() as int]->Group_0, 0),
            0,
            ws.columns@.len() as int,
            0,
        ),
{
    let nc = s.columns@.len() as int;
    let m = decoded.len() as int;
    assert(crate::value::valid_row(s, rp[m]));
    let chm = shred_children(s.fields@, rp[m]->Group_0, 0);
    crate::shred::lemma_shred_children_len(s.fields@, rp[m]->Group_0, 0, 0, 0, 0, nc);
    assert forall|j: int|
        #![trigger ws.chunks()[j]]
        0 <= j < nc implies {
        &&& cur.defs@[j] + chm[j].defs.len() <= ws.chunks()[j].defs.len()
        &&& ws.chunks()[j].defs.subrange(cur.defs@[j] as int, cur.defs@[j] + chm[j].defs.len())
            == chm[j].defs
        &&& cur.vals@[j] + chm[j].vals.len() <= ws.chunks()[j].vals.len()
        &&& ws.chunks()[j].vals.subrange(cur.vals@[j] as int, cur.vals@[j] + chm[j].vals.len())
            == chm[j].vals
        &&& cur.reps@[j] + chm[j].reps.len() <= ws.chunks()[j].reps.len()
        &&& ws.chunks()[j].reps.subrange(cur.reps@[j] as int, cur.reps@[j] + chm[j].reps.len())
            == chm[j].reps
        &&& (cur.reps@[j] + chm[j].reps.len() == ws.chunks()[j].reps.len() || ws.chunks()[j].reps[
            cur.reps@[j] + chm[j].reps.len()] <= 0)
    } by {
        lemma_reconstruct_positions(s, ws, start, cur, decoded, j);
        lemma_rows_at(s, rp, m, j);
        assert(shred_rows(s, decoded) == shred_rows(s, rp.take(m)));
        assert(ws.chunks()[j] == shred_rows(s, rp)[j]);
    }
}

/// After decoding a whole image, every stream is exhausted.
proof fn lemma_reconstruct_exhausted(
    s: Schema,
    ws: Workspace,
    start: Cursors,
    cur: Cursors,
    decoded: Seq<ValueModel>,
    rp: Seq<ValueModel>,
    j: int,
)
    requires
        crate::schema::wf_schema(s),
        ws.columns@.len() == s.columns@.len(),
        cursors_wf(cur, ws),
        forall|c: int|
            0 <= c < ws.columns@.len() ==> (#[trigger] start.vals@[c]) == 0 && start.defs@[c] == 0
                && start.reps@[c] == 0,
        forall|q: int| 0 <= q < decoded.len() ==> crate::value::valid_row(s, #[trigger] decoded[q]),
        forall|c: int|
            0 <= c < ws.columns@.len() ==> window(ws, start, cur, c) == shred_rows(s, decoded)[c],
        rows_image_at(s, ws, rp),
        decoded == rp,
        0 <= j < ws.columns@.len(),
    ensures
        cur.defs@[j] == ws.chunks()[j].defs.len(),
        cur.vals@[j] == ws.chunks()[j].vals.len(),
        cur.reps@[j] == ws.chunks()[j].reps.len(),
{
    lemma_reconstruct_positions(s, ws, start, cur, decoded, j);
    assert(ws.chunks()[j] == shred_rows(s, rp)[j]);
}

/// Whether the workspace holds exactly the chunks of a run of valid
/// shredded rows.
pub open spec fn rows_image_at(s: Schema, ws: Workspace, rows: Seq<ValueModel>) -> bool {
    &&& forall|i: int| 0 <= i < rows.len() ==> crate::value::valid_row(s, #[trigger] rows[i])
    &&& ws.chunks() == shred_rows(s, rows)
}

/// Reconstruct every row held in the workspace, in order, consuming
/// all three streams of every column. On success the rows match the
/// schema and shredding them again, row after row, writes back exactly
/// the workspace contents. Conversely, whenever the workspace holds
/// exactly the shredded chunks of some run of valid rows, decoding is
/// guaranteed to succeed and to return exactly those rows: decoding
/// inverts encoding, wherever the row-group boundaries fell.
#[verifier::loop_isolation(false)]
pub fn reconstruct(s: &Schema, ws: &Workspace) -> (r: Result<Vec<Value>, Error>)
    requires
        crate::schema::wf_schema(*s),
        ws.columns@.len() == s.columns@.len(),
    ensures
        match r {
            Ok(rows) => {
                &&& forall|i: int|
                    0 <= i < rows@.len() ==> crate::value::valid_row(
                        *s,
                        #[trigger] vmodel_seq(rows@)[i],
                    )
                &&& ws.chunks() == shred_rows(*s, vmodel_seq(rows@))
            },
            Err(e) => e is InvalidField,
        },
        forall|rows: Seq<ValueModel>|
            #[trigger] rows_image_at(*s, *ws, rows) ==> (r is Ok && vmodel_seq(r->Ok_0@) == rows),
{
    let ghost nc = s.columns@.len() as int;
    proof {
        lemma_wf_fields_index(s.fields@, 0, 0, 0, nc, 0);
        lemma_field_width_pos(s.fields@[0], 0, 0, 0);
    }
    let mut cur = Cursors::new_for(ws);
    let mut rows: Vec<Value> = Vec::new();
    let ghost start = cur;
    proof {
        assert(vmodel_seq(Seq::<Value>::empty()) =~= Seq::<ValueModel>::empty());
        assert forall|j: int| 0 <= j < nc implies window(*ws, start, cur, j) == shred_rows(
            *s,
            vmodel_seq(rows@),
        )[j] by {
            assert(window(*ws, start, cur, j) =~= empty_chunk());
        }
    }
    let mut more = cur.defs[0] < ws.columns[0].def_levels.len() || cur.vals[0]
        < ws.columns[0].values.len();
    proof {
        crate::value::lemma_vmodel_seq_index(ws.columns@[0].values@);
        assert(ws.chunks()[0] == buffer_chunk(ws.columns@[0]));
        assert forall|rp: Seq<ValueModel>|
            #[trigger] rows_image_at(*s, *ws, rp) implies (vmodel_seq(rows@) == rp.take(
            rows@.len() as int,
        ) && rows@.len() <= rp.len() && (more == (rows@.len() < rp.len()))) by {
            assert(vmodel_seq(rows@) =~= rp.take(0));
            lemma_reconstruct_more_iff(*s, *ws, start, cur, vmodel_seq(rows@), rp, more);
        }
    }
    while more
        invariant
            cursors_wf(cur, *ws),
            forall|j: int|
                0 <= j < nc ==> (#[trigger] cur.vals@[j]) >= 0 && cur.defs@[j] >= 0 && cur.reps@[j]
                    >= 0,
            forall|c: int|
                0 <= c < nc ==> (#[trigger] start.vals@[c]) == 0 && start.defs@[c] == 0
                    && start.reps@[c] == 0,
            rows@.len() >= 0,
            forall|i: int|
                0 <= i < rows@.len() ==> crate::value::valid_row(
                    *s,
                    #[trigger] vmodel_seq(rows@)[i],
                ),
            forall|j: int|
                0 <= j < nc ==> window(*ws, start, cur, j) == shred_rows(*s, vmodel_seq(rows@))[j],
            forall|rp: Seq<ValueModel>|
                #[trigger] rows_image_at(*s, *ws, rp) ==> (vmodel_seq(rows@) == rp.take(
                    rows@.len() as int,
                ) && rows@.len() <= rp.len() && (more == (rows@.len() < rp.len()))),
        decreases remaining_col(*ws, cur, 0),
    {
        let ghost mid = cur;
        let ghost rows_pre = rows@;
        proof {
            assert forall|rp: Seq<ValueModel>|
                #[trigger] rows_image_at(*s, *ws, rp) implies rows@.len() < rp.len()
                && (crate::value::valid_row(*s, rp[rows@.len() as int]) && chunks_at(
                *ws,
                cur,
                shred_children(s.fields@, rp[rows@.len() as int]->Group_0, 0),
                0,
                nc,
            ) && rep_boundary_at(
                *ws,
                cur,
                shred_children(s.fields@, rp[rows@.len() as int]->Group_0, 0),
                0,
                nc,
                0,
            )) by {
                lemma_reconstruct_row_premise(*s, *ws, start, cur, vmodel_seq(rows@), rp);
            }
        }
        let row = match reconstruct_row(s, ws, &mut cur) {
            Ok(v) => v,
            Err(e) => {
                proof {
                    assert forall|rp: Seq<ValueModel>|
                        #[trigger] rows_image_at(*s, *ws, rp) implies false by {}
                }
                return Err(e);
            }
        };
        let ghost rm = row@;
        rows.push(row);
        proof {
            crate::value::lemma_vmodel_seq_push(rows_pre, rows@[rows@.len() - 1]);
            assert(vmodel_seq(rows@) == vmodel_seq(rows_pre).push(rm));
            assert(vmodel_seq(rows@).drop_last() =~= vmodel_seq(rows_pre));
            assert(vmodel_seq(rows@).last() == rm);
            crate::value::lemma_vmodel_seq_index(rows_pre);
            assert forall|i: int|
                0 <= i < rows@.len() implies crate::value::valid_row(
                *s,
                #[trigger] vmodel_seq(rows@)[i],
            ) by {
                if i < rows_pre.len() {
                    assert(vmodel_seq(rows@)[i] == vmodel_seq(rows_pre)[i]);
                } else {
                    assert(vmodel_seq(rows@)[i] == rm);
                }
            }
            assert forall|i: int|
                0 <= i < vmodel_seq(rows_pre).len() implies crate::value::valid_row(
                *s,
                #[trigger] vmodel_seq(rows_pre)[i],
            ) by {
                assert(vmodel_seq(rows@)[i] == vmodel_seq(rows_pre)[i]);
            }
            lemma_shred_rows_len(*s, vmodel_seq(rows_pre));
            assert forall|j: int| 0 <= j < nc implies window(*ws, start, cur, j) == shred_rows(
                *s,
                vmodel_seq(rows@),
            )[j] by {
                assert(window(*ws, start, mid, j) == shred_rows(*s, vmodel_seq(rows_pre))[j]);
                assert(window(*ws, mid, cur, j) == shred_children(s.fields@, rm->Group_0, 0)[j]);
                assert(window(*ws, start, cur, j).vals =~= window(*ws, start, mid, j).vals + window(
                    *ws,
                    mid,
                    cur,
                    j,
                ).vals);
                assert(window(*ws, start, cur, j).defs =~= window(*ws, start, mid, j).defs + window(
                    *ws,
                    mid,
                    cur,
                    j,
                ).defs);
                assert(window(*ws, start, cur, j).reps =~= window(*ws, start, mid, j).reps + window(
                    *ws,
                    mid,
                    cur,
                    j,
                ).reps);
                assert(window(*ws, start, cur, j) =~= cat_chunk(
                    window(*ws, start, mid, j),
                    window(*ws, mid, cur, j),
                ));
            }
            assert(crate::value::valid_children(s.fields@, rm->Group_0));
            lemma_shred_children_chunk_nonempty(
                s.fields@,
                rm->Group_0,
                0,
                0,
                0,
                0,
                nc,
                0,
            );
            assert(window(*ws, mid, cur, 0).defs.len() >= 1 || window(
                *ws,
                mid,
                cur,
                0,
            ).vals.len() >= 1);
            assert(cur.defs@[0] > mid.defs@[0] || cur.vals@[0] > mid.vals@[0]);
            assert(remaining_col(*ws, cur, 0) < remaining_col(*ws, mid, 0));
        }
        more = cur.defs[0] < ws.columns[0].def_levels.len() || cur.vals[0]
            < ws.columns[0].values.len();
        proof {
            crate::value::lemma_vmodel_seq_index(ws.columns@[0].values@);
            assert(ws.chunks()[0] == buffer_chunk(ws.columns@[0]));
            assert forall|rp: Seq<ValueModel>|
                #[trigger] rows_image_at(*s, *ws, rp) implies (vmodel_seq(rows@) == rp.take(
                rows@.len() as int,
            ) && rows@.len() <= rp.len() && (more == (rows@.len() < rp.len()))) by {
                assert(rm == rp[rows_pre.len() as int]);
                assert(vmodel_seq(rows@) =~= rp.take(rows@.len() as int));
                lemma_reconstruct_more_iff(*s, *ws, start, cur, vmodel_seq(rows@), rp, more);
            }
        }
    }
    let mut c: usize = 0;
    let n = ws.columns.len();
    while c < n
        invariant
            c <= n,
            forall|j: int|
                0 <= j < c ==> (#[trigger] cur.vals@[j]) == ws.chunks()[j].vals.len() && cur.defs@[
                    j
                ] == ws.chunks()[j].defs.len() && cur.reps@[j] == ws.chunks()[j].reps.len(),
        decreases n - c,
    {
        proof {
            crate::value::lemma_vmodel_seq_index(ws.columns@[c as int].values@);
            assert(ws.chunks()[c as int] == buffer_chunk(ws.columns@[c as int]));
        }
        let b = &ws.columns[c];
        if cur.vals[c] < b.values.len() || cur.defs[c] < b.def_levels.len() || cur.reps[c]
            < b.rep_levels.len() {
            proof {
                assert forall|rp: Seq<ValueModel>|
                    #[trigger] rows_image_at(*s, *ws, rp) implies false by {
                    assert(vmodel_seq(rows@) =~= rp.take(rows@.len() as int));
                    assert(rows@.len() == rp.len());
                    assert(vmodel_seq(rows@) =~= rp);
                    lemma_reconstruct_exhausted(
                        *s,
                        *ws,
                        start,
                        cur,
                        vmodel_seq(rows@),
                        rp,
                        c as int,
                    );
                }
            }
            let name = if c < s.columns.len() {
                s.columns[c].name.clone()
            } else {
                String::new()
            };
            return Err(Error::InvalidField(name));
        }
        c = c + 1;
    }
    proof {
        assert forall|j: int| 0 <= j < nc implies ws.chunks()[j] == shred_rows(
            *s,
            vmodel_seq(rows@),
        )[j] by {
            assert(window(*ws, start, cur, j) == shred_rows(*s, vmodel_seq(rows@))[j]);
            assert(window(*ws, start, cur, j).vals =~= ws.chunks()[j].vals);
            assert(window(*ws, start, cur, j).defs =~= ws.chunks()[j].defs);
            assert(window(*ws, start, cur, j).reps =~= ws.chunks()[j].reps);
            assert(ws.chunks()[j] =~= window(*ws, start, cur, j));
        }
        crate::value::lemma_vmodel_seq_index(rows@);
        assert forall|i: int|
            0 <= i < vmodel_seq(rows@).len() implies crate::value::valid_row(
            *s,
            #[trigger] vmodel_seq(rows@)[i],
        ) by {}
        lemma_shred_rows_len(*s, vmodel_seq(rows@));
        assert(ws.chunks() =~= shred_rows(*s, vmodel_seq(rows@)));
        assert forall|rp: Seq<ValueModel>|
            #[trigger] rows_image_at(*s, *ws, rp) implies vmodel_seq(rows@) == rp by {
            assert(rows@.len() == rp.len());
            assert(vmodel_seq(rows@) == rp.take(rows@.len() as int));
            assert(rp.take(rp.len() as int) =~= rp);
        }
    }
    Ok(rows)
}


/// Shapes of the chunks a run of list-free rows writes: no repetition
/// levels, one definition level per row wherever the column records
/// them, and one value per row where it does not.
proof fn lemma_rows_chunk_shape(s: Schema, rows: Seq<ValueModel>, j: int)
    requires
        crate::schema::wf_schema(s),
        crate::shred::list_free_seq(s.fields@),
        forall|i: int| 0 <= i < rows.len() ==> crate::value::valid_row(s, #[trigger] rows[i]),
        0 <= j < s.columns@.len(),
    ensures
        shred_rows(s, rows)[j].reps.len() == 0,
        s.columns@[j].max_def > 0 ==> shred_rows(s, rows)[j].defs.len() == rows.len(),
        s.columns@[j].max_def == 0 ==> shred_rows(s, rows)[j].defs.len() == 0 && shred_rows(
            s,
            rows,
        )[j].vals.len() == rows.len(),
    decreases rows,
{
    if rows.len() == 0 {
    } else {
        assert forall|i: int|
            0 <= i < rows.drop_last().len() implies crate::value::valid_row(
            s,
            #[trigger] rows.drop_last()[i],
        ) by {
            assert(rows.drop_last()[i] == rows[i]);
        }
        lemma_rows_chunk_shape(s, rows.drop_last(), j);
        lemma_shred_rows_len(s, rows.drop_last());
        let last = rows.last();
        assert(crate::value::valid_row(s, last)) by {
            assert(rows[rows.len() - 1] == last);
        }
        crate::shred::lemma_children_chunk_shape(
            s.fields@,
            last->Group_0,
            0,
            0,
            0,
            0,
            s.columns@.len() as int,
            j,
        );
        crate::shred::lemma_shred_children_len(
            s.fields@,
            last->Group_0,
            0,
            0,
            0,
            0,
            s.columns@.len() as int,
        );
    }
}

/// Shredding list-free rows is one to one: two runs of valid rows that
/// write the same workspace contents are the same runs. Together with
/// the decoder's contract, whatever rows a successful decode returns
/// are exactly the rows whose shredding filled the workspace.
pub proof fn lemma_shred_rows_injective(s: Schema, rows1: Seq<ValueModel>, rows2: Seq<ValueModel>)
    requires
        crate::schema::wf_schema(s),
        crate::shred::list_free_seq(s.fields@),
        forall|i: int| 0 <= i < rows1.len() ==> crate::value::valid_row(s, #[trigger] rows1[i]),
        forall|i: int| 0 <= i < rows2.len() ==> crate::value::valid_row(s, #[trigger] rows2[i]),
        shred_rows(s, rows1) == shred_rows(s, rows2),
    ensures
        rows1 == rows2,
    decreases rows1,
{
    let nc = s.columns@.len() as int;
    lemma_shred_rows_len(s, rows1);
    lemma_shred_rows_len(s, rows2);
    lemma_wf_fields_index(s.fields@, 0, 0, 0, nc, 0);
    lemma_field_width_pos(s.fields@[0], 0, 0, 0);
    lemma_rows_chunk_shape(s, rows1, 0);
    lemma_rows_chunk_shape(s, rows2, 0);
    if rows1.len() == 0 {
        assert(rows2.len() == 0);
        assert(rows1 =~= rows2);
    } else {
        assert(rows2.len() > 0);
        let n = rows1.len();
        assert(rows2.len() == n);
        let pre1 = rows1.drop_last();
        let pre2 = rows2.drop_last();
        let last1 = rows1.last();
        let last2 = rows2.last();
        assert forall|i: int|
            0 <= i < pre1.len() implies crate::value::valid_row(s, #[trigger] pre1[i]) by {
            assert(pre1[i] == rows1[i]);
        }
        assert forall|i: int|
            0 <= i < pre2.len() implies crate::value::valid_row(s, #[trigger] pre2[i]) by {
            assert(pre2[i] == rows2[i]);
        }
        assert(crate::value::valid_row(s, last1)) by {
            assert(rows1[n - 1] == last1);
        }
        assert(crate::value::valid_row(s, last2)) by {
            assert(rows2[n - 1] == last2);
        }
        lemma_shred_rows_len(s, pre1);
        lemma_shred_rows_len(s, pre2);
        let a1 = shred_rows(s, pre1);
        let a2 = shred_rows(s, pre2);
        let b1 = shred_children(s.fields@, last1->Group_0, 0);
        let b2 = shred_children(s.fields@, last2->Group_0, 0);
        crate::shred::lemma_shred_children_len(s.fields@, last1->Group_0, 0, 0, 0, 0, nc);
        crate::shred::lemma_shred_children_len(s.fields@, last2->Group_0, 0, 0, 0, 0, nc);
        assert forall|j: int| 0 <= j < nc implies b1[j] == b2[j] && a1[j] == a2[j] by {
            lemma_rows_chunk_shape(s, pre1, j);
            lemma_rows_chunk_shape(s, pre2, j);
            lemma_rows_chunk_shape(s, rows1, j);
            lemma_rows_chunk_shape(s, rows2, j);
            crate::shred::lemma_children_chunk_shape(
                s.fields@,
                last1->Group_0,
                0,
                0,
                0,
                0,
                nc,
                j,
            );
            crate::shred::lemma_children_chunk_shape(
                s.fields@,
                last2->Group_0,
                0,
                0,
                0,
                0,
                nc,
                j,
            );
            let full1 = shred_rows(s, rows1)[j];
            let full2 = shred_rows(s, rows2)[j];
            assert(full1 == cat_chunk(a1[j], b1[j]));
            assert(full2 == cat_chunk(a2[j], b2[j]));
            assert(full1 == full2);
            // the definition streams split at a fixed point
            assert(a1[j].defs.len() == a2[j].defs.len());
            assert(a1[j].defs =~= full1.defs.take(a1[j].defs.len() as int));
            assert(a2[j].defs =~= full2.defs.take(a2[j].defs.len() as int));
            assert(b1[j].defs =~= full1.defs.skip(a1[j].defs.len() as int));
            assert(b2[j].defs =~= full2.defs.skip(a2[j].defs.len() as int));
            assert(a1[j].defs == a2[j].defs && b1[j].defs == b2[j].defs);
            // the last row's value count follows from its definition
            // level, so the value streams split at the same point too
            if s.columns@[j].max_def > 0 {
                assert(b1[j].defs[0] == b2[j].defs[0]);
                assert(b1[j].vals.len() == b2[j].vals.len());
            } else {
                assert(b1[j].vals.len() == 1 && b2[j].vals.len() == 1);
            }
            assert(a1[j].vals.len() == a2[j].vals.len());
            assert(a1[j].vals =~= full1.vals.take(a1[j].vals.len() as int));
            assert(a2[j].vals =~= full2.vals.take(a2[j].vals.len() as int));
            assert(b1[j].vals =~= full1.vals.skip(a1[j].vals.len() as int));
            assert(b2[j].vals =~= full2.vals.skip(a2[j].vals.len() as int));
            assert(a1[j].vals == a2[j].vals && b1[j].vals == b2[j].vals);
            assert(b1[j].reps =~= b2[j].reps);
            assert(a1[j].reps =~= a2[j].reps);
            assert(b1[j] =~= b2[j]);
            assert(a1[j] =~= a2[j]);
        }
        assert(b1 =~= b2);
        assert(a1 =~= a2);
        crate::shred::lemma_shred_children_injective(
            s.fields@,
            last1->Group_0,
            last2->Group_0,
            0,
            0,
            0,
            0,
            nc,
        );
        assert(last1 == last2) by {
            assert(last1 is Group && last2 is Group);
            assert(last1->Group_0 == last2->Group_0);
        }
        lemma_shred_rows_injective(s, pre1, pre2);
        assert forall|i: int| 0 <= i < n implies rows1[i] == rows2[i] by {
            if i < n - 1 {
                assert(pre1[i] == pre2[i]);
            }
        }
        assert(rows1 =~= rows2);
    }
}

} // verus!
