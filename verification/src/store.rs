use vstd::prelude::*;

use crate::sortkey::{be4, lex_lt};
use crate::value::clone_bytes;

verus! {

/// Errors raised while decoding the byte payloads of the external
/// sort store.
#[derive(Debug, PartialEq, Eq)]
pub enum StoreError {
    /// A stored payload is not a well-formed run of length-prefixed
    /// rows; carries the payload.
    InvalidValue(Vec<u8>),
}

/// The unsigned value of a four-byte big-endian length prefix.
pub open spec fn be4_val(s: Seq<u8>) -> int {
    s[0] * 0x1000000 + s[1] * 0x10000 + s[2] * 0x100 + s[3]
}

/// One length-prefixed row: four big-endian length bytes, then the
/// row's bytes.
pub open spec fn frame(row: Seq<u8>) -> Seq<u8> {
    be4(row.len() as u32) + row
}

/// A run of rows, each length-prefixed, concatenated in order.
pub open spec fn frames(rows: Seq<Seq<u8>>) -> Seq<u8>
    decreases rows,
{
    if rows.len() == 0 {
        Seq::empty()
    } else {
        frame(rows[0]) + frames(rows.drop_first())
    }
}

/// Whether a byte string is a whole number of length-prefixed rows.
pub open spec fn well_framed(b: Seq<u8>) -> bool
    decreases b.len(),
{
    if b.len() == 0 {
        true
    } else if b.len() < 4 {
        false
    } else if 4 + be4_val(b.subrange(0, 4)) > b.len() {
        false
    } else {
        well_framed(b.skip(4 + be4_val(b.subrange(0, 4))))
    }
}

/// The rows of a well-framed byte string, in order.
pub open spec fn unframe(b: Seq<u8>) -> Seq<Seq<u8>>
    decreases b.len(),
{
    if b.len() < 4 {
        Seq::empty()
    } else if 4 + be4_val(b.subrange(0, 4)) > b.len() {
        Seq::empty()
    } else {
        seq![b.subrange(4, 4 + be4_val(b.subrange(0, 4)))] + unframe(
            b.skip(4 + be4_val(b.subrange(0, 4))),
        )
    }
}

/// The concatenation of a run of byte strings.
pub open spec fn concat_all(ops: Seq<Seq<u8>>) -> Seq<u8>
    decreases ops,
{
    if ops.len() == 0 {
        Seq::empty()
    } else {
        ops[0] + concat_all(ops.drop_first())
    }
}

/// Merging in batches gives the same bytes as merging one by one: the
/// merge operator is associative, so the store's internal batching
/// never changes the final value under a key.
pub proof fn lemma_merge_batching(a: Seq<Seq<u8>>, b: Seq<Seq<u8>>)
    ensures
        concat_all(a + b) == concat_all(a) + concat_all(b),
    decreases a,
{
    if a.len() == 0 {
        assert(a + b =~= b);
        assert(concat_all(a) + concat_all(b) =~= concat_all(b));
    } else {
        lemma_merge_batching(a.drop_first(), b);
        assert((a + b)[0] == a[0]);
        assert((a + b).drop_first() =~= a.drop_first() + b);
        assert(concat_all(a + b) =~= concat_all(a) + concat_all(b));
    }
}


/// Read one four-byte big-endian length prefix.
fn read_be4(buf: &Vec<u8>, pos: usize) -> (r: u32)
    requires
        pos + 4 <= buf@.len(),
    ensures
        r == be4_val(buf@.subrange(pos as int, pos + 4)),
{
    let n = buf.len();
    proof {
        assert(pos + 4 <= n);
    }
    let b0 = buf[pos];
    let b1 = buf[pos + 1];
    let b2 = buf[pos + 2];
    let b3 = buf[pos + 3];
    let v0 = b0 as u32;
    let v1 = b1 as u32;
    let v2 = b2 as u32;
    let v3 = b3 as u32;
    proof {
        assert(v0 < 256 && v1 < 256 && v2 < 256 && v3 < 256);
        assert(v0 * 0x1000000 + v1 * 0x10000 + v2 * 0x100 + v3 <= 0xffffffff) by (nonlinear_arith)
            requires
                v0 < 256 && v1 < 256 && v2 < 256 && v3 < 256,
        ;
    }
    let r = v0 * 0x1000000 + v1 * 0x10000 + v2 * 0x100 + v3;
    proof {
        let w = buf@.subrange(pos as int, pos + 4);
        assert(w[0] == b0 && w[1] == b1 && w[2] == b2 && w[3] == b3);
    }
    r
}

/// The length prefix of a row frames back to its four bytes.
pub proof fn lemma_be4_val_inverse(s: Seq<u8>)
    requires
        s.len() == 4,
    ensures
        0 <= be4_val(s) < 0x100000000,
        be4(be4_val(s) as u32) == s,
{
    let v0 = s[0] as u32;
    let v1 = s[1] as u32;
    let v2 = s[2] as u32;
    let v3 = s[3] as u32;
    assert(be4_val(s) == v0 * 0x1000000 + v1 * 0x10000 + v2 * 0x100 + v3);
    assert(v0 * 0x1000000 + v1 * 0x10000 + v2 * 0x100 + v3 <= 0xffffffff) by (nonlinear_arith)
        requires
            v0 < 256 && v1 < 256 && v2 < 256 && v3 < 256,
    ;
    let x: u32 = be4_val(s) as u32;
    assert(x == v0 * 0x1000000 + v1 * 0x10000 + v2 * 0x100 + v3);
    assert((x >> 24) & 0xff == v0 && (x >> 16) & 0xff == v1 && (x >> 8) & 0xff == v2 && x & 0xff
        == v3) by (bit_vector)
        requires
            x == v0 * 0x1000000 + v1 * 0x10000 + v2 * 0x100 + v3 && v0 < 256 && v1 < 256 && v2
                < 256 && v3 < 256,
    ;
    assert(be4(x) =~= s);
}

/// Append one length-prefixed row to a byte buffer.
#[verifier::loop_isolation(false)]
pub fn append_framed(buf: &mut Vec<u8>, row: &Vec<u8>)
    requires
        row@.len() <= u32::MAX,
    ensures
        final(buf)@ == old(buf)@ + frame(row@),
{
    let len = row.len() as u32;
    crate::sortkey::push_be4(buf, len, false);
    let ghost mid = buf@;
    let mut i: usize = 0;
    while i < row.len()
        invariant
            i <= row@.len(),
            buf@ == mid + row@.take(i as int),
        decreases row@.len() - i,
    {
        buf.push(row[i]);
        proof {
            assert(buf@ =~= mid + row@.take(i + 1));
        }
        i = i + 1;
    }
    proof {
        assert(row@.take(row@.len() as int) =~= row@);
        assert(buf@ =~= old(buf)@ + frame(row@));
    }
}

/// One row as a fresh length-prefixed payload, ready to be merged
/// into the store under its key.
pub fn framed_row(row: &Vec<u8>) -> (r: Vec<u8>)
    requires
        row@.len() <= u32::MAX,
    ensures
        r@ == frame(row@),
{
    let mut buf: Vec<u8> = Vec::new();
    append_framed(&mut buf, row);
    proof {
        assert(buf@ =~= frame(row@));
    }
    buf
}

/// The store's merge operator: concatenate the existing payload, if
/// any, with every operand in order. Pure and associative, so merge
/// batching never changes the final decode order within a key.
#[verifier::loop_isolation(false)]
pub fn concatenation_merge(existing: Option<&Vec<u8>>, operands: &Vec<Vec<u8>>) -> (r: Vec<u8>)
    ensures
        r@ == (match existing {
            Some(e) => e@,
            None => Seq::empty(),
        }) + concat_all(operands@.map_values(|o: Vec<u8>| o@)),
{
    let ghost ops = operands@.map_values(|o: Vec<u8>| o@);
    let mut out: Vec<u8> = match existing {
        Some(e) => clone_bytes(e),
        None => Vec::new(),
    };
    let ghost base = out@;
    let mut i: usize = 0;
    proof {
        assert(base + concat_all(ops.take(0)) =~= base);
    }
    while i < operands.len()
        invariant
            i <= operands@.len(),
            out@ == base + concat_all(ops.take(i as int)),
        decreases operands@.len() - i,
    {
        let ghost pre = out@;
        let op = &operands[i];
        let mut j: usize = 0;
        while j < op.len()
            invariant
                j <= op@.len(),
                out@ == pre + op@.take(j as int),
            decreases op@.len() - j,
        {
            out.push(op[j]);
            proof {
                assert(out@ =~= pre + op@.take(j + 1));
            }
            j = j + 1;
        }
        proof {
            assert(op@.take(op@.len() as int) =~= op@);
            assert(ops.take(i + 1).drop_last() =~= ops.take(i as int));
            assert(ops.take(i + 1).last() == ops[i as int]);
            lemma_merge_batching(ops.take(i as int), seq![ops[i as int]]);
            assert(ops.take(i as int) + seq![ops[i as int]] =~= ops.take(i + 1));
            assert(seq![ops[i as int]].drop_first() =~= Seq::<Seq<u8>>::empty());
            assert(concat_all(Seq::<Seq<u8>>::empty()) =~= Seq::<u8>::empty());
            assert(concat_all(seq![ops[i as int]]) =~= ops[i as int]);
            assert(out@ =~= base + concat_all(ops.take(i + 1)));
        }
        i = i + 1;
    }
    proof {
        assert(ops.take(ops.len() as int) =~= ops);
    }
    out
}

/// Split a payload back into its length-prefixed rows. Succeeds
/// exactly when the payload is a whole number of rows; the rows then
/// frame back to exactly the payload.
#[verifier::loop_isolation(false)]
pub fn split_frames(buf: &Vec<u8>) -> (r: Result<Vec<Vec<u8>>, StoreError>)
    ensures
        match r {
            Ok(rows) => {
                &&& well_framed(buf@)
                &&& rows@.map_values(|v: Vec<u8>| v@) == unframe(buf@)
                &&& frames(rows@.map_values(|v: Vec<u8>| v@)) == buf@
            },
            Err(_) => !well_framed(buf@),
        },
{
    let mut rows: Vec<Vec<u8>> = Vec::new();
    let mut pos: usize = 0;
    proof {
        assert(buf@.skip(0) =~= buf@);
        assert(frames(rows@.map_values(|v: Vec<u8>| v@)) =~= buf@.take(0));
        assert(unframe(buf@.skip(0)).len() >= 0);
    }
    while pos < buf.len()
        invariant
            pos <= buf@.len(),
            well_framed(buf@) == well_framed(buf@.skip(pos as int)),
            frames(rows@.map_values(|v: Vec<u8>| v@)) == buf@.take(pos as int),
            well_framed(buf@.skip(pos as int)) ==> unframe(buf@) == rows@.map_values(
                |v: Vec<u8>| v@,
            ) + unframe(buf@.skip(pos as int)),
        decreases buf@.len() - pos,
    {
        if buf.len() - pos < 4 {
            return Err(StoreError::InvalidValue(clone_bytes(buf)));
        }
        let len = read_be4(buf, pos) as usize;
        proof {
            assert(buf@.skip(pos as int).subrange(0, 4) =~= buf@.subrange(pos as int, pos + 4));
        }
        if buf.len() - pos - 4 < len {
            return Err(StoreError::InvalidValue(clone_bytes(buf)));
        }
        let mut row: Vec<u8> = Vec::new();
        let mut j: usize = pos + 4;
        while j < pos + 4 + len
            invariant
                pos + 4 <= j <= pos + 4 + len,
                pos + 4 + len <= buf@.len(),
                row@ == buf@.subrange(pos + 4, j as int),
            decreases pos + 4 + len - j,
        {
            row.push(buf[j]);
            proof {
                assert(row@ =~= buf@.subrange(pos + 4, j + 1));
            }
            j = j + 1;
        }
        let ghost rows_pre = rows@.map_values(|v: Vec<u8>| v@);
        let ghost rowm = row@;
        rows.push(row);
        let newpos = pos + 4 + len;
        proof {
            let old_tail = buf@.skip(pos as int);
            assert(rows@.map_values(|v: Vec<u8>| v@) =~= rows_pre.push(rowm));
            assert(be4_val(old_tail.subrange(0, 4)) == len);
            assert(old_tail.skip(4 + len) =~= buf@.skip(newpos as int));
            assert(well_framed(old_tail) == well_framed(buf@.skip(newpos as int)));
            assert(rowm =~= old_tail.subrange(4, 4 + len));
            if well_framed(buf@.skip(newpos as int)) {
                assert(unframe(old_tail) == seq![rowm] + unframe(buf@.skip(newpos as int)));
                assert(rows_pre.push(rowm) + unframe(buf@.skip(newpos as int)) =~= rows_pre + (seq![
                    rowm,
                ] + unframe(buf@.skip(newpos as int))));
            }
            assert(frame(rowm) =~= buf@.subrange(pos as int, newpos as int)) by {
                assert(be4((rowm.len() as u32)) =~= buf@.subrange(pos as int, pos + 4)) by {
                    lemma_be4_val_inverse(buf@.subrange(pos as int, pos + 4));
                }
            }
            lemma_frames_snoc(rows_pre, rowm);
            assert(frames(rows_pre.push(rowm)) =~= buf@.take(newpos as int));
        }
        pos = newpos;
    }
    proof {
        assert(buf@.skip(pos as int) =~= Seq::<u8>::empty());
        assert(well_framed(buf@));
        assert(unframe(buf@.skip(pos as int)) =~= Seq::<Seq<u8>>::empty());
        assert(unframe(buf@) =~= rows@.map_values(|v: Vec<u8>| v@));
        assert(buf@.take(pos as int) =~= buf@);
    }
    Ok(rows)
}

/// Framing one more row appends its frame.
proof fn lemma_frames_snoc(rows: Seq<Seq<u8>>, x: Seq<u8>)
    ensures
        frames(rows.push(x)) == frames(rows) + frame(x),
    decreases rows,
{
    if rows.len() == 0 {
        assert(rows.push(x)[0] == x);
        assert(rows.push(x).drop_first() =~= Seq::<Seq<u8>>::empty());
        assert(frames(Seq::<Seq<u8>>::empty()) =~= Seq::<u8>::empty());
        assert(frames(rows.push(x)) =~= frames(rows) + frame(x));
    } else {
        lemma_frames_snoc(rows.drop_first(), x);
        assert(rows.push(x)[0] == rows[0]);
        assert(rows.push(x).drop_first() =~= rows.drop_first().push(x));
        assert(frames(rows.push(x)) =~= frames(rows) + frame(x));
    }
}


/// Weak lexicographic order on byte strings.
pub open spec fn lex_le(a: Seq<u8>, b: Seq<u8>) -> bool {
    lex_lt(a, b) || a == b
}

/// The inserts stored under one key, in insertion order.
pub open spec fn rows_with_key(
    inserts: Seq<(Seq<u8>, Seq<u8>)>,
    k: Seq<u8>,
) -> Seq<(Seq<u8>, Seq<u8>)>
    decreases inserts,
{
    if inserts.len() == 0 {
        Seq::empty()
    } else {
        (if inserts[0].0 == k {
            seq![inserts[0]]
        } else {
            Seq::empty()
        }) + rows_with_key(inserts.drop_first(), k)
    }
}

/// Every row stored under a key carries that key.
proof fn lemma_rwk_key(inserts: Seq<(Seq<u8>, Seq<u8>)>, k: Seq<u8>, i: int)
    requires
        0 <= i < rows_with_key(inserts, k).len(),
    ensures
        rows_with_key(inserts, k)[i].0 == k,
    decreases inserts,
{
    if inserts.len() > 0 {
        if inserts[0].0 == k {
            if i > 0 {
                lemma_rwk_key(inserts.drop_first(), k, i - 1);
            }
        } else {
            lemma_rwk_key(inserts.drop_first(), k, i);
        }
    }
}

/// Selecting a key's rows distributes over concatenation.
proof fn lemma_rwk_concat(a: Seq<(Seq<u8>, Seq<u8>)>, b: Seq<(Seq<u8>, Seq<u8>)>, k: Seq<u8>)
    ensures
        rows_with_key(a + b, k) == rows_with_key(a, k) + rows_with_key(b, k),
    decreases a,
{
    if a.len() == 0 {
        assert(a + b =~= b);
        assert(rows_with_key(a, k) + rows_with_key(b, k) =~= rows_with_key(b, k));
    } else {
        lemma_rwk_concat(a.drop_first(), b, k);
        assert((a + b)[0] == a[0]);
        assert((a + b).drop_first() =~= a.drop_first() + b);
        assert(rows_with_key(a + b, k) =~= rows_with_key(a, k) + rows_with_key(b, k));
    }
}

/// A run whose rows all carry the key selects to itself.
proof fn lemma_rwk_all(s: Seq<(Seq<u8>, Seq<u8>)>, k: Seq<u8>)
    requires
        forall|i: int| 0 <= i < s.len() ==> (#[trigger] s[i]).0 == k,
    ensures
        rows_with_key(s, k) == s,
    decreases s,
{
    if s.len() > 0 {
        lemma_rwk_all(s.drop_first(), k);
        assert(rows_with_key(s, k) =~= s);
    }
}

/// A run none of whose rows carries the key selects to nothing.
proof fn lemma_rwk_none(s: Seq<(Seq<u8>, Seq<u8>)>, k: Seq<u8>)
    requires
        forall|i: int| 0 <= i < s.len() ==> (#[trigger] s[i]).0 != k,
    ensures
        rows_with_key(s, k) == Seq::<(Seq<u8>, Seq<u8>)>::empty(),
    decreases s,
{
    if s.len() > 0 {
        lemma_rwk_none(s.drop_first(), k);
        assert(rows_with_key(s, k) =~= Seq::<(Seq<u8>, Seq<u8>)>::empty());
    }
}

/// What draining the store yields: for each key, in the order the keys
/// are listed, the rows inserted under that key in insertion order.
pub open spec fn drained(inserts: Seq<(Seq<u8>, Seq<u8>)>, ks: Seq<Seq<u8>>) -> Seq<
    (Seq<u8>, Seq<u8>),
>
    decreases ks,
{
    if ks.len() == 0 {
        Seq::empty()
    } else {
        rows_with_key(inserts, ks[0]) + drained(inserts, ks.drop_first())
    }
}

/// Every drained row's key ranks strictly above a bound below all the
/// listed keys.
proof fn lemma_drained_keys_above(
    inserts: Seq<(Seq<u8>, Seq<u8>)>,
    ks: Seq<Seq<u8>>,
    lo: Seq<u8>,
    idx: int,
)
    requires
        forall|m: int| 0 <= m < ks.len() ==> lex_lt(lo, #[trigger] ks[m]),
        0 <= idx < drained(inserts, ks).len(),
    ensures
        lex_lt(lo, drained(inserts, ks)[idx].0),
    decreases ks,
{
    let seg = rows_with_key(inserts, ks[0]);
    if idx < seg.len() {
        lemma_rwk_key(inserts, ks[0], idx);
        assert(drained(inserts, ks)[idx] == seg[idx]);
    } else {
        assert(forall|m: int|
            0 <= m < ks.drop_first().len() ==> lex_lt(lo, #[trigger] ks.drop_first()[m]));
        lemma_drained_keys_above(inserts, ks.drop_first(), lo, idx - seg.len());
        assert(drained(inserts, ks)[idx] == drained(inserts, ks.drop_first())[idx - seg.len()]);
    }
}

/// Draining over strictly ascending keys yields rows sorted by key.
pub proof fn lemma_drained_sorted(inserts: Seq<(Seq<u8>, Seq<u8>)>, ks: Seq<Seq<u8>>)
    requires
        forall|m: int, m2: int| 0 <= m < m2 < ks.len() ==> lex_lt(#[trigger] ks[m], #[trigger] ks[m2]),
    ensures
        forall|i: int, j: int|
            0 <= i < j < drained(inserts, ks).len() ==> lex_le(
                #[trigger] drained(inserts, ks)[i].0,
                #[trigger] drained(inserts, ks)[j].0,
            ),
    decreases ks,
{
    if ks.len() > 0 {
        let seg = rows_with_key(inserts, ks[0]);
        let rest = drained(inserts, ks.drop_first());
        assert(forall|m: int, m2: int|
            0 <= m < m2 < ks.drop_first().len() ==> lex_lt(
                #[trigger] ks.drop_first()[m],
                #[trigger] ks.drop_first()[m2],
            ));
        lemma_drained_sorted(inserts, ks.drop_first());
        assert forall|i: int, j: int|
            0 <= i < j < drained(inserts, ks).len() implies lex_le(
            #[trigger] drained(inserts, ks)[i].0,
            #[trigger] drained(inserts, ks)[j].0,
        ) by {
            if j < seg.len() {
                lemma_rwk_key(inserts, ks[0], i);
                lemma_rwk_key(inserts, ks[0], j);
                assert(drained(inserts, ks)[i] == seg[i] && drained(inserts, ks)[j] == seg[j]);
            } else if i < seg.len() {
                lemma_rwk_key(inserts, ks[0], i);
                assert(drained(inserts, ks)[i] == seg[i]);
                assert(forall|m: int|
                    0 <= m < ks.drop_first().len() ==> lex_lt(ks[0], #[trigger] ks.drop_first()[m]));
                lemma_drained_keys_above(inserts, ks.drop_first(), ks[0], j - seg.len());
                assert(drained(inserts, ks)[j] == rest[j - seg.len()]);
            } else {
                assert(drained(inserts, ks)[i] == rest[i - seg.len()]);
                assert(drained(inserts, ks)[j] == rest[j - seg.len()]);
            }
        }
    }
}

/// Draining preserves insertion order among the rows of one key: the
/// drained rows under any listed key are exactly the rows inserted
/// under it, in insertion order. Merge batching cannot disturb this,
/// because the merge operator only ever appends.
pub proof fn lemma_drained_stable(
    inserts: Seq<(Seq<u8>, Seq<u8>)>,
    ks: Seq<Seq<u8>>,
    k: Seq<u8>,
)
    requires
        forall|m: int, m2: int| 0 <= m < m2 < ks.len() ==> lex_lt(#[trigger] ks[m], #[trigger] ks[m2]),
        ks.contains(k),
    ensures
        rows_with_key(drained(inserts, ks), k) == rows_with_key(inserts, k),
    decreases ks,
{
    let seg = rows_with_key(inserts, ks[0]);
    let rest = drained(inserts, ks.drop_first());
    lemma_rwk_concat(seg, rest, k);
    assert(drained(inserts, ks) == seg + rest);
    if ks[0] == k {
        assert forall|i: int| 0 <= i < seg.len() implies (#[trigger] seg[i]).0 == k by {
            lemma_rwk_key(inserts, ks[0], i);
        }
        lemma_rwk_all(seg, k);
        assert forall|i: int| 0 <= i < rest.len() implies (#[trigger] rest[i]).0 != k by {
            assert(forall|m: int|
                0 <= m < ks.drop_first().len() ==> lex_lt(k, #[trigger] ks.drop_first()[m]));
            lemma_drained_keys_above(inserts, ks.drop_first(), k, i);
            crate::sortkey::lemma_lex_trichotomy(k, rest[i].0);
        }
        lemma_rwk_none(rest, k);
        assert(rows_with_key(drained(inserts, ks), k) =~= rows_with_key(inserts, k));
    } else {
        let m = choose|m: int| 0 <= m < ks.len() && ks[m] == k;
        assert(m > 0);
        assert(ks.drop_first()[m - 1] == k);
        assert(ks.drop_first().contains(k));
        assert(forall|a: int, b: int|
            0 <= a < b < ks.drop_first().len() ==> lex_lt(
                #[trigger] ks.drop_first()[a],
                #[trigger] ks.drop_first()[b],
            ));
        lemma_drained_stable(inserts, ks.drop_first(), k);
        assert forall|i: int| 0 <= i < seg.len() implies (#[trigger] seg[i]).0 != k by {
            lemma_rwk_key(inserts, ks[0], i);
            crate::sortkey::lemma_lex_trichotomy(ks[0], k);
            assert(lex_lt(ks[0], k));
        }
        lemma_rwk_none(seg, k);
        assert(rows_with_key(drained(inserts, ks), k) =~= rows_with_key(inserts, k));
    }
}


/// Inserting one more row extends exactly its key's run.
proof fn lemma_rwk_push(s: Seq<(Seq<u8>, Seq<u8>)>, x: (Seq<u8>, Seq<u8>), k: Seq<u8>)
    ensures
        x.0 == k ==> rows_with_key(s.push(x), k) == rows_with_key(s, k).push(x),
        x.0 != k ==> rows_with_key(s.push(x), k) == rows_with_key(s, k),
    decreases s,
{
    if s.len() == 0 {
        assert(s.push(x)[0] == x);
        assert(s.push(x).drop_first() =~= Seq::<(Seq<u8>, Seq<u8>)>::empty());
        assert(rows_with_key(Seq::<(Seq<u8>, Seq<u8>)>::empty(), k) =~= Seq::<(
            Seq<u8>,
            Seq<u8>,
        )>::empty());
        if x.0 == k {
            assert(rows_with_key(s.push(x), k) =~= rows_with_key(s, k).push(x));
        } else {
            assert(rows_with_key(s.push(x), k) =~= rows_with_key(s, k));
        }
    } else {
        lemma_rwk_push(s.drop_first(), x, k);
        assert(s.push(x)[0] == s[0]);
        assert(s.push(x).drop_first() =~= s.drop_first().push(x));
        if x.0 == k {
            assert(rows_with_key(s.push(x), k) =~= rows_with_key(s, k).push(x));
        } else {
            assert(rows_with_key(s.push(x), k) =~= rows_with_key(s, k));
        }
    }
}

/// A row whose key is not listed leaves the drained rows unchanged.
proof fn lemma_drained_push_other(
    inserts: Seq<(Seq<u8>, Seq<u8>)>,
    ks: Seq<Seq<u8>>,
    x: (Seq<u8>, Seq<u8>),
)
    requires
        forall|m: int| 0 <= m < ks.len() ==> (#[trigger] ks[m]) != x.0,
    ensures
        drained(inserts.push(x), ks) == drained(inserts, ks),
    decreases ks,
{
    if ks.len() > 0 {
        lemma_rwk_push(inserts, x, ks[0]);
        assert(forall|m: int|
            0 <= m < ks.drop_first().len() ==> (#[trigger] ks.drop_first()[m]) != x.0);
        lemma_drained_push_other(inserts, ks.drop_first(), x);
        assert(drained(inserts.push(x), ks) =~= drained(inserts, ks));
    }
}

/// Inserting one more row adds exactly that row to the drained rows.
proof fn lemma_drained_push(
    inserts: Seq<(Seq<u8>, Seq<u8>)>,
    ks: Seq<Seq<u8>>,
    x: (Seq<u8>, Seq<u8>),
)
    requires
        forall|m: int, m2: int| 0 <= m < m2 < ks.len() ==> lex_lt(#[trigger] ks[m], #[trigger] ks[m2]),
        ks.contains(x.0),
    ensures
        drained(inserts.push(x), ks).to_multiset() == drained(inserts, ks).to_multiset().insert(x),
    decreases ks,
{
    broadcast use vstd::seq_lib::group_to_multiset_ensures;

    let seg = rows_with_key(inserts, ks[0]);
    let rest = drained(inserts, ks.drop_first());
    lemma_rwk_push(inserts, x, ks[0]);
    if ks[0] == x.0 {
        assert forall|m: int|
            0 <= m < ks.drop_first().len() implies (#[trigger] ks.drop_first()[m]) != x.0 by {
            assert(lex_lt(ks[0], ks.drop_first()[m]));
            crate::sortkey::lemma_lex_trichotomy(ks[0], ks.drop_first()[m]);
        }
        lemma_drained_push_other(inserts, ks.drop_first(), x);
        assert(drained(inserts.push(x), ks) == seg.push(x) + rest);
        vstd::seq_lib::lemma_multiset_commutative(seg.push(x), rest);
        vstd::seq_lib::lemma_multiset_commutative(seg, rest);
        assert(seg.push(x).to_multiset() =~= seg.to_multiset().insert(x));
        assert(seg.push(x).to_multiset().add(rest.to_multiset()) =~= seg.to_multiset().add(
            rest.to_multiset(),
        ).insert(x));
        assert(drained(inserts.push(x), ks).to_multiset() =~= drained(
            inserts,
            ks,
        ).to_multiset().insert(x));
    } else {
        let m = choose|m: int| 0 <= m < ks.len() && ks[m] == x.0;
        assert(m > 0);
        assert(ks.drop_first()[m - 1] == x.0);
        assert(ks.drop_first().contains(x.0));
        assert(forall|a: int, b: int|
            0 <= a < b < ks.drop_first().len() ==> lex_lt(
                #[trigger] ks.drop_first()[a],
                #[trigger] ks.drop_first()[b],
            ));
        lemma_drained_push(inserts, ks.drop_first(), x);
        assert(drained(inserts.push(x), ks) == seg + drained(inserts.push(x), ks.drop_first()));
        vstd::seq_lib::lemma_multiset_commutative(seg, drained(inserts.push(x), ks.drop_first()));
        vstd::seq_lib::lemma_multiset_commutative(seg, rest);
        assert(drained(inserts.push(x), ks).to_multiset() =~= drained(
            inserts,
            ks,
        ).to_multiset().insert(x));
    }
}

/// No rows are stored under any key before the first insert.
proof fn lemma_drained_empty(ks: Seq<Seq<u8>>)
    ensures
        drained(Seq::<(Seq<u8>, Seq<u8>)>::empty(), ks) == Seq::<(Seq<u8>, Seq<u8>)>::empty(),
    decreases ks,
{
    if ks.len() > 0 {
        lemma_drained_empty(ks.drop_first());
        assert(drained(Seq::<(Seq<u8>, Seq<u8>)>::empty(), ks) =~= Seq::<(
            Seq<u8>,
            Seq<u8>,
        )>::empty());
    }
}

/// Draining yields a permutation of the inserts: every inserted row
/// comes out exactly once.
pub proof fn lemma_drained_permutes(inserts: Seq<(Seq<u8>, Seq<u8>)>, ks: Seq<Seq<u8>>)
    requires
        forall|m: int, m2: int| 0 <= m < m2 < ks.len() ==> lex_lt(#[trigger] ks[m], #[trigger] ks[m2]),
        forall|i: int| 0 <= i < inserts.len() ==> ks.contains((#[trigger] inserts[i]).0),
    ensures
        drained(inserts, ks).to_multiset() == inserts.to_multiset(),
    decreases inserts,
{
    broadcast use vstd::seq_lib::group_to_multiset_ensures;

    if inserts.len() == 0 {
        lemma_drained_empty(ks);
        assert(inserts =~= Seq::<(Seq<u8>, Seq<u8>)>::empty());
        assert(drained(inserts, ks) =~= Seq::<(Seq<u8>, Seq<u8>)>::empty());
        assert(drained(inserts, ks).to_multiset() =~= inserts.to_multiset());
    } else {
        let pre = inserts.drop_last();
        let x = inserts.last();
        assert forall|i: int| 0 <= i < pre.len() implies ks.contains((#[trigger] pre[i]).0) by {
            assert(pre[i] == inserts[i]);
        }
        lemma_drained_permutes(pre, ks);
        assert(ks.contains(x.0)) by {
            assert(inserts[inserts.len() - 1] == x);
        }
        lemma_drained_push(pre, ks, x);
        assert(pre.push(x) =~= inserts);
        assert(drained(inserts, ks).to_multiset() =~= inserts.to_multiset());
    }
}

} // verus!
