use vstd::prelude::*;

use crate::error::SortKeyError;
use crate::schema::{ColumnMeta, Field, FieldKind, Schema, TypeMapping};
use crate::sort::{Sort, SortKey};
use crate::value::{
    scalar_fits, valid_children, valid_row, valid_value, vmodel_seq, Value, ValueModel,
    lemma_vmodel_seq_index,
};

verus! {

/// Strict lexicographic order on byte strings, compared as unsigned
/// bytes; a proper prefix ranks before its extensions.
pub open spec fn lex_lt(a: Seq<u8>, b: Seq<u8>) -> bool
    decreases a.len(),
{
    if b.len() == 0 {
        false
    } else if a.len() == 0 {
        true
    } else {
        a[0] < b[0] || (a[0] == b[0] && lex_lt(a.drop_first(), b.drop_first()))
    }
}

/// The bitwise complement of one byte.
pub open spec fn comp_byte(b: u8) -> u8 {
    (255 - b) as u8
}

/// The bytewise complement of a byte string; applied under descending
/// order so that greater values produce smaller key bytes.
pub open spec fn comp_bytes(s: Seq<u8>) -> Seq<u8> {
    s.map_values(|b: u8| comp_byte(b))
}

/// A byte string, complemented when the direction is descending.
pub open spec fn dir_bytes(s: Seq<u8>, descending: bool) -> Seq<u8> {
    if descending {
        comp_bytes(s)
    } else {
        s
    }
}

/// The four big-endian bytes of a 32-bit unsigned integer.
pub open spec fn be4(x: u32) -> Seq<u8> {
    seq![
        ((x >> 24) & 0xff) as u8,
        ((x >> 16) & 0xff) as u8,
        ((x >> 8) & 0xff) as u8,
        (x & 0xff) as u8,
    ]
}

/// The eight big-endian bytes of a 64-bit unsigned integer.
pub open spec fn be8(x: u64) -> Seq<u8> {
    seq![
        ((x >> 56) & 0xff) as u8,
        ((x >> 48) & 0xff) as u8,
        ((x >> 40) & 0xff) as u8,
        ((x >> 32) & 0xff) as u8,
        ((x >> 24) & 0xff) as u8,
        ((x >> 16) & 0xff) as u8,
        ((x >> 8) & 0xff) as u8,
        (x & 0xff) as u8,
    ]
}

/// Whether a leaf type encodes as four big-endian bytes.
pub open spec fn narrow_kind(m: TypeMapping) -> bool {
    m is I32 || m is U32 || m is Date || m is F32
}

/// Whether a leaf type encodes as eight big-endian bytes.
pub open spec fn wide_kind(m: TypeMapping) -> bool {
    m is I64 || m is U64 || m is DateTime || m is F64
}

/// Flipping the sign bit of a 32-bit two's-complement pattern maps
/// signed order onto unsigned order.
pub open spec fn sign_flip32(x: u32) -> u32 {
    x ^ 0x8000_0000
}

/// Flipping the sign bit of a 64-bit two's-complement pattern maps
/// signed order onto unsigned order.
pub open spec fn sign_flip64(x: u64) -> u64 {
    x ^ 0x8000_0000_0000_0000
}

/// The total-order transform of 32-bit float bits: negative patterns
/// are complemented, the rest get the sign bit flipped, so unsigned
/// order of the result is the standard total order on floats
/// (negative before positive, with the two zeros and the NaN patterns
/// ranked by their bit patterns).
pub open spec fn float_total32(b: u32) -> u32 {
    if b >> 31 == 1 {
        !b
    } else {
        b ^ 0x8000_0000
    }
}

/// The total-order transform of 64-bit float bits.
pub open spec fn float_total64(b: u64) -> u64 {
    if b >> 63 == 1 {
        !b
    } else {
        b ^ 0x8000_0000_0000_0000
    }
}

/// A timestamp scalar normalized to microseconds.
pub open spec fn micros_of(u: crate::schema::DateTimeUnit, v: ValueModel) -> int {
    if u is Millis {
        v->TimestampMillis_0 * 1000
    } else {
        v->TimestampMicros_0 as int
    }
}

/// The canonical 32-bit key pattern of a narrow scalar: unsigned
/// values directly, signed values with the sign bit flipped, float
/// bits through the total-order transform, so that unsigned order of
/// the pattern is the value order.
pub open spec fn scalar_num32(m: TypeMapping, v: ValueModel) -> u32 {
    match m {
        TypeMapping::I32 => sign_flip32(v->I32_0 as u32),
        TypeMapping::U32 => v->U32_0,
        TypeMapping::Date => sign_flip32(v->Date_0 as u32),
        _ => float_total32(v->F32Bits_0),
    }
}

/// The canonical 64-bit key pattern of a wide scalar: unsigned values
/// directly, signed values with the sign bit flipped, float bits
/// through the total-order transform, millisecond timestamps
/// normalized to microseconds first.
pub open spec fn scalar_num64(m: TypeMapping, v: ValueModel) -> u64 {
    match m {
        TypeMapping::I64 => sign_flip64(v->I64_0 as u64),
        TypeMapping::U64 => v->U64_0,
        TypeMapping::DateTime(u) => if u is Millis {
            sign_flip64((v->TimestampMillis_0 * 1000) as u64)
        } else {
            sign_flip64(v->TimestampMicros_0 as u64)
        },
        _ => float_total64(v->F64Bits_0),
    }
}

/// The key byte of a boolean: false before true ascending, reversed
/// descending.
pub open spec fn bool_byte(b: bool, descending: bool) -> u8 {
    if descending {
        if b {
            0
        } else {
            1
        }
    } else {
        if b {
            1
        } else {
            0
        }
    }
}

/// The terminator byte that closes a string key segment: the smallest
/// byte ascending, the largest descending, so that a string ranks
/// strictly before (after) its own proper extensions.
pub open spec fn term_byte(descending: bool) -> u8 {
    if descending {
        255
    } else {
        0
    }
}

/// The key bytes of one present scalar under the given direction.
pub open spec fn scalar_bytes(m: TypeMapping, v: ValueModel, descending: bool) -> Seq<u8> {
    if m is Bool {
        seq![bool_byte(v->Bool_0, descending)]
    } else if narrow_kind(m) {
        dir_bytes(be4(scalar_num32(m, v)), descending)
    } else if wide_kind(m) {
        dir_bytes(be8(scalar_num64(m, v)), descending)
    } else if m is String {
        dir_bytes(v->Str_0, descending) + seq![term_byte(descending)]
    } else if m is ByteArray {
        dir_bytes(v->Bytes_0, descending)
    } else {
        dir_bytes(v->Fixed_0, descending)
    }
}

/// The presence flag of an optional column, positioned so that
/// ascending unsigned order ranks absent values per `nulls_first`.
pub open spec fn presence_byte(nulls_first: bool, present: bool) -> u8 {
    if present {
        if nulls_first {
            1
        } else {
            0
        }
    } else {
        if nulls_first {
            0
        } else {
            1
        }
    }
}

/// The key bytes of one selector: a presence flag when the column is
/// optional anywhere on its path, then the scalar bytes when present.
pub open spec fn column_key_bytes(meta: ColumnMeta, sel: Sort<usize>, o: Option<ValueModel>)
    -> Seq<u8> {
    if meta.max_def > 0 {
        match o {
            Some(x) => seq![presence_byte(sel.nulls_first, true)] + scalar_bytes(
                meta.mapping,
                x,
                sel.descending,
            ),
            None => seq![presence_byte(sel.nulls_first, false)],
        }
    } else {
        match o {
            Some(x) => scalar_bytes(meta.mapping, x, sel.descending),
            None => Seq::empty(),
        }
    }
}

/// The scalar at leaf ordinal `ord` inside a value, or nothing when an
/// optional ancestor on the path is absent. Columns inside lists are
/// never sort columns, so a list yields nothing.
pub open spec fn extract_field(f: Field, v: ValueModel, ord: int) -> Option<ValueModel>
    decreases v,
{
    if v is Null {
        None
    } else {
        match f.kind {
            FieldKind::Leaf(_) => Some(v),
            FieldKind::Group(children) => {
                if v is Group {
                    extract_children(children@, v->Group_0, ord)
                } else {
                    None
                }
            },
            FieldKind::List(_) => None,
        }
    }
}

/// The scalar at leaf ordinal `ord` under a run of sibling fields.
pub open spec fn extract_children(fs: Seq<Field>, vs: Seq<ValueModel>, ord: int) -> Option<
    ValueModel,
>
    decreases vs,
{
    if fs.len() == 0 || vs.len() == 0 {
        None
    } else if ord < fs[0].col_end {
        extract_field(fs[0], vs[0], ord)
    } else {
        extract_children(fs.drop_first(), vs.drop_first(), ord)
    }
}

/// The scalar at leaf ordinal `ord` in a row.
pub open spec fn extract_row(s: Schema, row: ValueModel, ord: int) -> Option<ValueModel> {
    extract_children(s.fields@, row->Group_0, ord)
}

/// The sort key of a row under an ordered list of selectors: the
/// selectors' column key bytes, concatenated in order.
pub open spec fn row_key_bytes(s: Schema, sels: Seq<Sort<usize>>, row: ValueModel) -> Seq<u8>
    decreases sels.len(),
{
    if sels.len() == 0 {
        Seq::empty()
    } else {
        column_key_bytes(
            s.columns@[sels[0].column as int],
            sels[0],
            extract_row(s, row, sels[0].column as int),
        ) + row_key_bytes(s, sels.drop_first(), row)
    }
}

/// Push the big-endian bytes of a 32-bit pattern, complemented when
/// descending.
pub(crate) fn push_be4(out: &mut Vec<u8>, x: u32, descending: bool)
    ensures
        final(out)@ == old(out)@ + dir_bytes(be4(x), descending),
{
    proof {
        assert((x >> 24) & 0xff <= 0xff && (x >> 16) & 0xff <= 0xff && (x >> 8) & 0xff <= 0xff && x
            & 0xff <= 0xff) by (bit_vector);
    }
    let b0 = ((x >> 24) & 0xff) as u8;
    let b1 = ((x >> 16) & 0xff) as u8;
    let b2 = ((x >> 8) & 0xff) as u8;
    let b3 = (x & 0xff) as u8;
    if descending {
        out.push(255 - b0);
        out.push(255 - b1);
        out.push(255 - b2);
        out.push(255 - b3);
        proof {
            assert(final(out)@ =~= old(out)@ + dir_bytes(be4(x), descending));
        }
    } else {
        out.push(b0);
        out.push(b1);
        out.push(b2);
        out.push(b3);
        proof {
            assert(final(out)@ =~= old(out)@ + dir_bytes(be4(x), descending));
        }
    }
}

/// Push the big-endian bytes of a 64-bit pattern, complemented when
/// descending.
fn push_be8(out: &mut Vec<u8>, x: u64, descending: bool)
    ensures
        final(out)@ == old(out)@ + dir_bytes(be8(x), descending),
{
    proof {
        assert((x >> 56) & 0xff <= 0xff && (x >> 48) & 0xff <= 0xff && (x >> 40) & 0xff <= 0xff && (
        x >> 32) & 0xff <= 0xff && (x >> 24) & 0xff <= 0xff && (x >> 16) & 0xff <= 0xff && (x >> 8)
            & 0xff <= 0xff && x & 0xff <= 0xff) by (bit_vector);
    }
    let b0 = ((x >> 56) & 0xff) as u8;
    let b1 = ((x >> 48) & 0xff) as u8;
    let b2 = ((x >> 40) & 0xff) as u8;
    let b3 = ((x >> 32) & 0xff) as u8;
    let b4 = ((x >> 24) & 0xff) as u8;
    let b5 = ((x >> 16) & 0xff) as u8;
    let b6 = ((x >> 8) & 0xff) as u8;
    let b7 = (x & 0xff) as u8;
    if descending {
        out.push(255 - b0);
        out.push(255 - b1);
        out.push(255 - b2);
        out.push(255 - b3);
        out.push(255 - b4);
        out.push(255 - b5);
        out.push(255 - b6);
        out.push(255 - b7);
        proof {
            assert(final(out)@ =~= old(out)@ + dir_bytes(be8(x), descending));
        }
    } else {
        out.push(b0);
        out.push(b1);
        out.push(b2);
        out.push(b3);
        out.push(b4);
        out.push(b5);
        out.push(b6);
        out.push(b7);
        proof {
            assert(final(out)@ =~= old(out)@ + dir_bytes(be8(x), descending));
        }
    }
}

/// Push raw bytes, complemented when descending.
#[verifier::loop_isolation(false)]
fn push_dir_bytes(out: &mut Vec<u8>, bytes: &Vec<u8>, descending: bool)
    ensures
        final(out)@ == old(out)@ + dir_bytes(bytes@, descending),
{
    let mut i: usize = 0;
    while i < bytes.len()
        invariant
            i <= bytes@.len(),
            out@ == old(out)@ + dir_bytes(bytes@.take(i as int), descending),
        decreases bytes@.len() - i,
    {
        let b = bytes[i];
        if descending {
            out.push(255 - b);
        } else {
            out.push(b);
        }
        proof {
            assert(dir_bytes(bytes@.take(i + 1), descending) =~= dir_bytes(
                bytes@.take(i as int),
                descending,
            ).push(if descending {
                comp_byte(bytes@[i as int])
            } else {
                bytes@[i as int]
            }));
            assert(out@ =~= old(out)@ + dir_bytes(bytes@.take(i + 1), descending));
        }
        i = i + 1;
    }
    proof {
        assert(bytes@.take(bytes@.len() as int) =~= bytes@);
        assert(out@ =~= old(out)@ + dir_bytes(bytes@, descending));
    }
}

/// Push the key bytes of one present scalar.
fn push_scalar_bytes(out: &mut Vec<u8>, m: &TypeMapping, v: &Value, descending: bool)
    requires
        scalar_fits(*m, v@),
    ensures
        final(out)@ == old(out)@ + scalar_bytes(*m, v@, descending),
{
    match (m, v) {
        (TypeMapping::Bool, Value::Bool(b)) => {
            if descending {
                out.push(if *b {
                    0
                } else {
                    1
                });
            } else {
                out.push(if *b {
                    1
                } else {
                    0
                });
            }
        }
        (TypeMapping::I32, Value::I32(x)) => push_be4(
            out,
            (*x as u32) ^ 0x8000_0000,
            descending,
        ),
        (TypeMapping::U32, Value::U32(x)) => push_be4(out, *x, descending),
        (TypeMapping::Date, Value::Date(x)) => push_be4(
            out,
            (*x as u32) ^ 0x8000_0000,
            descending,
        ),
        (TypeMapping::F32, Value::F32Bits(x)) => {
            let b = *x;
            let t = if b >> 31 == 1 {
                !b
            } else {
                b ^ 0x8000_0000
            };
            push_be4(out, t, descending)
        }
        (TypeMapping::I64, Value::I64(x)) => push_be8(
            out,
            (*x as u64) ^ 0x8000_0000_0000_0000,
            descending,
        ),
        (TypeMapping::U64, Value::U64(x)) => push_be8(out, *x, descending),
        (TypeMapping::F64, Value::F64Bits(x)) => {
            let b = *x;
            let t = if b >> 63 == 1 {
                !b
            } else {
                b ^ 0x8000_0000_0000_0000
            };
            push_be8(out, t, descending)
        }
        (TypeMapping::DateTime(u), v2) => {
            match (u, v2) {
                (crate::schema::DateTimeUnit::Millis, Value::TimestampMillis(ms)) => {
                    push_be8(out, ((*ms * 1000) as u64) ^ 0x8000_0000_0000_0000, descending);
                }
                (crate::schema::DateTimeUnit::Micros, Value::TimestampMicros(us)) => {
                    push_be8(out, (*us as u64) ^ 0x8000_0000_0000_0000, descending);
                }
                _ => {
                    proof {
                        assert(false);
                    }
                }
            }
        }
        (TypeMapping::String, Value::Str(b)) => {
            push_dir_bytes(out, b, descending);
            out.push(if descending {
                255
            } else {
                0
            });
            proof {
                assert(final(out)@ =~= old(out)@ + scalar_bytes(*m, v@, descending));
            }
        }
        (TypeMapping::ByteArray, Value::Bytes(b)) => push_dir_bytes(out, b, descending),
        (TypeMapping::FixedLengthByteArray(_), Value::Fixed(b)) => push_dir_bytes(
            out,
            b,
            descending,
        ),
        _ => {
            proof {
                assert(false);
            }
        }
    }
}

/// Find the scalar at leaf ordinal `ord` inside a value, or nothing
/// when an optional ancestor on its path is absent.
#[verifier::loop_isolation(false)]
pub fn extract_ord<'a>(f: &'a Field, v: &'a Value, ord: usize) -> (r: Option<&'a Value>)
    ensures
        match r {
            Some(x) => extract_field(*f, v@, ord as int) == Some(x@) && !(*x is Null),
            None => extract_field(*f, v@, ord as int) is None,
        },
    decreases *v,
{
    match v {
        Value::Null => None,
        _ => {
            match &f.kind {
                FieldKind::Leaf(_) => Some(v),
                FieldKind::Group(children) => {
                    match v {
                        Value::Group(vs) => {
                            proof {
                                lemma_vmodel_seq_index(vs@);
                            }
                            let n = if children.len() < vs.len() {
                                children.len()
                            } else {
                                vs.len()
                            };
                            let mut i: usize = 0;
                            proof {
                                assert(children@.skip(0) =~= children@);
                                assert(vmodel_seq(vs@).skip(0) =~= vmodel_seq(vs@));
                            }
                            while i < n
                                invariant
                                    i <= n,
                                    n == vstd::math::min(children@.len() as int, vs@.len() as int),
                                    extract_children(children@, vmodel_seq(vs@), ord as int)
                                        == extract_children(
                                        children@.skip(i as int),
                                        vmodel_seq(vs@).skip(i as int),
                                        ord as int,
                                    ),
                                decreases n - i,
                            {
                                proof {
                                    assert(children@.skip(i as int)[0] == children@[i as int]);
                                    assert(vmodel_seq(vs@).skip(i as int)[0] == vmodel_seq(vs@)[
                                        i as int]);
                                    assert(children@.skip(i as int).drop_first() =~= children@.skip(
                                        i + 1,
                                    ));
                                    assert(vmodel_seq(vs@).skip(i as int).drop_first()
                                        =~= vmodel_seq(vs@).skip(i + 1));
                                }
                                if ord < children[i].col_end {
                                    proof {
                                        assert(decreases_to!(*v => v->Group_0));
                                        assert(decreases_to!(v->Group_0 => v->Group_0[i as int]));
                                    }
                                    return extract_ord(&children[i], &vs[i], ord);
                                }
                                i = i + 1;
                            }
                            proof {
                                if children@.len() <= vs@.len() {
                                    assert(children@.skip(i as int).len() == 0);
                                } else {
                                    assert(vmodel_seq(vs@).skip(i as int).len() == 0);
                                }
                            }
                            None
                        }
                        _ => None,
                    }
                }
                FieldKind::List(_) => None,
            }
        }
    }
}

impl Schema {
    /// Build a sort-key descriptor from one to five selectors. Fails
    /// with `UnsupportedLength` when the selector list is empty or has
    /// more than five entries, and with `NonSingletonByteArrayKey` when
    /// a selected column is variable-length bytes without the string
    /// annotation.
    #[verifier::loop_isolation(false)]
    pub fn sort_key(&self, columns: &Vec<Sort<usize>>) -> (r: Result<SortKey<usize>, SortKeyError>)
        requires
            forall|i: int|
                0 <= i < columns@.len() ==> (#[trigger] columns@[i]).column < self.columns@.len(),
        ensures
            match r {
                Ok(k) => {
                    &&& 1 <= columns@.len() <= 5
                    &&& forall|i: int|
                        0 <= i < columns@.len() ==> !(self.columns@[(
                        #[trigger] columns@[i]).column as int].mapping is ByteArray)
                    &&& k.columns_spec() == columns@
                },
                Err(e) => {
                    &&& e matches SortKeyError::UnsupportedLength(n) ==> (n == columns@.len() && (
                    columns@.len() == 0 || columns@.len() > 5))
                    &&& e is NonSingletonByteArrayKey ==> (1 <= columns@.len() <= 5 && exists|
                        i: int,
                    |
                        0 <= i < columns@.len() && self.columns@[(
                        #[trigger] columns@[i]).column as int].mapping is ByteArray)
                    &&& (e is NonSingletonByteArrayKey || e matches
                        SortKeyError::UnsupportedLength(_))
                },
            },
    {
        if columns.len() == 0 || columns.len() > 5 {
            return Err(SortKeyError::UnsupportedLength(columns.len()));
        }
        let mut i: usize = 0;
        while i < columns.len()
            invariant
                i <= columns@.len(),
                forall|j: int|
                    0 <= j < i ==> !(self.columns@[(#[trigger] columns@[j]).column as int].mapping
                        is ByteArray),
            decreases columns@.len() - i,
        {
            if matches!(self.columns[columns[i].column].mapping, TypeMapping::ByteArray) {
                return Err(SortKeyError::NonSingletonByteArrayKey);
            }
            i = i + 1;
        }
        let r = match columns.len() {
            1 => SortKey::Columns1(columns[0]),
            2 => SortKey::Columns2(columns[0], columns[1]),
            3 => SortKey::Columns3(columns[0], columns[1], columns[2]),
            4 => SortKey::Columns4(columns[0], columns[1], columns[2], columns[3]),
            _ => SortKey::Columns5(
                columns[0],
                columns[1],
                columns[2],
                columns[3],
                columns[4],
            ),
        };
        proof {
            assert(r.columns_spec() =~= columns@);
        }
        Ok(r)
    }

    /// Encode a row's sort key under a descriptor: per selector, in
    /// order, a presence flag for optional columns and the scalar's
    /// order-preserving bytes.
    #[verifier::loop_isolation(false)]
    pub fn sort_key_value(&self, row: &Value, key: &SortKey<usize>) -> (r: Vec<u8>)
        requires
            crate::schema::wf_schema(*self),
            valid_row(*self, row@),
            forall|i: int|
                0 <= i < key.columns_spec().len() ==> (#[trigger] key.columns_spec()[i]).column
                    < self.columns@.len(),
        ensures
            r@ == row_key_bytes(*self, key.columns_spec(), row@),
    {
        let sels = key.columns();
        let mut bytes: Vec<u8> = Vec::new();
        let mut i: usize = 0;
        proof {
            assert(sels@.skip(0) =~= sels@);
        }
        while i < sels.len()
            invariant
                i <= sels@.len(),
                row_key_bytes(*self, sels@, row@) == bytes@ + row_key_bytes(
                    *self,
                    sels@.skip(i as int),
                    row@,
                ),
            decreases sels@.len() - i,
        {
            let sel = sels[i];
            let ghost pre = bytes@;
            let ghost meta_g = self.columns@[sel.column as int];
            proof {
                assert(sels@.skip(i as int)[0] == sels@[i as int]);
                assert(sels@.skip(i as int).drop_first() =~= sels@.skip(i + 1));
                if row@ is Group {
                    lemma_extract_children_fits(
                        self.fields@,
                        row@->Group_0,
                        0,
                        0,
                        0,
                        self.columns@.len() as int,
                        sel.column as int,
                    );
                }
            }
            let meta = &self.columns[sel.column];
            let extracted = match row {
                Value::Group(vs) => {
                    proof {
                        lemma_vmodel_seq_index(vs@);
                    }
                    extract_root(&self.fields, vs, sel.column)
                }
                _ => None,
            };
            if meta.max_def > 0 {
                match extracted {
                    Some(x) => {
                        bytes.push(if sel.nulls_first {
                            1
                        } else {
                            0
                        });
                        push_scalar_bytes(&mut bytes, &meta.mapping, x, sel.descending);
                        proof {
                            assert(bytes@ =~= pre + column_key_bytes(
                                meta_g,
                                sels@[i as int],
                                extract_row(*self, row@, sel.column as int),
                            ));
                        }
                    }
                    None => {
                        bytes.push(if sel.nulls_first {
                            0
                        } else {
                            1
                        });
                        proof {
                            assert(bytes@ =~= pre + column_key_bytes(
                                meta_g,
                                sels@[i as int],
                                extract_row(*self, row@, sel.column as int),
                            ));
                        }
                    }
                }
            } else {
                match extracted {
                    Some(x) => {
                        push_scalar_bytes(&mut bytes, &meta.mapping, x, sel.descending);
                        proof {
                            assert(bytes@ =~= pre + column_key_bytes(
                                meta_g,
                                sels@[i as int],
                                extract_row(*self, row@, sel.column as int),
                            ));
                        }
                    }
                    None => {
                        proof {
                            assert(bytes@ =~= pre + column_key_bytes(
                                meta_g,
                                sels@[i as int],
                                extract_row(*self, row@, sel.column as int),
                            ));
                        }
                    }
                }
            }
            i = i + 1;
        }
        proof {
            assert(sels@.skip(i as int).len() == 0);
            assert(bytes@ =~= row_key_bytes(*self, sels@, row@));
        }
        bytes
    }
}

/// Find the scalar at leaf ordinal `ord` among the root fields of a
/// row.
#[verifier::loop_isolation(false)]
fn extract_root<'a>(fields: &'a Vec<Field>, vs: &'a Vec<Value>, ord: usize) -> (r: Option<
    &'a Value,
>)
    ensures
        match r {
            Some(x) => extract_children(fields@, vmodel_seq(vs@), ord as int) == Some(x@) && !(*x
                is Null),
            None => extract_children(fields@, vmodel_seq(vs@), ord as int) is None,
        },
{
    proof {
        lemma_vmodel_seq_index(vs@);
    }
    let n = if fields.len() < vs.len() {
        fields.len()
    } else {
        vs.len()
    };
    let mut i: usize = 0;
    proof {
        assert(fields@.skip(0) =~= fields@);
        assert(vmodel_seq(vs@).skip(0) =~= vmodel_seq(vs@));
    }
    while i < n
        invariant
            i <= n,
            n == vstd::math::min(fields@.len() as int, vs@.len() as int),
            extract_children(fields@, vmodel_seq(vs@), ord as int) == extract_children(
                fields@.skip(i as int),
                vmodel_seq(vs@).skip(i as int),
                ord as int,
            ),
        decreases n - i,
    {
        proof {
            assert(fields@.skip(i as int)[0] == fields@[i as int]);
            assert(vmodel_seq(vs@).skip(i as int)[0] == vmodel_seq(vs@)[i as int]);
            assert(fields@.skip(i as int).drop_first() =~= fields@.skip(i + 1));
            assert(vmodel_seq(vs@).skip(i as int).drop_first() =~= vmodel_seq(vs@).skip(i + 1));
        }
        if ord < fields[i].col_end {
            return extract_ord(&fields[i], &vs[i], ord);
        }
        i = i + 1;
    }
    proof {
        if fields@.len() <= vs@.len() {
            assert(fields@.skip(i as int).len() == 0);
        } else {
            assert(vmodel_seq(vs@).skip(i as int).len() == 0);
        }
    }
    None
}

/// Under a well-formed field, the leaf metadata list is exactly as
/// long as the field's column range.
pub proof fn lemma_leaf_metas_len(f: Field, dd: int, rr: int, cs: int)
    requires
        crate::schema::wf_field(f, dd, rr, cs),
    ensures
        crate::schema::leaf_metas(f).len() == f.col_end - cs,
        f.col_end >= cs,
    decreases f,
{
    match f.kind {
        FieldKind::Leaf(_) => {}
        FieldKind::Group(children) => {
            lemma_leaf_metas_seq_len(
                children@,
                f.def_depth as int,
                f.rep_depth as int,
                cs,
                f.col_end as int,
            );
        }
        FieldKind::List(elem) => {
            lemma_leaf_metas_len(*elem, f.def_depth as int, f.rep_depth as int, cs);
        }
    }
}

/// Under a well-formed run of fields, the combined leaf metadata list
/// is exactly as long as the covered column range.
pub proof fn lemma_leaf_metas_seq_len(s: Seq<Field>, dd: int, rr: int, cs: int, ce: int)
    requires
        crate::schema::wf_fields(s, dd, rr, cs, ce),
    ensures
        crate::schema::leaf_metas_seq(s).len() == ce - cs,
        ce >= cs,
    decreases s,
{
    if s.len() > 0 {
        lemma_leaf_metas_len(s[0], dd, rr, cs);
        lemma_leaf_metas_seq_len(s.drop_first(), dd, rr, s[0].col_end as int, ce);
    }
}

/// Under a well-formed run of root fields, an extracted scalar always
/// fits the leaf type recorded for its ordinal, and is never null.
pub proof fn lemma_extract_children_fits(
    fs: Seq<Field>,
    vs: Seq<ValueModel>,
    dd: int,
    rr: int,
    cs: int,
    ce: int,
    ord: int,
)
    requires
        crate::schema::wf_fields(fs, dd, rr, cs, ce),
        valid_children(fs, vs),
        vs.len() == fs.len(),
        cs <= ord < ce,
    ensures
        match extract_children(fs, vs, ord) {
            Some(x) => !(x is Null) && scalar_fits(
                crate::schema::leaf_metas_seq(fs)[ord - cs].mapping,
                x,
            ),
            None => true,
        },
    decreases vs,
{
    if fs.len() > 0 && vs.len() > 0 {
        lemma_leaf_metas_len(fs[0], dd, rr, cs);
        if ord < fs[0].col_end {
            lemma_extract_field_fits(fs[0], vs[0], dd, rr, cs, ord);
            lemma_leaf_metas_seq_index_concat(fs, dd, rr, cs, ce, ord);
        } else {
            lemma_extract_children_fits(
                fs.drop_first(),
                vs.drop_first(),
                dd,
                rr,
                fs[0].col_end as int,
                ce,
                ord,
            );
            lemma_leaf_metas_seq_index_concat(fs, dd, rr, cs, ce, ord);
        }
    }
}

/// The leaf metadata at an ordinal under a run of fields is the one
/// recorded by the child that owns the ordinal.
proof fn lemma_leaf_metas_seq_index_concat(
    fs: Seq<Field>,
    dd: int,
    rr: int,
    cs: int,
    ce: int,
    ord: int,
)
    requires
        crate::schema::wf_fields(fs, dd, rr, cs, ce),
        fs.len() > 0,
        cs <= ord < ce,
    ensures
        crate::schema::leaf_metas_seq(fs)[ord - cs] == if ord < fs[0].col_end {
            crate::schema::leaf_metas(fs[0])[ord - cs]
        } else {
            crate::schema::leaf_metas_seq(fs.drop_first())[ord - fs[0].col_end]
        },
{
    lemma_leaf_metas_len(fs[0], dd, rr, cs);
    lemma_leaf_metas_seq_len(fs.drop_first(), dd, rr, fs[0].col_end as int, ce);
}

/// An extracted scalar under a well-formed field fits the leaf type
/// recorded for its ordinal, and is never null.
pub proof fn lemma_extract_field_fits(f: Field, v: ValueModel, dd: int, rr: int, cs: int, ord: int)
    requires
        crate::schema::wf_field(f, dd, rr, cs),
        valid_value(f, v),
        cs <= ord < f.col_end,
    ensures
        match extract_field(f, v, ord) {
            Some(x) => !(x is Null) && scalar_fits(
                crate::schema::leaf_metas(f)[ord - cs].mapping,
                x,
            ),
            None => true,
        },
    decreases v,
{
    if !(v is Null) {
        match f.kind {
            FieldKind::Leaf(_) => {}
            FieldKind::Group(children) => {
                lemma_extract_children_fits(
                    children@,
                    v->Group_0,
                    f.def_depth as int,
                    f.rep_depth as int,
                    cs,
                    f.col_end as int,
                    ord,
                );
            }
            FieldKind::List(_) => {}
        }
    }
}


/// Byte strings `a` and `b` agree before index `i` and `a` is smaller
/// at `i`; such strings stay ordered under any suffixes.
pub open spec fn diverges_at(a: Seq<u8>, b: Seq<u8>, i: int) -> bool {
    &&& 0 <= i < a.len()
    &&& i < b.len()
    &&& a[i] < b[i]
    &&& forall|j: int| 0 <= j < i ==> a[j] == b[j]
}

/// Byte strings that disagree at some common index, the first string
/// smaller there.
pub open spec fn diverges_lt(a: Seq<u8>, b: Seq<u8>) -> bool {
    exists|i: int| diverges_at(a, b, i)
}

/// Divergence at a common index implies lexicographic order, whatever
/// follows.
proof fn lemma_diverge_at_lex(a: Seq<u8>, b: Seq<u8>, i: int)
    requires
        diverges_at(a, b, i),
    ensures
        lex_lt(a, b),
    decreases i,
{
    if i == 0 {
    } else {
        assert(a[0] == b[0]);
        assert(diverges_at(a.drop_first(), b.drop_first(), i - 1)) by {
            assert(forall|j: int|
                0 <= j < i - 1 ==> a.drop_first()[j] == a[j + 1] && b.drop_first()[j] == b[j + 1]);
        }
        lemma_diverge_at_lex(a.drop_first(), b.drop_first(), i - 1);
    }
}

/// Divergence implies lexicographic order.
pub proof fn lemma_diverge_lex(a: Seq<u8>, b: Seq<u8>)
    requires
        diverges_lt(a, b),
    ensures
        lex_lt(a, b),
{
    let i = choose|i: int| diverges_at(a, b, i);
    lemma_diverge_at_lex(a, b, i);
}

/// Lexicographic order after a shared prefix is the order of the
/// suffixes.
proof fn lemma_lex_concat_eq(a: Seq<u8>, s: Seq<u8>, t: Seq<u8>)
    ensures
        lex_lt(a + s, a + t) == lex_lt(s, t),
    decreases a.len(),
{
    if a.len() == 0 {
        assert(a + s =~= s);
        assert(a + t =~= t);
    } else {
        lemma_lex_concat_eq(a.drop_first(), s, t);
        assert((a + s)[0] == a[0] && (a + t)[0] == a[0]);
        assert((a + s).drop_first() =~= a.drop_first() + s);
        assert((a + t).drop_first() =~= a.drop_first() + t);
    }
}

/// Divergence at a common index decides lexicographic order against
/// any suffixes on either side.
proof fn lemma_lex_concat_diverge(a: Seq<u8>, b: Seq<u8>, s: Seq<u8>, t: Seq<u8>, i: int)
    requires
        diverges_at(a, b, i),
    ensures
        lex_lt(a + s, b + t),
        !lex_lt(b + t, a + s),
        a + s != b + t,
    decreases i,
{
    if i == 0 {
        assert((a + s)[0] == a[0] && (b + t)[0] == b[0]);
        assert(lex_lt(a + s, b + t));
        assert(!lex_lt(b + t, a + s));
        assert((a + s)[0] != (b + t)[0]);
    } else {
        assert(diverges_at(a.drop_first(), b.drop_first(), i - 1)) by {
            assert(forall|j: int|
                0 <= j < i - 1 ==> a.drop_first()[j] == a[j + 1] && b.drop_first()[j] == b[j + 1]);
        }
        lemma_lex_concat_diverge(a.drop_first(), b.drop_first(), s, t, i - 1);
        assert((a + s)[0] == a[0] && (b + t)[0] == b[0]);
        assert((a + s).drop_first() =~= a.drop_first() + s);
        assert((b + t).drop_first() =~= b.drop_first() + t);
    }
}

/// Lexicographic order is a strict total order: for any two byte
/// strings exactly one of smaller, equal, greater holds.
pub proof fn lemma_lex_trichotomy(a: Seq<u8>, b: Seq<u8>)
    ensures
        lex_lt(a, b) || a == b || lex_lt(b, a),
        lex_lt(a, b) ==> a != b && !lex_lt(b, a),
        a == b ==> !lex_lt(a, b),
    decreases a.len(),
{
    if a.len() == 0 {
        if b.len() == 0 {
            assert(a =~= b);
        }
    } else if b.len() == 0 {
    } else {
        lemma_lex_trichotomy(a.drop_first(), b.drop_first());
        if a[0] == b[0] && a.drop_first() == b.drop_first() {
            assert(a.len() == b.len());
            assert forall|j: int| 0 <= j < a.len() implies a[j] == b[j] by {
                if j >= 1 {
                    assert(a.drop_first()[j - 1] == b.drop_first()[j - 1]);
                }
            }
            assert(a =~= b);
        }
        if a == b {
            assert(a.drop_first() =~= b.drop_first());
        }
    }
}

/// A lexicographically smaller string either diverges at a common
/// index or is a proper prefix of the larger one.
proof fn lemma_lex_cases(a: Seq<u8>, b: Seq<u8>)
    requires
        lex_lt(a, b),
    ensures
        diverges_lt(a, b) || (a.len() < b.len() && a =~= b.take(a.len() as int)),
    decreases a.len(),
{
    if a.len() == 0 {
        assert(a =~= b.take(0));
    } else {
        if a[0] < b[0] {
            assert(diverges_at(a, b, 0));
        } else {
            lemma_lex_cases(a.drop_first(), b.drop_first());
            if diverges_lt(a.drop_first(), b.drop_first()) {
                let i = choose|i: int| diverges_at(a.drop_first(), b.drop_first(), i);
                assert(diverges_at(a, b, i + 1)) by {
                    assert(a[i + 1] == a.drop_first()[i] && b[i + 1] == b.drop_first()[i]);
                    assert forall|j: int| 0 <= j < i + 1 implies a[j] == b[j] by {
                        if j >= 1 {
                            assert(a.drop_first()[j - 1] == b.drop_first()[j - 1]);
                        }
                    }
                }
            } else {
                assert(a.drop_first() == b.drop_first().take(a.len() - 1));
                assert forall|j: int| 0 <= j < a.len() implies a[j] == b.take(a.len() as int)[j] by {
                    if j >= 1 {
                        assert(a.drop_first()[j - 1] == b.drop_first().take(a.len() - 1)[j - 1]);
                        assert(b.drop_first().take(a.len() - 1)[j - 1] == b[j]);
                    }
                }
                assert(a =~= b.take(a.len() as int));
            }
        }
    }
}

/// Complementing both strings swaps a divergence.
proof fn lemma_comp_diverge(a: Seq<u8>, b: Seq<u8>, i: int)
    requires
        diverges_at(a, b, i),
    ensures
        diverges_at(comp_bytes(b), comp_bytes(a), i),
{
    assert(comp_bytes(b)[i] == comp_byte(b[i]) && comp_bytes(a)[i] == comp_byte(a[i]));
    assert(forall|j: int|
        0 <= j < i ==> comp_bytes(b)[j] == comp_byte(b[j]) && comp_bytes(a)[j] == comp_byte(a[j]));
}

/// Complementing preserves equality both ways.
proof fn lemma_comp_inj(a: Seq<u8>, b: Seq<u8>)
    requires
        comp_bytes(a) == comp_bytes(b),
    ensures
        a == b,
{
    assert(a.len() == comp_bytes(a).len() && b.len() == comp_bytes(b).len());
    assert forall|j: int| 0 <= j < a.len() implies a[j] == b[j] by {
        assert(comp_bytes(a)[j] == comp_byte(a[j]) && comp_bytes(b)[j] == comp_byte(b[j]));
    }
    assert(a =~= b);
}

/// Big-endian bytes of 32-bit patterns order exactly as the patterns.
proof fn lemma_be4_order(x: u32, y: u32)
    ensures
        x < y ==> diverges_lt(be4(x), be4(y)),
        be4(x) == be4(y) ==> x == y,
{
    assert((x >> 24) & 0xff < 256 && (x >> 16) & 0xff < 256 && (x >> 8) & 0xff < 256 && (x & 0xff)
        < 256 && (y >> 24) & 0xff < 256 && (y >> 16) & 0xff < 256 && (y >> 8) & 0xff < 256 && (y
        & 0xff) < 256) by (bit_vector);
    if x < y {
        assert((x >> 24) & 0xff < (y >> 24) & 0xff || ((x >> 24) & 0xff == (y >> 24) & 0xff && ((x
            >> 16) & 0xff < (y >> 16) & 0xff || ((x >> 16) & 0xff == (y >> 16) & 0xff && ((x >> 8)
            & 0xff < (y >> 8) & 0xff || ((x >> 8) & 0xff == (y >> 8) & 0xff && (x & 0xff) < (y
            & 0xff))))))) by (bit_vector)
            requires
                x < y,
        ;
        if (x >> 24) & 0xff < (y >> 24) & 0xff {
            assert(diverges_at(be4(x), be4(y), 0));
        } else if (x >> 16) & 0xff < (y >> 16) & 0xff {
            assert(diverges_at(be4(x), be4(y), 1));
        } else if (x >> 8) & 0xff < (y >> 8) & 0xff {
            assert(diverges_at(be4(x), be4(y), 2));
        } else {
            assert(diverges_at(be4(x), be4(y), 3));
        }
    }
    if be4(x) == be4(y) {
        assert(((x >> 24) & 0xff) as u8 == ((y >> 24) & 0xff) as u8 && ((x >> 16) & 0xff) as u8 == (
        (y >> 16) & 0xff) as u8 && ((x >> 8) & 0xff) as u8 == ((y >> 8) & 0xff) as u8 && (x
            & 0xff) as u8 == (y & 0xff) as u8);
        assert((((x >> 24) & 0xff) as u8 == ((y >> 24) & 0xff) as u8 && ((x >> 16) & 0xff) as u8
            == ((y >> 16) & 0xff) as u8 && ((x >> 8) & 0xff) as u8 == ((y >> 8) & 0xff) as u8 && (x
            & 0xff) as u8 == (y & 0xff) as u8) ==> x == y) by (bit_vector);
    }
}

/// Big-endian bytes of 64-bit patterns order exactly as the patterns.
proof fn lemma_be8_order(x: u64, y: u64)
    ensures
        x < y ==> diverges_lt(be8(x), be8(y)),
        be8(x) == be8(y) ==> x == y,
{
    assert((x >> 56) & 0xff < 256 && (x >> 48) & 0xff < 256 && (x >> 40) & 0xff < 256 && (x >> 32)
        & 0xff < 256 && (x >> 24) & 0xff < 256 && (x >> 16) & 0xff < 256 && (x >> 8) & 0xff < 256
        && (x & 0xff) < 256 && (y >> 56) & 0xff < 256 && (y >> 48) & 0xff < 256 && (y >> 40) & 0xff
        < 256 && (y >> 32) & 0xff < 256 && (y >> 24) & 0xff < 256 && (y >> 16) & 0xff < 256 && (y
        >> 8) & 0xff < 256 && (y & 0xff) < 256) by (bit_vector);
    if x < y {
        assert((x >> 56) & 0xff < (y >> 56) & 0xff || ((x >> 56) & 0xff == (y >> 56) & 0xff && ((x
            >> 48) & 0xff < (y >> 48) & 0xff || ((x >> 48) & 0xff == (y >> 48) & 0xff && ((x >> 40)
            & 0xff < (y >> 40) & 0xff || ((x >> 40) & 0xff == (y >> 40) & 0xff && ((x >> 32) & 0xff
            < (y >> 32) & 0xff || ((x >> 32) & 0xff == (y >> 32) & 0xff && ((x >> 24) & 0xff < (y
            >> 24) & 0xff || ((x >> 24) & 0xff == (y >> 24) & 0xff && ((x >> 16) & 0xff < (y >> 16)
            & 0xff || ((x >> 16) & 0xff == (y >> 16) & 0xff && ((x >> 8) & 0xff < (y >> 8) & 0xff
            || ((x >> 8) & 0xff == (y >> 8) & 0xff && (x & 0xff) < (y & 0xff)))))))))))))))
            by (bit_vector)
            requires
                x < y,
        ;
        if (x >> 56) & 0xff < (y >> 56) & 0xff {
            assert(diverges_at(be8(x), be8(y), 0));
        } else if (x >> 48) & 0xff < (y >> 48) & 0xff {
            assert(diverges_at(be8(x), be8(y), 1));
        } else if (x >> 40) & 0xff < (y >> 40) & 0xff {
            assert(diverges_at(be8(x), be8(y), 2));
        } else if (x >> 32) & 0xff < (y >> 32) & 0xff {
            assert(diverges_at(be8(x), be8(y), 3));
        } else if (x >> 24) & 0xff < (y >> 24) & 0xff {
            assert(diverges_at(be8(x), be8(y), 4));
        } else if (x >> 16) & 0xff < (y >> 16) & 0xff {
            assert(diverges_at(be8(x), be8(y), 5));
        } else if (x >> 8) & 0xff < (y >> 8) & 0xff {
            assert(diverges_at(be8(x), be8(y), 6));
        } else {
            assert(diverges_at(be8(x), be8(y), 7));
        }
    }
    if be8(x) == be8(y) {
        assert((((x >> 56) & 0xff) as u8 == ((y >> 56) & 0xff) as u8 && ((x >> 48) & 0xff) as u8
            == ((y >> 48) & 0xff) as u8 && ((x >> 40) & 0xff) as u8 == ((y >> 40) & 0xff) as u8 && (
        (x >> 32) & 0xff) as u8 == ((y >> 32) & 0xff) as u8 && ((x >> 24) & 0xff) as u8 == ((y
            >> 24) & 0xff) as u8 && ((x >> 16) & 0xff) as u8 == ((y >> 16) & 0xff) as u8 && ((x
            >> 8) & 0xff) as u8 == ((y >> 8) & 0xff) as u8 && (x & 0xff) as u8 == (y
            & 0xff) as u8) ==> x == y) by (bit_vector);
    }
}

/// The order of two scalars of one leaf type: booleans false before
/// true, integers, dates and timestamps by signed value (timestamps
/// normalized to microseconds), floats by the standard total order on
/// their bit patterns, strings and byte arrays by byte-wise
/// lexicographic order.
pub open spec fn scalar_lt(m: TypeMapping, x: ValueModel, y: ValueModel) -> bool {
    match m {
        TypeMapping::Bool => !x->Bool_0 && y->Bool_0,
        TypeMapping::I32 => x->I32_0 < y->I32_0,
        TypeMapping::U32 => x->U32_0 < y->U32_0,
        TypeMapping::Date => x->Date_0 < y->Date_0,
        TypeMapping::F32 => float_total32(x->F32Bits_0) < float_total32(y->F32Bits_0),
        TypeMapping::I64 => x->I64_0 < y->I64_0,
        TypeMapping::U64 => x->U64_0 < y->U64_0,
        TypeMapping::DateTime(u) => micros_of(u, x) < micros_of(u, y),
        TypeMapping::F64 => float_total64(x->F64Bits_0) < float_total64(y->F64Bits_0),
        TypeMapping::String => lex_lt(x->Str_0, y->Str_0),
        TypeMapping::ByteArray => lex_lt(x->Bytes_0, y->Bytes_0),
        TypeMapping::FixedLengthByteArray(_) => lex_lt(x->Fixed_0, y->Fixed_0),
    }
}

/// Whether two scalars of one leaf type carry the same key content.
pub open spec fn scalar_eqv(m: TypeMapping, x: ValueModel, y: ValueModel) -> bool {
    match m {
        TypeMapping::Bool => x->Bool_0 == y->Bool_0,
        TypeMapping::I32 => x->I32_0 == y->I32_0,
        TypeMapping::U32 => x->U32_0 == y->U32_0,
        TypeMapping::Date => x->Date_0 == y->Date_0,
        TypeMapping::F32 => float_total32(x->F32Bits_0) == float_total32(y->F32Bits_0),
        TypeMapping::I64 => x->I64_0 == y->I64_0,
        TypeMapping::U64 => x->U64_0 == y->U64_0,
        TypeMapping::DateTime(u) => micros_of(u, x) == micros_of(u, y),
        TypeMapping::F64 => float_total64(x->F64Bits_0) == float_total64(y->F64Bits_0),
        TypeMapping::String => x->Str_0 == y->Str_0,
        TypeMapping::ByteArray => x->Bytes_0 == y->Bytes_0,
        TypeMapping::FixedLengthByteArray(_) => x->Fixed_0 == y->Fixed_0,
    }
}

/// The value order of a narrow scalar is the unsigned order of its
/// canonical key pattern: the sign-bit flip maps signed order onto
/// unsigned order, and the float transform is the total order by
/// definition.
proof fn lemma_num32_semantics(m: TypeMapping, x: ValueModel, y: ValueModel)
    requires
        scalar_fits(m, x),
        scalar_fits(m, y),
        narrow_kind(m),
    ensures
        scalar_lt(m, x, y) == (scalar_num32(m, x) < scalar_num32(m, y)),
        scalar_eqv(m, x, y) == (scalar_num32(m, x) == scalar_num32(m, y)),
{
    match m {
        TypeMapping::I32 => {
            let a = x->I32_0;
            let b = y->I32_0;
            assert((a < b) == (((a as u32) ^ 0x8000_0000u32) < ((b as u32) ^ 0x8000_0000u32))
                && (a == b) == (((a as u32) ^ 0x8000_0000u32) == ((b as u32) ^ 0x8000_0000u32)))
                by (bit_vector);
        }
        TypeMapping::Date => {
            let a = x->Date_0;
            let b = y->Date_0;
            assert((a < b) == (((a as u32) ^ 0x8000_0000u32) < ((b as u32) ^ 0x8000_0000u32))
                && (a == b) == (((a as u32) ^ 0x8000_0000u32) == ((b as u32) ^ 0x8000_0000u32)))
                by (bit_vector);
        }
        _ => {}
    }
}

/// The value order of a wide scalar is the unsigned order of its
/// canonical key pattern.
proof fn lemma_num64_semantics(m: TypeMapping, x: ValueModel, y: ValueModel)
    requires
        scalar_fits(m, x),
        scalar_fits(m, y),
        wide_kind(m),
    ensures
        scalar_lt(m, x, y) == (scalar_num64(m, x) < scalar_num64(m, y)),
        scalar_eqv(m, x, y) == (scalar_num64(m, x) == scalar_num64(m, y)),
{
    match m {
        TypeMapping::I64 => {
            let a = x->I64_0;
            let b = y->I64_0;
            assert((a < b) == (((a as u64) ^ 0x8000_0000_0000_0000u64) < ((
            b as u64) ^ 0x8000_0000_0000_0000u64)) && (a == b) == (((
            a as u64) ^ 0x8000_0000_0000_0000u64) == ((b as u64) ^ 0x8000_0000_0000_0000u64)))
                by (bit_vector);
        }
        TypeMapping::DateTime(u) => {
            if u is Millis {
                let a: i64 = (x->TimestampMillis_0 * 1000) as i64;
                let b: i64 = (y->TimestampMillis_0 * 1000) as i64;
                assert(a == x->TimestampMillis_0 * 1000 && b == y->TimestampMillis_0 * 1000);
                assert((x->TimestampMillis_0 * 1000) as u64 == a as u64 && (y->TimestampMillis_0
                    * 1000) as u64 == b as u64);
                assert((a < b) == (((a as u64) ^ 0x8000_0000_0000_0000u64) < ((
                b as u64) ^ 0x8000_0000_0000_0000u64)) && (a == b) == (((
                a as u64) ^ 0x8000_0000_0000_0000u64) == ((b as u64) ^ 0x8000_0000_0000_0000u64)))
                    by (bit_vector);
            } else {
                let a = x->TimestampMicros_0;
                let b = y->TimestampMicros_0;
                assert((a < b) == (((a as u64) ^ 0x8000_0000_0000_0000u64) < ((
                b as u64) ^ 0x8000_0000_0000_0000u64)) && (a == b) == (((
                a as u64) ^ 0x8000_0000_0000_0000u64) == ((b as u64) ^ 0x8000_0000_0000_0000u64)))
                    by (bit_vector);
            }
        }
        _ => {}
    }
}

/// Key bytes of scalars of one leaf type (byte arrays excluded) mirror
/// the realized scalar order: equivalent scalars encode identically,
/// and a smaller scalar's encoding diverges below the greater one's,
/// with the direction flipped under descending order.
proof fn lemma_scalar_bytes_order(m: TypeMapping, x: ValueModel, y: ValueModel, descending: bool)
    requires
        scalar_fits(m, x),
        scalar_fits(m, y),
        !(m is ByteArray),
    ensures
        scalar_eqv(m, x, y) ==> scalar_bytes(m, x, descending) == scalar_bytes(m, y, descending),
        scalar_lt(m, x, y) && !descending ==> diverges_lt(
            scalar_bytes(m, x, descending),
            scalar_bytes(m, y, descending),
        ),
        scalar_lt(m, x, y) && descending ==> diverges_lt(
            scalar_bytes(m, y, descending),
            scalar_bytes(m, x, descending),
        ),
        scalar_lt(m, x, y) || scalar_eqv(m, x, y) || scalar_lt(m, y, x),
        scalar_lt(m, x, y) ==> !scalar_eqv(m, x, y) && !scalar_lt(m, y, x),
{
    if m is Bool {
        if scalar_lt(m, x, y) {
            if descending {
                assert(diverges_at(
                    scalar_bytes(m, y, descending),
                    scalar_bytes(m, x, descending),
                    0,
                ));
            } else {
                assert(diverges_at(
                    scalar_bytes(m, x, descending),
                    scalar_bytes(m, y, descending),
                    0,
                ));
            }
        }
    } else if narrow_kind(m) {
        let nx = scalar_num32(m, x);
        let ny = scalar_num32(m, y);
        lemma_num32_semantics(m, x, y);
        lemma_be4_order(nx, ny);
        lemma_be4_order(ny, nx);
        if nx < ny {
            let i = choose|i: int| diverges_at(be4(nx), be4(ny), i);
            if descending {
                lemma_comp_diverge(be4(nx), be4(ny), i);
            }
        } else if ny < nx {
            let i = choose|i: int| diverges_at(be4(ny), be4(nx), i);
            if descending {
                lemma_comp_diverge(be4(ny), be4(nx), i);
            }
        }
    } else if wide_kind(m) {
        let nx = scalar_num64(m, x);
        let ny = scalar_num64(m, y);
        lemma_num64_semantics(m, x, y);
        lemma_be8_order(nx, ny);
        lemma_be8_order(ny, nx);
        if nx < ny {
            let i = choose|i: int| diverges_at(be8(nx), be8(ny), i);
            if descending {
                lemma_comp_diverge(be8(nx), be8(ny), i);
            }
        } else if ny < nx {
            let i = choose|i: int| diverges_at(be8(ny), be8(nx), i);
            if descending {
                lemma_comp_diverge(be8(ny), be8(nx), i);
            }
        }
    } else if m is String {
        let bx = x->Str_0;
        let by = y->Str_0;
        lemma_lex_trichotomy(bx, by);
        if lex_lt(bx, by) {
            lemma_string_segment_diverge(bx, by, descending);
        } else if lex_lt(by, bx) {
            lemma_string_segment_diverge(by, bx, descending);
        }
    } else {
        let bx = x->Fixed_0;
        let by = y->Fixed_0;
        lemma_lex_trichotomy(bx, by);
        if lex_lt(bx, by) {
            lemma_fixed_segment_diverge(bx, by, descending);
        } else if lex_lt(by, bx) {
            lemma_fixed_segment_diverge(by, bx, descending);
        }
        if scalar_eqv(m, x, y) {
            assert(scalar_bytes(m, x, descending) =~= scalar_bytes(m, y, descending));
        }
    }
}

/// A lexicographically smaller NUL-free string's terminated key
/// segment diverges below the greater one's; descending flips it.
proof fn lemma_string_segment_diverge(bx: Seq<u8>, by: Seq<u8>, descending: bool)
    requires
        lex_lt(bx, by),
        crate::value::no_nul(bx),
        crate::value::no_nul(by),
    ensures
        !descending ==> diverges_lt(bx + seq![term_byte(false)], by + seq![term_byte(false)]),
        descending ==> diverges_lt(
            comp_bytes(by) + seq![term_byte(true)],
            comp_bytes(bx) + seq![term_byte(true)],
        ),
{
    lemma_lex_cases(bx, by);
    if diverges_lt(bx, by) {
        let i = choose|i: int| diverges_at(bx, by, i);
        if descending {
            lemma_comp_diverge(bx, by, i);
            assert(diverges_at(
                comp_bytes(by) + seq![term_byte(true)],
                comp_bytes(bx) + seq![term_byte(true)],
                i,
            )) by {
                assert(forall|j: int|
                    0 <= j <= i ==> (comp_bytes(by) + seq![term_byte(true)])[j] == comp_bytes(by)[j]
                        && (comp_bytes(bx) + seq![term_byte(true)])[j] == comp_bytes(bx)[j]);
            }
        } else {
            assert(diverges_at(bx + seq![term_byte(false)], by + seq![term_byte(false)], i)) by {
                assert(forall|j: int|
                    0 <= j <= i ==> (bx + seq![term_byte(false)])[j] == bx[j] && (by + seq![
                        term_byte(false),
                    ])[j] == by[j]);
            }
        }
    } else {
        let n = bx.len() as int;
        assert(by[n] != 0);
        if descending {
            assert(diverges_at(
                comp_bytes(by) + seq![term_byte(true)],
                comp_bytes(bx) + seq![term_byte(true)],
                n,
            )) by {
                assert((comp_bytes(by) + seq![term_byte(true)])[n] == comp_byte(by[n]));
                assert((comp_bytes(bx) + seq![term_byte(true)])[n] == term_byte(true));
                assert(comp_byte(by[n]) < 255);
                assert(forall|j: int|
                    0 <= j < n ==> (comp_bytes(by) + seq![term_byte(true)])[j] == comp_byte(by[j])
                        && (comp_bytes(bx) + seq![term_byte(true)])[j] == comp_byte(bx[j]));
            }
        } else {
            assert(diverges_at(bx + seq![term_byte(false)], by + seq![term_byte(false)], n)) by {
                assert((bx + seq![term_byte(false)])[n] == term_byte(false));
                assert((by + seq![term_byte(false)])[n] == by[n]);
                assert(forall|j: int|
                    0 <= j < n ==> (bx + seq![term_byte(false)])[j] == bx[j] && (by + seq![
                        term_byte(false),
                    ])[j] == by[j]);
            }
        }
    }
}

/// A lexicographically smaller fixed-length segment of the same length
/// diverges below the greater one; descending flips it.
proof fn lemma_fixed_segment_diverge(bx: Seq<u8>, by: Seq<u8>, descending: bool)
    requires
        lex_lt(bx, by),
        bx.len() == by.len(),
    ensures
        !descending ==> diverges_lt(bx, by),
        descending ==> diverges_lt(comp_bytes(by), comp_bytes(bx)),
{
    lemma_lex_cases(bx, by);
    let i = choose|i: int| diverges_at(bx, by, i);
    if descending {
        lemma_comp_diverge(bx, by, i);
    }
}


/// The realized order of one column's extracted scalars: an absent
/// value ranks per the null placement (independent of direction), and
/// two present scalars rank by the scalar order, flipped when
/// descending.
pub open spec fn opt_col_lt(
    m: TypeMapping,
    sel: Sort<usize>,
    o1: Option<ValueModel>,
    o2: Option<ValueModel>,
) -> bool {
    match (o1, o2) {
        (Option::None, Option::None) => false,
        (Option::None, Option::Some(_)) => sel.nulls_first,
        (Option::Some(_), Option::None) => !sel.nulls_first,
        (Option::Some(x), Option::Some(y)) => if sel.descending {
            scalar_lt(m, y, x)
        } else {
            scalar_lt(m, x, y)
        },
    }
}

/// Whether one column's extracted scalars carry the same key content.
pub open spec fn opt_col_eqv(m: TypeMapping, o1: Option<ValueModel>, o2: Option<ValueModel>)
    -> bool {
    match (o1, o2) {
        (Option::None, Option::None) => true,
        (Option::Some(x), Option::Some(y)) => scalar_eqv(m, x, y),
        _ => false,
    }
}

/// A divergence shifted right by one equal leading byte.
proof fn lemma_diverge_cons(p: u8, a: Seq<u8>, b: Seq<u8>, i: int)
    requires
        diverges_at(a, b, i),
    ensures
        diverges_at(seq![p] + a, seq![p] + b, i + 1),
{
    assert((seq![p] + a)[i + 1] == a[i] && (seq![p] + b)[i + 1] == b[i]);
    assert forall|j: int| 0 <= j < i + 1 implies (seq![p] + a)[j] == (seq![p] + b)[j] by {
        if j >= 1 {
            assert((seq![p] + a)[j] == a[j - 1] && (seq![p] + b)[j] == b[j - 1]);
        }
    }
}

/// One column's key bytes mirror the realized column order: equivalent
/// extractions encode identically, and a smaller extraction's bytes
/// diverge below the greater one's. Null placement decides between an
/// absent and a present value whatever the direction.
pub proof fn lemma_column_key_order(
    meta: ColumnMeta,
    sel: Sort<usize>,
    o1: Option<ValueModel>,
    o2: Option<ValueModel>,
)
    requires
        !(meta.mapping is ByteArray),
        o1 matches Option::Some(x) ==> scalar_fits(meta.mapping, x),
        o2 matches Option::Some(y) ==> scalar_fits(meta.mapping, y),
        meta.max_def == 0 ==> o1 is Some && o2 is Some,
    ensures
        opt_col_eqv(meta.mapping, o1, o2) ==> column_key_bytes(meta, sel, o1) == column_key_bytes(
            meta,
            sel,
            o2,
        ),
        opt_col_lt(meta.mapping, sel, o1, o2) ==> diverges_lt(
            column_key_bytes(meta, sel, o1),
            column_key_bytes(meta, sel, o2),
        ),
        opt_col_lt(meta.mapping, sel, o1, o2) || opt_col_eqv(meta.mapping, o1, o2) || opt_col_lt(
            meta.mapping,
            sel,
            o2,
            o1,
        ),
        opt_col_lt(meta.mapping, sel, o1, o2) ==> !opt_col_eqv(meta.mapping, o1, o2)
            && !opt_col_lt(meta.mapping, sel, o2, o1),
{
    let m = meta.mapping;
    match (o1, o2) {
        (Option::None, Option::None) => {}
        (Option::None, Option::Some(y)) => {
            if sel.nulls_first {
                assert(diverges_at(
                    column_key_bytes(meta, sel, o1),
                    column_key_bytes(meta, sel, o2),
                    0,
                ));
            } else {
                assert(diverges_at(
                    column_key_bytes(meta, sel, o2),
                    column_key_bytes(meta, sel, o1),
                    0,
                ));
            }
        }
        (Option::Some(x), Option::None) => {
            if sel.nulls_first {
                assert(diverges_at(
                    column_key_bytes(meta, sel, o2),
                    column_key_bytes(meta, sel, o1),
                    0,
                ));
            } else {
                assert(diverges_at(
                    column_key_bytes(meta, sel, o1),
                    column_key_bytes(meta, sel, o2),
                    0,
                ));
            }
        }
        (Option::Some(x), Option::Some(y)) => {
            lemma_scalar_bytes_order(m, x, y, sel.descending);
            lemma_scalar_bytes_order(m, y, x, sel.descending);
            let sx = scalar_bytes(m, x, sel.descending);
            let sy = scalar_bytes(m, y, sel.descending);
            if scalar_eqv(m, x, y) {
                assert(column_key_bytes(meta, sel, o1) =~= column_key_bytes(meta, sel, o2));
            }
            let p = presence_byte(sel.nulls_first, true);
            if opt_col_lt(m, sel, o1, o2) {
                assert(diverges_lt(sx, sy));
                if meta.max_def > 0 {
                    let i = choose|i: int| diverges_at(sx, sy, i);
                    lemma_diverge_cons(p, sx, sy, i);
                    assert(diverges_at(
                        column_key_bytes(meta, sel, o1),
                        column_key_bytes(meta, sel, o2),
                        i + 1,
                    ));
                }
            }
        }
    }
}

/// Every leaf under a field sits at least as deep as the field itself,
/// in both definition and repetition depth.
pub proof fn lemma_leaf_bounds(f: Field, dd: int, rr: int, cs: int)
    requires
        crate::schema::wf_field(f, dd, rr, cs),
    ensures
        forall|j: int|
            0 <= j < crate::schema::leaf_metas(f).len() ==> (#[trigger] crate::schema::leaf_metas(
                f,
            )[j]).max_def >= f.def_depth && crate::schema::leaf_metas(f)[j].max_rep
                >= f.rep_depth,
    decreases f,
{
    match f.kind {
        FieldKind::Leaf(_) => {}
        FieldKind::Group(children) => {
            lemma_leaf_bounds_seq(
                children@,
                f.def_depth as int,
                f.rep_depth as int,
                cs,
                f.col_end as int,
            );
        }
        FieldKind::List(elem) => {
            lemma_leaf_bounds(*elem, f.def_depth as int, f.rep_depth as int, cs);
        }
    }
}

/// Every leaf under a run of fields sits at least as deep as the run's
/// own context.
proof fn lemma_leaf_bounds_seq(s: Seq<Field>, dd: int, rr: int, cs: int, ce: int)
    requires
        crate::schema::wf_fields(s, dd, rr, cs, ce),
    ensures
        forall|j: int|
            0 <= j < crate::schema::leaf_metas_seq(s).len() ==> (
            #[trigger] crate::schema::leaf_metas_seq(s)[j]).max_def >= dd
                && crate::schema::leaf_metas_seq(s)[j].max_rep >= rr,
    decreases s,
{
    if s.len() > 0 {
        lemma_leaf_bounds(s[0], dd, rr, cs);
        lemma_leaf_bounds_seq(s.drop_first(), dd, rr, s[0].col_end as int, ce);
        lemma_leaf_metas_len(s[0], dd, rr, cs);
        assert forall|j: int| 0 <= j < crate::schema::leaf_metas_seq(s).len() implies (
        #[trigger] crate::schema::leaf_metas_seq(s)[j]).max_def >= dd
            && crate::schema::leaf_metas_seq(s)[j].max_rep >= rr by {
            let w = crate::schema::leaf_metas(s[0]).len();
            if j < w {
                assert(crate::schema::leaf_metas_seq(s)[j] == crate::schema::leaf_metas(s[0])[j]);
                assert(crate::schema::leaf_metas(s[0])[j].max_def >= s[0].def_depth);
            } else {
                assert(crate::schema::leaf_metas_seq(s)[j] == crate::schema::leaf_metas_seq(
                    s.drop_first(),
                )[j - w]);
            }
        }
    }
}

/// A column with no optional ancestor and no enclosing list always
/// extracts a present scalar from a valid run of values: extraction
/// yields nothing only past an optional or repeated level.
pub proof fn lemma_extract_children_required(
    fs: Seq<Field>,
    vs: Seq<ValueModel>,
    dd: int,
    rr: int,
    cs: int,
    ce: int,
    ord: int,
)
    requires
        crate::schema::wf_fields(fs, dd, rr, cs, ce),
        valid_children(fs, vs),
        vs.len() == fs.len(),
        cs <= ord < ce,
        crate::schema::leaf_metas_seq(fs)[ord - cs].max_rep == rr,
        extract_children(fs, vs, ord) is None,
    ensures
        crate::schema::leaf_metas_seq(fs)[ord - cs].max_def > dd,
    decreases vs,
{
    if fs.len() > 0 && vs.len() > 0 {
        lemma_leaf_metas_len(fs[0], dd, rr, cs);
        lemma_leaf_metas_seq_index_concat_pub(fs, dd, rr, cs, ce, ord);
        if ord < fs[0].col_end {
            lemma_extract_field_required(fs[0], vs[0], dd, rr, cs, ord);
        } else {
            lemma_extract_children_required(
                fs.drop_first(),
                vs.drop_first(),
                dd,
                rr,
                fs[0].col_end as int,
                ce,
                ord,
            );
        }
    }
}

/// The leaf metadata at an ordinal under a run of fields is the one
/// recorded by the child that owns the ordinal.
proof fn lemma_leaf_metas_seq_index_concat_pub(
    fs: Seq<Field>,
    dd: int,
    rr: int,
    cs: int,
    ce: int,
    ord: int,
)
    requires
        crate::schema::wf_fields(fs, dd, rr, cs, ce),
        fs.len() > 0,
        cs <= ord < ce,
    ensures
        crate::schema::leaf_metas_seq(fs)[ord - cs] == if ord < fs[0].col_end {
            crate::schema::leaf_metas(fs[0])[ord - cs]
        } else {
            crate::schema::leaf_metas_seq(fs.drop_first())[ord - fs[0].col_end]
        },
{
    lemma_leaf_metas_len(fs[0], dd, rr, cs);
    lemma_leaf_metas_seq_len(fs.drop_first(), dd, rr, fs[0].col_end as int, ce);
}

/// A column with no optional ancestor and no enclosing list below a
/// field always extracts a present scalar from a valid value.
proof fn lemma_extract_field_required(f: Field, v: ValueModel, dd: int, rr: int, cs: int, ord: int)
    requires
        crate::schema::wf_field(f, dd, rr, cs),
        valid_value(f, v),
        cs <= ord < f.col_end,
        crate::schema::leaf_metas(f)[ord - cs].max_rep == rr,
        extract_field(f, v, ord) is None,
    ensures
        crate::schema::leaf_metas(f)[ord - cs].max_def > dd,
    decreases v,
{
    lemma_leaf_metas_len(f, dd, rr, cs);
    lemma_leaf_bounds(f, dd, rr, cs);
    if v is Null {
        assert(f.optional);
        assert(crate::schema::leaf_metas(f)[ord - cs].max_def >= f.def_depth);
    } else {
        match f.kind {
            FieldKind::Leaf(_) => {}
            FieldKind::Group(children) => {
                lemma_extract_children_required(
                    children@,
                    v->Group_0,
                    f.def_depth as int,
                    f.rep_depth as int,
                    cs,
                    f.col_end as int,
                    ord,
                );
            }
            FieldKind::List(elem) => {
                assert(crate::schema::leaf_metas(f)[ord - cs].max_rep >= f.rep_depth);
                assert(f.rep_depth == rr + 1);
                assert(false);
            }
        }
    }
}

/// Whether every selector of a descriptor names an in-range,
/// non-repeated column that is not an undelimited byte array.
pub open spec fn selectors_ok(s: Schema, sels: Seq<Sort<usize>>) -> bool {
    forall|i: int|
        0 <= i < sels.len() ==> (#[trigger] sels[i]).column < s.columns@.len() && !(s.columns@[
            sels[i].column as int].mapping is ByteArray) && s.columns@[sels[i].column as int].max_rep
            == 0
}

/// The realized order of two rows under a descriptor: the first
/// selector whose extracted scalars differ decides.
pub open spec fn row_lt(s: Schema, sels: Seq<Sort<usize>>, r1: ValueModel, r2: ValueModel) -> bool
    decreases sels.len(),
{
    if sels.len() == 0 {
        false
    } else {
        let m = s.columns@[sels[0].column as int].mapping;
        let o1 = extract_row(s, r1, sels[0].column as int);
        let o2 = extract_row(s, r2, sels[0].column as int);
        opt_col_lt(m, sels[0], o1, o2) || (opt_col_eqv(m, o1, o2) && row_lt(
            s,
            sels.drop_first(),
            r1,
            r2,
        ))
    }
}

/// Whether two rows carry the same key content under a descriptor.
pub open spec fn row_eqv(s: Schema, sels: Seq<Sort<usize>>, r1: ValueModel, r2: ValueModel) -> bool
    decreases sels.len(),
{
    if sels.len() == 0 {
        true
    } else {
        let m = s.columns@[sels[0].column as int].mapping;
        let o1 = extract_row(s, r1, sels[0].column as int);
        let o2 = extract_row(s, r2, sels[0].column as int);
        opt_col_eqv(m, o1, o2) && row_eqv(s, sels.drop_first(), r1, r2)
    }
}

/// Sort-key monotonicity: under any descriptor of in-range,
/// non-repeated, non-byte-array columns, the unsigned lexicographic
/// order of two valid rows' key bytes is exactly the configured
/// multi-column order of the rows, and the key bytes agree exactly
/// when every selected column's content does. Integers, dates, and
/// timestamps order by signed value (timestamps normalized to
/// microseconds), booleans false before true, strings and fixed-width
/// bytes lexicographically, and floats by the standard total order on
/// their bit patterns.
pub proof fn lemma_sort_key_monotone(
    s: Schema,
    sels: Seq<Sort<usize>>,
    r1: ValueModel,
    r2: ValueModel,
)
    requires
        crate::schema::wf_schema(s),
        valid_row(s, r1),
        valid_row(s, r2),
        selectors_ok(s, sels),
    ensures
        lex_lt(row_key_bytes(s, sels, r1), row_key_bytes(s, sels, r2)) == row_lt(s, sels, r1, r2),
        (row_key_bytes(s, sels, r1) == row_key_bytes(s, sels, r2)) == row_eqv(s, sels, r1, r2),
    decreases sels.len(),
{
    if sels.len() == 0 {
    } else {
        let sel = sels[0];
        let ord = sel.column as int;
        let meta = s.columns@[ord];
        let o1 = extract_row(s, r1, ord);
        let o2 = extract_row(s, r2, ord);
        let cb1 = column_key_bytes(meta, sel, o1);
        let cb2 = column_key_bytes(meta, sel, o2);
        let rest1 = row_key_bytes(s, sels.drop_first(), r1);
        let rest2 = row_key_bytes(s, sels.drop_first(), r2);
        lemma_sort_key_monotone(s, sels.drop_first(), r1, r2);

        lemma_extract_children_fits(s.fields@, r1->Group_0, 0, 0, 0, s.columns@.len() as int, ord);
        lemma_extract_children_fits(s.fields@, r2->Group_0, 0, 0, 0, s.columns@.len() as int, ord);
        if meta.max_def == 0 {
            if o1 is None {
                lemma_extract_children_required(
                    s.fields@,
                    r1->Group_0,
                    0,
                    0,
                    0,
                    s.columns@.len() as int,
                    ord,
                );
            }
            if o2 is None {
                lemma_extract_children_required(
                    s.fields@,
                    r2->Group_0,
                    0,
                    0,
                    0,
                    s.columns@.len() as int,
                    ord,
                );
            }
        }
        lemma_column_key_order(meta, sel, o1, o2);
        lemma_column_key_order(meta, sel, o2, o1);

        if opt_col_lt(meta.mapping, sel, o1, o2) {
            let i = choose|i: int| diverges_at(cb1, cb2, i);
            lemma_lex_concat_diverge(cb1, cb2, rest1, rest2, i);
        } else if opt_col_eqv(meta.mapping, o1, o2) {
            lemma_lex_concat_eq(cb1, rest1, rest2);
            assert(cb1 + rest1 == cb2 + rest1);
            if cb1 + rest1 == cb2 + rest2 {
                assert(rest1 =~= (cb1 + rest1).skip(cb1.len() as int));
                assert(rest2 =~= (cb2 + rest2).skip(cb2.len() as int));
                assert(rest1 == rest2);
            }
            if rest1 == rest2 {
                assert(cb1 + rest1 =~= cb2 + rest2);
            }
        } else {
            let i = choose|i: int| diverges_at(cb2, cb1, i);
            lemma_lex_concat_diverge(cb2, cb1, rest2, rest1, i);
        }
    }
}

/// Null placement: under a `nullsFirst` selector an absent value's
/// column key ranks strictly below any present value's, and under
/// `nullsLast` strictly above, whatever the direction flag says.
pub proof fn lemma_null_placement(meta: ColumnMeta, sel: Sort<usize>, x: ValueModel)
    requires
        meta.max_def > 0,
    ensures
        sel.nulls_first ==> lex_lt(
            column_key_bytes(meta, sel, Option::None),
            column_key_bytes(meta, sel, Option::Some(x)),
        ),
        !sel.nulls_first ==> lex_lt(
            column_key_bytes(meta, sel, Option::Some(x)),
            column_key_bytes(meta, sel, Option::None),
        ),
{
    if sel.nulls_first {
        assert(diverges_at(
            column_key_bytes(meta, sel, Option::None),
            column_key_bytes(meta, sel, Option::Some(x)),
            0,
        ));
        lemma_diverge_lex(
            column_key_bytes(meta, sel, Option::None),
            column_key_bytes(meta, sel, Option::Some(x)),
        );
    } else {
        assert(diverges_at(
            column_key_bytes(meta, sel, Option::Some(x)),
            column_key_bytes(meta, sel, Option::None),
            0,
        ));
        lemma_diverge_lex(
            column_key_bytes(meta, sel, Option::Some(x)),
            column_key_bytes(meta, sel, Option::None),
        );
    }
}

/// String delimiting: the terminator ranks a NUL-free string strictly
/// before every proper extension of itself ascending, and strictly
/// after it descending, so string key segments order exactly as the
/// raw bytes do.
pub proof fn lemma_string_key_delimits(a: Seq<u8>, b: Seq<u8>, descending: bool)
    requires
        crate::value::no_nul(a),
        crate::value::no_nul(b),
        lex_lt(a, b),
    ensures
        !descending ==> lex_lt(
            scalar_bytes(TypeMapping::String, ValueModel::Str(a), false),
            scalar_bytes(TypeMapping::String, ValueModel::Str(b), false),
        ),
        descending ==> lex_lt(
            scalar_bytes(TypeMapping::String, ValueModel::Str(b), true),
            scalar_bytes(TypeMapping::String, ValueModel::Str(a), true),
        ),
{
    lemma_string_segment_diverge(a, b, descending);
    if descending {
        lemma_diverge_lex(
            comp_bytes(b) + seq![term_byte(true)],
            comp_bytes(a) + seq![term_byte(true)],
        );
    } else {
        lemma_diverge_lex(a + seq![term_byte(false)], b + seq![term_byte(false)]);
    }
}

} // verus!
