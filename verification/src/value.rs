use vstd::prelude::*;

use crate::error::ValueError;
use crate::schema::{Field, FieldKind, TypeMapping};

verus! {

/// Largest timestamp, in milliseconds, whose microsecond form still
/// fits a 64-bit signed integer; millisecond timestamps are normalized
/// to microseconds when sort keys are built.
pub const MAX_TIMESTAMP_MILLIS: i64 = 9_223_372_036_854_775;

/// A dynamically typed nested value. Scalar variants carry leaf values
/// (strings as their UTF-8 bytes, floats as their raw bit patterns so
/// that no float arithmetic is ever performed); `Group` carries one
/// value per child field, `List` one value per element, and `Null`
/// stands for an absent optional field.
#[derive(Debug, PartialEq, Eq)]
pub enum Value {
    Null,
    Bool(bool),
    I32(i32),
    I64(i64),
    U32(u32),
    U64(u64),
    Str(Vec<u8>),
    Bytes(Vec<u8>),
    Fixed(Vec<u8>),
    Date(i32),
    TimestampMillis(i64),
    TimestampMicros(i64),
    F32Bits(u32),
    F64Bits(u64),
    Group(Vec<Value>),
    List(Vec<Value>),
}

/// The mathematical model of a nested value: byte vectors become
/// sequences and nested vectors become sequences of models. Contracts
/// about values are stated over this type, so that two values count as
/// equal exactly when their contents are.
pub enum ValueModel {
    Null,
    Bool(bool),
    I32(i32),
    I64(i64),
    U32(u32),
    U64(u64),
    Str(Seq<u8>),
    Bytes(Seq<u8>),
    Fixed(Seq<u8>),
    Date(i32),
    TimestampMillis(i64),
    TimestampMicros(i64),
    F32Bits(u32),
    F64Bits(u64),
    Group(Seq<ValueModel>),
    List(Seq<ValueModel>),
}

/// The model of a value.
pub open spec fn vmodel(v: Value) -> ValueModel
    decreases v,
{
    match v {
        Value::Null => ValueModel::Null,
        Value::Bool(x) => ValueModel::Bool(x),
        Value::I32(x) => ValueModel::I32(x),
        Value::I64(x) => ValueModel::I64(x),
        Value::U32(x) => ValueModel::U32(x),
        Value::U64(x) => ValueModel::U64(x),
        Value::Str(b) => ValueModel::Str(b@),
        Value::Bytes(b) => ValueModel::Bytes(b@),
        Value::Fixed(b) => ValueModel::Fixed(b@),
        Value::Date(x) => ValueModel::Date(x),
        Value::TimestampMillis(x) => ValueModel::TimestampMillis(x),
        Value::TimestampMicros(x) => ValueModel::TimestampMicros(x),
        Value::F32Bits(x) => ValueModel::F32Bits(x),
        Value::F64Bits(x) => ValueModel::F64Bits(x),
        Value::Group(vs) => ValueModel::Group(vmodel_seq(vs@)),
        Value::List(vs) => ValueModel::List(vmodel_seq(vs@)),
    }
}

/// The models of a run of values, in order.
pub open spec fn vmodel_seq(s: Seq<Value>) -> Seq<ValueModel>
    decreases s,
{
    if s.len() == 0 {
        Seq::empty()
    } else {
        seq![vmodel(s[0])] + vmodel_seq(s.drop_first())
    }
}

impl View for Value {
    type V = ValueModel;

    open spec fn view(&self) -> ValueModel {
        vmodel(*self)
    }
}

/// The model of a run of values indexes to the model of each value.
pub broadcast proof fn lemma_vmodel_seq_index(s: Seq<Value>)
    ensures
        #[trigger] vmodel_seq(s).len() == s.len(),
        forall|i: int| 0 <= i < s.len() ==> vmodel_seq(s)[i] == vmodel(#[trigger] s[i]),
    decreases s,
{
    if s.len() > 0 {
        lemma_vmodel_seq_index(s.drop_first());
        assert forall|i: int| 0 <= i < s.len() implies vmodel_seq(s)[i] == vmodel(
            #[trigger] s[i],
        ) by {
            if i > 0 {
                assert(vmodel_seq(s.drop_first())[i - 1] == vmodel(s.drop_first()[i - 1]));
            }
        }
    }
}

/// Appending one value appends its model.
pub broadcast proof fn lemma_vmodel_seq_push(s: Seq<Value>, v: Value)
    ensures
        #[trigger] vmodel_seq(s.push(v)) == vmodel_seq(s).push(vmodel(v)),
    decreases s,
{
    if s.len() == 0 {
        assert(s.push(v).drop_first() =~= Seq::<Value>::empty());
        assert(s.push(v)[0] == v);
        assert(vmodel_seq(Seq::<Value>::empty()) =~= Seq::<ValueModel>::empty());
        assert(vmodel_seq(s.push(v)) =~= vmodel_seq(s).push(vmodel(v)));
    } else {
        lemma_vmodel_seq_push(s.drop_first(), v);
        assert(s.push(v)[0] == s[0]);
        assert(s.push(v).drop_first() =~= s.drop_first().push(v));
        assert(vmodel_seq(s.push(v)) =~= vmodel_seq(s).push(vmodel(v)));
    }
}

/// Whether a byte sequence is free of NUL bytes; required of string
/// values so that the sort-key terminator stays unambiguous.
pub open spec fn no_nul(s: Seq<u8>) -> bool {
    forall|i: int| 0 <= i < s.len() ==> s[i] != 0
}

/// Whether a scalar model carries the representation that a leaf type
/// expects.
pub open spec fn scalar_fits(m: TypeMapping, v: ValueModel) -> bool {
    match m {
        TypeMapping::Bool => v is Bool,
        TypeMapping::I32 => v is I32,
        TypeMapping::I64 => v is I64,
        TypeMapping::U32 => v is U32,
        TypeMapping::U64 => v is U64,
        TypeMapping::String => v matches ValueModel::Str(b) && no_nul(b),
        TypeMapping::Date => v is Date,
        TypeMapping::DateTime(u) => if u is Millis {
            v matches ValueModel::TimestampMillis(ms) && -MAX_TIMESTAMP_MILLIS <= ms
                <= MAX_TIMESTAMP_MILLIS
        } else {
            v is TimestampMicros
        },
        TypeMapping::F32 => v is F32Bits,
        TypeMapping::F64 => v is F64Bits,
        TypeMapping::ByteArray => v is Bytes,
        TypeMapping::FixedLengthByteArray(len) => v matches ValueModel::Fixed(b) && b.len() == len,
    }
}

/// Whether a value model matches an analyzed field: null only on
/// optional fields, scalars of the leaf's type, groups with one
/// matching value per child, and lists whose elements all match the
/// element field.
pub open spec fn valid_value(f: Field, v: ValueModel) -> bool
    decreases v,
{
    if v is Null {
        f.optional
    } else {
        match f.kind {
            FieldKind::Leaf(m) => scalar_fits(m, v),
            FieldKind::Group(children) => {
                &&& v matches ValueModel::Group(vs)
                &&& v->Group_0.len() == children@.len()
                &&& valid_children(children@, v->Group_0)
            },
            FieldKind::List(elem) => {
                &&& v matches ValueModel::List(vs)
                &&& valid_elements(*elem, v->List_0)
            },
        }
    }
}

/// Whether each value in a run matches the field beside it.
pub open spec fn valid_children(fs: Seq<Field>, vs: Seq<ValueModel>) -> bool
    decreases vs,
{
    if vs.len() == 0 {
        true
    } else if fs.len() == 0 {
        true
    } else {
        valid_value(fs[0], vs[0]) && valid_children(fs.drop_first(), vs.drop_first())
    }
}

/// Whether every element of a list matches the list's element field.
pub open spec fn valid_elements(elem: Field, vs: Seq<ValueModel>) -> bool
    decreases vs,
{
    if vs.len() == 0 {
        true
    } else {
        valid_value(elem, vs[0]) && valid_elements(elem, vs.drop_first())
    }
}

/// Whether a value is a well-formed top-level row of a schema: a group
/// value with one matching value per root field.
pub open spec fn valid_row(s: crate::schema::Schema, v: ValueModel) -> bool {
    &&& v matches ValueModel::Group(vs)
    &&& v->Group_0.len() == s.fields@.len()
    &&& valid_children(s.fields@, v->Group_0)
}

impl Value {
    /// Check whether this value matches an analyzed field.
    #[verifier::loop_isolation(false)]
    pub fn validate(&self, f: &Field) -> (b: bool)
        ensures
            b == valid_value(*f, self@),
        decreases *self,
    {
        match self {
            Value::Null => f.optional,
            _ => {
                match &f.kind {
                    FieldKind::Leaf(m) => self.scalar_check(m),
                    FieldKind::Group(children) => {
                        match self {
                            Value::Group(vs) => {
                                proof {
                                    lemma_vmodel_seq_index(vs@);
                                }
                                if vs.len() != children.len() {
                                    return false;
                                }
                                let mut i: usize = 0;
                                let mut ok = true;
                                while i < vs.len()
                                    invariant
                                        i <= vs@.len(),
                                        ok == valid_children_upto(
                                            children@,
                                            vmodel_seq(vs@),
                                            i as int,
                                        ),
                                    decreases vs@.len() - i,
                                {
                                    proof {
                                        assert(decreases_to!(*self => self->Group_0));
                                        assert(decreases_to!(
                                            self->Group_0 => self->Group_0[i as int]));
                                    }
                                    let c = vs[i].validate(&children[i]);
                                    ok = ok && c;
                                    i = i + 1;
                                }
                                proof {
                                    lemma_valid_children_upto(children@, vmodel_seq(vs@), i as int);
                                }
                                ok
                            }
                            _ => false,
                        }
                    }
                    FieldKind::List(elem) => {
                        match self {
                            Value::List(vs) => {
                                proof {
                                    lemma_vmodel_seq_index(vs@);
                                }
                                let mut i: usize = 0;
                                let mut ok = true;
                                while i < vs.len()
                                    invariant
                                        i <= vs@.len(),
                                        ok == valid_elements_upto(
                                            **elem,
                                            vmodel_seq(vs@),
                                            i as int,
                                        ),
                                    decreases vs@.len() - i,
                                {
                                    proof {
                                        assert(decreases_to!(*self => self->List_0));
                                        assert(decreases_to!(
                                            self->List_0 => self->List_0[i as int]));
                                    }
                                    let c = vs[i].validate(&**elem);
                                    ok = ok && c;
                                    i = i + 1;
                                }
                                proof {
                                    lemma_valid_elements_upto(**elem, vmodel_seq(vs@), i as int);
                                }
                                ok
                            }
                            _ => false,
                        }
                    }
                }
            }
        }
    }

    /// Check whether this value is a scalar of the given leaf type.
    #[verifier::loop_isolation(false)]
    fn scalar_check(&self, m: &TypeMapping) -> (b: bool)
        ensures
            !(*self is Null) ==> b == scalar_fits(*m, self@),
    {
        match (m, self) {
            (TypeMapping::Bool, Value::Bool(_)) => true,
            (TypeMapping::I32, Value::I32(_)) => true,
            (TypeMapping::I64, Value::I64(_)) => true,
            (TypeMapping::U32, Value::U32(_)) => true,
            (TypeMapping::U64, Value::U64(_)) => true,
            (TypeMapping::String, Value::Str(b)) => {
                let mut i: usize = 0;
                while i < b.len()
                    invariant
                        i <= b@.len(),
                        forall|j: int| 0 <= j < i ==> b@[j] != 0,
                    decreases b@.len() - i,
                {
                    if b[i] == 0 {
                        return false;
                    }
                    i = i + 1;
                }
                true
            }
            (TypeMapping::Date, Value::Date(_)) => true,
            (TypeMapping::DateTime(u), v) => {
                match (u, v) {
                    (crate::schema::DateTimeUnit::Millis, Value::TimestampMillis(ms)) => {
                        -MAX_TIMESTAMP_MILLIS <= *ms && *ms <= MAX_TIMESTAMP_MILLIS
                    }
                    (crate::schema::DateTimeUnit::Micros, Value::TimestampMicros(_)) => true,
                    _ => false,
                }
            }
            (TypeMapping::F32, Value::F32Bits(_)) => true,
            (TypeMapping::F64, Value::F64Bits(_)) => true,
            (TypeMapping::ByteArray, Value::Bytes(_)) => true,
            (TypeMapping::FixedLengthByteArray(len), Value::Fixed(b)) => b.len() == *len,
            _ => false,
        }
    }

    /// Copy a scalar value; groups, lists, and nulls are not scalars.
    pub fn clone_scalar(&self) -> (r: Value)
        requires
            !(*self is Null),
            !(*self is Group),
            !(*self is List),
        ensures
            r@ == self@,
    {
        match self {
            Value::Bool(x) => Value::Bool(*x),
            Value::I32(x) => Value::I32(*x),
            Value::I64(x) => Value::I64(*x),
            Value::U32(x) => Value::U32(*x),
            Value::U64(x) => Value::U64(*x),
            Value::Str(b) => Value::Str(clone_bytes(b)),
            Value::Bytes(b) => Value::Bytes(clone_bytes(b)),
            Value::Fixed(b) => Value::Fixed(clone_bytes(b)),
            Value::Date(x) => Value::Date(*x),
            Value::TimestampMillis(x) => Value::TimestampMillis(*x),
            Value::TimestampMicros(x) => Value::TimestampMicros(*x),
            Value::F32Bits(x) => Value::F32Bits(*x),
            Value::F64Bits(x) => Value::F64Bits(*x),
            Value::Null => Value::Null,
            Value::Group(_) => Value::Null,
            Value::List(_) => Value::Null,
        }
    }

    /// Build a string value from UTF-8 bytes, rejecting NUL bytes at
    /// construction time so they never reach the sort-key encoder.
    /// Fails with the index of the first NUL byte.
    pub fn string_value(bytes: Vec<u8>, column_path: Vec<String>) -> (r: Result<Value, ValueError>)
        ensures
            match r {
                Ok(v) => {
                    &&& no_nul(bytes@)
                    &&& v@ == ValueModel::Str(bytes@)
                },
                Err(e) => {
                    &&& !no_nul(bytes@)
                    &&& e matches ValueError::NullByteString { column_path: p, index } && p
                        == column_path && 0 <= index < bytes@.len() && bytes@[index as int] == 0
                        && forall|j: int| 0 <= j < index ==> bytes@[j] != 0
                },
            },
    {
        let mut i: usize = 0;
        while i < bytes.len()
            invariant
                i <= bytes@.len(),
                forall|j: int| 0 <= j < i ==> bytes@[j] != 0,
            decreases bytes@.len() - i,
        {
            if bytes[i] == 0 {
                return Err(ValueError::NullByteString { column_path, index: i });
            }
            i = i + 1;
        }
        Ok(Value::Str(bytes))
    }
}

/// Copy a byte vector element by element.
pub fn clone_bytes(b: &Vec<u8>) -> (r: Vec<u8>)
    ensures
        r@ == b@,
{
    let mut out: Vec<u8> = Vec::new();
    let mut i: usize = 0;
    while i < b.len()
        invariant
            i <= b@.len(),
            out@ == b@.take(i as int),
        decreases b@.len() - i,
    {
        out.push(b[i]);
        proof {
            assert(out@ =~= b@.take(i + 1));
        }
        i = i + 1;
    }
    proof {
        assert(out@ =~= b@);
    }
    out
}

/// Whether the first `n` values of a run match their fields.
pub open spec fn valid_children_upto(fs: Seq<Field>, vs: Seq<ValueModel>, n: int) -> bool {
    forall|i: int| 0 <= i < n ==> #[trigger] valid_value(fs[i], vs[i])
}

/// Whether the first `n` elements of a list match the element field.
pub open spec fn valid_elements_upto(elem: Field, vs: Seq<ValueModel>, n: int) -> bool {
    forall|i: int| 0 <= i < n ==> #[trigger] valid_value(elem, vs[i])
}

/// A run of values matches its fields exactly when each value matches
/// the field beside it.
pub proof fn lemma_valid_children_upto(fs: Seq<Field>, vs: Seq<ValueModel>, n: int)
    requires
        n == vs.len(),
        vs.len() == fs.len(),
    ensures
        valid_children(fs, vs) == valid_children_upto(fs, vs, n),
    decreases vs,
{
    if vs.len() > 0 {
        lemma_valid_children_upto(fs.drop_first(), vs.drop_first(), n - 1);
        if valid_children_upto(fs, vs, n) {
            assert(valid_value(fs[0], vs[0]));
            assert forall|i: int| 0 <= i < n - 1 implies #[trigger] valid_value(
                fs.drop_first()[i],
                vs.drop_first()[i],
            ) by {
                assert(valid_value(fs[i + 1], vs[i + 1]));
            }
            assert(valid_children(fs, vs));
        } else {
            if valid_children(fs, vs) {
                assert(valid_value(fs[0], vs[0]));
                assert(valid_children(fs.drop_first(), vs.drop_first()));
                assert forall|i: int| 0 <= i < n implies #[trigger] valid_value(fs[i], vs[i]) by {
                    if i > 0 {
                        assert(valid_value(fs.drop_first()[i - 1], vs.drop_first()[i - 1]));
                    }
                }
                assert(false);
            }
        }
    }
}

/// A list's elements all match the element field exactly when each one
/// does.
pub proof fn lemma_valid_elements_upto(elem: Field, vs: Seq<ValueModel>, n: int)
    requires
        n == vs.len(),
    ensures
        valid_elements(elem, vs) == valid_elements_upto(elem, vs, n),
    decreases vs,
{
    if vs.len() > 0 {
        lemma_valid_elements_upto(elem, vs.drop_first(), n - 1);
        if valid_elements_upto(elem, vs, n) {
            assert(valid_value(elem, vs[0]));
            assert forall|i: int| 0 <= i < n - 1 implies #[trigger] valid_value(
                elem,
                vs.drop_first()[i],
            ) by {
                assert(valid_value(elem, vs[i + 1]));
            }
            assert(valid_elements(elem, vs));
        } else {
            if valid_elements(elem, vs) {
                assert(valid_value(elem, vs[0]));
                assert forall|i: int| 0 <= i < n implies #[trigger] valid_value(elem, vs[i]) by {
                    if i > 0 {
                        assert(valid_value(elem, vs.drop_first()[i - 1]));
                    }
                }
                assert(false);
            }
        }
    }
}

} // verus!
