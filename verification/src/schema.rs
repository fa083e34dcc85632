use vstd::prelude::*;

use crate::error::SchemaShapeError;

verus! {

/// Unit of a timestamp column, as stored on disk.
#[derive(Clone, Copy, Debug, Eq, PartialEq, Structural)]
pub enum DateTimeUnit {
    Millis,
    Micros,
}

/// The supported leaf column types: a physical type together with its
/// logical refinement.
#[derive(Clone, Copy, Debug, Eq, PartialEq, Structural)]
pub enum TypeMapping {
    Bool,
    I32,
    I64,
    U32,
    U64,
    String,
    Date,
    DateTime(DateTimeUnit),
    F32,
    F64,
    ByteArray,
    FixedLengthByteArray(usize),
}

impl TypeMapping {
    /// True for leaf types whose values are held in fixed-size
    /// copyable form; false for strings, variable-length bytes, and
    /// dates.
    pub fn is_copy(&self) -> (r: bool)
        ensures
            r == !(self is String || self is ByteArray || self is Date),
    {
        !(matches!(self, TypeMapping::String | TypeMapping::ByteArray | TypeMapping::Date))
    }

    /// The name of the record-field variant that carries values of this
    /// leaf type in a decoded row.
    pub fn row_field_variant(&self) -> (r: &'static str)
        ensures
            self is Bool ==> r@ == "Bool"@,
            self is I32 ==> r@ == "Int"@,
            self is I64 ==> r@ == "Long"@,
            self is U32 ==> r@ == "UInt"@,
            self is U64 ==> r@ == "ULong"@,
            self is String ==> r@ == "Str"@,
            self is Date ==> r@ == "Date"@,
            self matches TypeMapping::DateTime(u) && u is Millis ==> r@ == "TimestampMillis"@,
            self matches TypeMapping::DateTime(u) && u is Micros ==> r@ == "TimestampMicros"@,
            self is F32 ==> r@ == "Float"@,
            self is F64 ==> r@ == "Double"@,
            self is ByteArray || self is FixedLengthByteArray ==> r@ == "Bytes"@,
    {
        match self {
            TypeMapping::Bool => "Bool",
            TypeMapping::I32 => "Int",
            TypeMapping::I64 => "Long",
            TypeMapping::U32 => "UInt",
            TypeMapping::U64 => "ULong",
            TypeMapping::String => "Str",
            TypeMapping::Date => "Date",
            TypeMapping::DateTime(DateTimeUnit::Millis) => "TimestampMillis",
            TypeMapping::DateTime(DateTimeUnit::Micros) => "TimestampMicros",
            TypeMapping::F32 => "Float",
            TypeMapping::F64 => "Double",
            TypeMapping::ByteArray => "Bytes",
            TypeMapping::FixedLengthByteArray(_) => "Bytes",
        }
    }
}

/// Repetition of a raw schema field.
#[derive(Clone, Copy, Debug, Eq, PartialEq, Structural)]
pub enum Repetition {
    Required,
    Optional,
    Repeated,
}

/// Physical type of a raw primitive field.
#[derive(Clone, Copy, Debug, Eq, PartialEq, Structural)]
pub enum RawPhysical {
    Boolean,
    Int32,
    Int64,
    Int96,
    Float,
    Double,
    ByteArray,
    FixedLenByteArray(usize),
}

/// Time unit of a raw timestamp annotation.
#[derive(Clone, Copy, Debug, Eq, PartialEq, Structural)]
pub enum RawTimeUnit {
    Millis,
    Micros,
    Nanos,
}

/// Logical annotation of a raw schema field.
#[derive(Clone, Copy, Debug, Eq, PartialEq, Structural)]
pub enum RawLogical {
    /// No annotation: the physical type stands alone.
    Plain,
    /// UTF-8 string.
    Str,
    /// Signed or unsigned integer of the given bit width.
    Integer { bit_width: u8, signed: bool },
    /// Days since the epoch.
    Date,
    /// Timestamp; only UTC-adjusted milli- and microsecond timestamps
    /// are supported.
    Timestamp { utc: bool, unit: RawTimeUnit },
    /// Logical list; must wrap the two-level repeated-element shape.
    List,
    /// Any other annotation; not supported.
    Other,
}

/// A raw schema field, as handed over by a textual schema parser.
pub struct RawField {
    pub name: String,
    pub repetition: Repetition,
    pub logical: RawLogical,
    pub kind: RawKind,
}

/// Body of a raw schema field.
pub enum RawKind {
    Primitive(RawPhysical),
    Group(Vec<RawField>),
}

impl TypeMapping {
    /// The leaf type that the given annotation and physical type map
    /// to, or nothing when the combination is unsupported.
    pub open spec fn from_types_spec(logical: RawLogical, physical: RawPhysical) -> Option<
        TypeMapping,
    > {
        match logical {
            RawLogical::Plain => match physical {
                RawPhysical::Boolean => Some(TypeMapping::Bool),
                RawPhysical::Int32 => Some(TypeMapping::I32),
                RawPhysical::Int64 => Some(TypeMapping::I64),
                RawPhysical::Int96 => None,
                RawPhysical::Float => Some(TypeMapping::F32),
                RawPhysical::Double => Some(TypeMapping::F64),
                RawPhysical::ByteArray => Some(TypeMapping::ByteArray),
                RawPhysical::FixedLenByteArray(len) => Some(
                    TypeMapping::FixedLengthByteArray(len),
                ),
            },
            RawLogical::Str => Some(TypeMapping::String),
            RawLogical::Integer { bit_width: 32, signed: false } => Some(TypeMapping::U32),
            RawLogical::Integer { bit_width: 64, signed: false } => Some(TypeMapping::U64),
            RawLogical::Integer { bit_width: 32, signed: true } => Some(TypeMapping::I32),
            RawLogical::Integer { bit_width: 64, signed: true } => Some(TypeMapping::I64),
            RawLogical::Integer { .. } => None,
            RawLogical::Date => Some(TypeMapping::Date),
            RawLogical::Timestamp { utc: true, unit: RawTimeUnit::Millis } => Some(
                TypeMapping::DateTime(DateTimeUnit::Millis),
            ),
            RawLogical::Timestamp { utc: true, unit: RawTimeUnit::Micros } => Some(
                TypeMapping::DateTime(DateTimeUnit::Micros),
            ),
            RawLogical::Timestamp { .. } => None,
            RawLogical::List => None,
            RawLogical::Other => None,
        }
    }

    /// Map an annotation and a physical type to a supported leaf type.
    pub fn from_types(logical: RawLogical, physical: RawPhysical) -> (r: Option<TypeMapping>)
        ensures
            r == Self::from_types_spec(logical, physical),
    {
        match logical {
            RawLogical::Plain => match physical {
                RawPhysical::Boolean => Some(TypeMapping::Bool),
                RawPhysical::Int32 => Some(TypeMapping::I32),
                RawPhysical::Int64 => Some(TypeMapping::I64),
                RawPhysical::Int96 => None,
                RawPhysical::Float => Some(TypeMapping::F32),
                RawPhysical::Double => Some(TypeMapping::F64),
                RawPhysical::ByteArray => Some(TypeMapping::ByteArray),
                RawPhysical::FixedLenByteArray(len) => Some(
                    TypeMapping::FixedLengthByteArray(len),
                ),
            },
            RawLogical::Str => Some(TypeMapping::String),
            RawLogical::Integer { bit_width: 32, signed: false } => Some(TypeMapping::U32),
            RawLogical::Integer { bit_width: 64, signed: false } => Some(TypeMapping::U64),
            RawLogical::Integer { bit_width: 32, signed: true } => Some(TypeMapping::I32),
            RawLogical::Integer { bit_width: 64, signed: true } => Some(TypeMapping::I64),
            RawLogical::Integer { .. } => None,
            RawLogical::Date => Some(TypeMapping::Date),
            RawLogical::Timestamp { utc: true, unit: RawTimeUnit::Millis } => Some(
                TypeMapping::DateTime(DateTimeUnit::Millis),
            ),
            RawLogical::Timestamp { utc: true, unit: RawTimeUnit::Micros } => Some(
                TypeMapping::DateTime(DateTimeUnit::Micros),
            ),
            RawLogical::Timestamp { .. } => None,
            RawLogical::List => None,
            RawLogical::Other => None,
        }
    }
}

/// Per-leaf-column metadata: the leaf's own name, its maximum
/// definition and repetition levels, and its leaf type. Columns are
/// addressed by their ordinal: the position in the schema's column
/// list, assigned in pre-order over leaves.
pub struct ColumnMeta {
    pub name: String,
    pub max_def: u16,
    pub max_rep: u16,
    pub mapping: TypeMapping,
}

/// An analyzed schema field. `def_depth` counts the optional ancestors
/// (this field included) plus one per enclosing list (this field
/// included when it is a list); `rep_depth` counts the enclosing lists
/// the same way. `col_start .. col_end` is the contiguous range of leaf
/// column ordinals this field owns.
pub struct Field {
    pub name: String,
    pub optional: bool,
    pub def_depth: u16,
    pub rep_depth: u16,
    pub col_start: usize,
    pub col_end: usize,
    pub kind: FieldKind,
}

/// Body of an analyzed field.
pub enum FieldKind {
    Leaf(TypeMapping),
    Group(Vec<Field>),
    List(Box<Field>),
}

/// An analyzed schema: the root group's name and fields, plus the flat
/// list of leaf column metadata in ordinal order.
pub struct Schema {
    pub name: String,
    pub fields: Vec<Field>,
    pub columns: Vec<ColumnMeta>,
}

/// Identifies one leaf column by ordinal and dotted path.
pub struct ColumnInfo {
    pub index: usize,
    pub path: &'static [&'static str],
}

/// Deepest schema nesting the analyzer accepts: it bounds the
/// definition levels, keeps them representable in on-disk level
/// encodings, and keeps the recursive traversals within stack limits.
pub const MAX_SCHEMA_DEPTH: u16 = 500;

/// Well-formedness of an analyzed field placed at definition depth
/// `dd`, repetition depth `rr`, and first column ordinal `cs`: the
/// stored depths and the column range are consistent with the field's
/// position, groups are non-empty with children side by side, and a
/// list's element sits directly under the list's own depths.
pub open spec fn wf_field(f: Field, dd: int, rr: int, cs: int) -> bool
    decreases f,
{
    &&& f.def_depth == dd + (if f.optional {
        1int
    } else {
        0int
    }) + (if f.kind is List {
        1int
    } else {
        0int
    })
    &&& f.rep_depth == rr + (if f.kind is List {
        1int
    } else {
        0int
    })
    &&& f.col_start == cs
    &&& rr <= dd
    &&& match f.kind {
        FieldKind::Leaf(_) => f.col_end == cs + 1,
        FieldKind::Group(children) => {
            &&& children.len() > 0
            &&& wf_fields(children@, f.def_depth as int, f.rep_depth as int, cs, f.col_end as int)
        },
        FieldKind::List(elem) => {
            &&& wf_field(*elem, f.def_depth as int, f.rep_depth as int, cs)
            &&& f.col_end == elem.col_end
        },
    }
}

/// Well-formedness of a run of sibling fields covering the column
/// ordinals `cs .. ce`.
pub open spec fn wf_fields(s: Seq<Field>, dd: int, rr: int, cs: int, ce: int) -> bool
    decreases s,
{
    if s.len() == 0 {
        ce == cs
    } else {
        &&& wf_field(s[0], dd, rr, cs)
        &&& wf_fields(s.drop_first(), dd, rr, s[0].col_end as int, ce)
    }
}

/// The leaf column metadata owned by a field, in ordinal order.
pub open spec fn leaf_metas(f: Field) -> Seq<ColumnMeta>
    decreases f,
{
    match f.kind {
        FieldKind::Leaf(m) => seq![
            ColumnMeta {
                name: f.name,
                max_def: f.def_depth,
                max_rep: f.rep_depth,
                mapping: m,
            },
        ],
        FieldKind::Group(children) => leaf_metas_seq(children@),
        FieldKind::List(elem) => leaf_metas(*elem),
    }
}

/// The leaf column metadata owned by a run of sibling fields.
pub open spec fn leaf_metas_seq(s: Seq<Field>) -> Seq<ColumnMeta>
    decreases s,
{
    if s.len() == 0 {
        Seq::empty()
    } else {
        leaf_metas(s[0]) + leaf_metas_seq(s.drop_first())
    }
}

/// Well-formedness of an analyzed schema: the root fields sit side by
/// side starting at column ordinal zero and at depth zero, and the
/// column list is exactly the leaf metadata they own.
pub open spec fn wf_schema(s: Schema) -> bool {
    &&& s.fields@.len() > 0
    &&& wf_fields(s.fields@, 0, 0, 0, s.columns@.len() as int)
    &&& s.columns@ == leaf_metas_seq(s.fields@)
}

/// Whether a raw group field has the supported logical-list shape: a
/// list annotation wrapping exactly one repeated group named "list"
/// that holds exactly one field named "element".
pub open spec fn list_shaped(r: RawField) -> bool {
    &&& r.logical is List
    &&& r.kind matches RawKind::Group(children)
    &&& r.kind->Group_0@.len() == 1
    &&& r.kind->Group_0@[0].kind is Group
    &&& r.kind->Group_0@[0].name@ == "list"@
    &&& r.kind->Group_0@[0].repetition is Repeated
    &&& r.kind->Group_0@[0].kind->Group_0@.len() == 1
    &&& r.kind->Group_0@[0].kind->Group_0@[0].name@ == "element"@
}

/// The element field of a list-shaped raw field.
pub open spec fn list_element(r: RawField) -> RawField {
    r.kind->Group_0@[0].kind->Group_0@[0]
}

/// Whether the analyzer accepts a raw field placed at definition depth
/// `dd`: repeated fields appear only as the inner group of the
/// two-level list shape, list annotations only on that shape, groups
/// are non-empty, every leaf's types are supported, and the nesting
/// stays within the depth limit.
pub open spec fn shape_ok(r: RawField, dd: int) -> bool
    decreases r,
{
    if list_shaped(r) {
        &&& dd + (if r.repetition is Optional {
            1int
        } else {
            0int
        }) + 1 <= MAX_SCHEMA_DEPTH
        &&& !(r.repetition is Repeated)
        &&& shape_ok(
            list_element(r),
            dd + (if r.repetition is Optional {
                1int
            } else {
                0int
            }) + 1,
        )
    } else {
        &&& !(r.repetition is Repeated)
        &&& !(r.logical is List)
        &&& dd + (if r.repetition is Optional {
            1int
        } else {
            0int
        }) <= MAX_SCHEMA_DEPTH
        &&& match r.kind {
            RawKind::Primitive(p) => TypeMapping::from_types_spec(r.logical, p) is Some,
            RawKind::Group(children) => {
                &&& children@.len() > 0
                &&& forall|i: int|
                    0 <= i < children@.len() ==> shape_ok(
                        #[trigger] children@[i],
                        dd + (if r.repetition is Optional {
                            1int
                        } else {
                            0int
                        }),
                    )
            },
        }
    }
}

/// Whether an analyzed field faithfully stands for a raw field: same
/// name and optionality, leaves mapped from the raw types, groups
/// child by child, and lists collapsed to their element.
pub open spec fn models_field(f: Field, r: RawField) -> bool
    decreases r,
{
    &&& f.name@ == r.name@
    &&& f.optional == (r.repetition is Optional)
    &&& if list_shaped(r) {
        &&& f.kind matches FieldKind::List(elem)
        &&& models_field(*f.kind->List_0, list_element(r))
    } else {
        match r.kind {
            RawKind::Primitive(p) => {
                &&& f.kind matches FieldKind::Leaf(m)
                &&& TypeMapping::from_types_spec(r.logical, p) == Some(f.kind->Leaf_0)
            },
            RawKind::Group(children) => {
                &&& f.kind matches FieldKind::Group(fs)
                &&& f.kind->Group_0@.len() == children@.len()
                &&& forall|i: int|
                    0 <= i < children@.len() ==> models_field(
                        #[trigger] f.kind->Group_0@[i],
                        children@[i],
                    )
            },
        }
    }
}

/// Analyze a raw schema tree: check its shape and produce the analyzed
/// field tree with per-leaf column metadata. The root must be a plain
/// group; analysis succeeds exactly when every field under it passes
/// the shape rules.
#[verifier::loop_isolation(false)]
pub fn analyze_schema(root: &RawField) -> (r: Result<Schema, SchemaShapeError>)
    ensures
        match r {
            Ok(s) => {
                &&& root.kind is Group
                &&& !list_shaped(*root)
                &&& !(root.logical is List)
                &&& root.kind->Group_0@.len() > 0
                &&& forall|i: int|
                    0 <= i < root.kind->Group_0@.len() ==> shape_ok(
                        #[trigger] root.kind->Group_0@[i],
                        0,
                    )
                &&& wf_schema(s)
                &&& s.name@ == root.name@
                &&& s.fields@.len() == root.kind->Group_0@.len()
                &&& forall|i: int|
                    0 <= i < s.fields@.len() ==> models_field(
                        #[trigger] s.fields@[i],
                        root.kind->Group_0@[i],
                    )
            },
            Err(_) => !(root.kind is Group && !list_shaped(*root) && !(root.logical is List)
                && root.kind->Group_0@.len() > 0 && forall|i: int|
                0 <= i < root.kind->Group_0@.len() ==> shape_ok(#[trigger] root.kind->Group_0@[i], 0)),
        },
{
    match &root.kind {
        RawKind::Primitive(_) => Err(SchemaShapeError::InvalidRootSchema),
        RawKind::Group(children) => {
            if is_list_shaped(root) {
                return Err(SchemaShapeError::InvalidRootSchema);
            }
            if matches!(root.logical, RawLogical::List) {
                return Err(SchemaShapeError::InvalidRootSchema);
            }
            if children.len() == 0 {
                return Err(SchemaShapeError::EmptyGroup(root.name.clone()));
            }
            let mut fields: Vec<Field> = Vec::new();
            let mut columns: Vec<ColumnMeta> = Vec::new();
            let mut i: usize = 0;
            while i < children.len()
                invariant
                    i <= children@.len(),
                    fields@.len() == i,
                    forall|j: int| 0 <= j < i ==> shape_ok(#[trigger] children@[j], 0),
                    forall|j: int|
                        0 <= j < i ==> models_field(#[trigger] fields@[j], children@[j]),
                    wf_fields(fields@, 0, 0, 0, columns@.len() as int),
                    columns@ == leaf_metas_seq(fields@),
                decreases children@.len() - i,
            {
                let ghost fields_old = fields@;
                let ghost cols_old = columns@;
                let f = match analyze_field(&children[i], 0, 0, &mut columns) {
                    Ok(f) => f,
                    Err(e) => {
                        proof {
                            assert(!shape_ok(root.kind->Group_0@[i as int], 0));
                        }
                        return Err(e);
                    }
                };
                fields.push(f);
                proof {
                    lemma_wf_fields_snoc(fields_old, f, 0, 0, 0, cols_old.len() as int);
                    lemma_leaf_metas_snoc(fields_old, f);
                    assert(columns@ =~= leaf_metas_seq(fields@));
                }
                i = i + 1;
            }
            Ok(Schema { name: root.name.clone(), fields, columns })
        }
    }
}

/// Appending one well-formed field to a well-formed run keeps the run
/// well-formed over the extended column range.
proof fn lemma_wf_fields_snoc(s: Seq<Field>, f: Field, dd: int, rr: int, cs: int, mid: int)
    requires
        wf_fields(s, dd, rr, cs, mid),
        wf_field(f, dd, rr, mid),
    ensures
        wf_fields(s.push(f), dd, rr, cs, f.col_end as int),
    decreases s,
{
    if s.len() == 0 {
        assert(s.push(f)[0] == f);
        assert(s.push(f).drop_first() =~= Seq::<Field>::empty());
        assert(cs == mid);
        assert(wf_field(s.push(f)[0], dd, rr, cs));
        assert(wf_fields(
            s.push(f).drop_first(),
            dd,
            rr,
            s.push(f)[0].col_end as int,
            f.col_end as int,
        ));
    } else {
        lemma_wf_fields_snoc(s.drop_first(), f, dd, rr, s[0].col_end as int, mid);
        assert(s.push(f)[0] == s[0]);
        assert(s.push(f).drop_first() =~= s.drop_first().push(f));
        assert(wf_field(s.push(f)[0], dd, rr, cs));
        assert(wf_fields(
            s.push(f).drop_first(),
            dd,
            rr,
            s.push(f)[0].col_end as int,
            f.col_end as int,
        ));
    }
}

/// The leaf metadata of a run extended by one field is the run's
/// metadata followed by the field's own.
proof fn lemma_leaf_metas_snoc(s: Seq<Field>, f: Field)
    ensures
        leaf_metas_seq(s.push(f)) == leaf_metas_seq(s) + leaf_metas(f),
    decreases s,
{
    if s.len() == 0 {
        assert(s.push(f)[0] == f);
        assert(s.push(f).drop_first() =~= Seq::<Field>::empty());
        assert(leaf_metas_seq(s.push(f).drop_first()) =~= Seq::<ColumnMeta>::empty());
        assert(leaf_metas_seq(s.push(f)) =~= leaf_metas_seq(s) + leaf_metas(f));
    } else {
        lemma_leaf_metas_snoc(s.drop_first(), f);
        assert(s.push(f).drop_first() =~= s.drop_first().push(f));
        assert(leaf_metas_seq(s.push(f)) =~= leaf_metas_seq(s) + leaf_metas(f));
    }
}

/// Check whether a raw group field has the supported logical-list
/// shape.
fn is_list_shaped(r: &RawField) -> (b: bool)
    ensures
        b == list_shaped(*r),
{
    if !matches!(r.logical, RawLogical::List) {
        return false;
    }
    match &r.kind {
        RawKind::Primitive(_) => false,
        RawKind::Group(children) => {
            if children.len() != 1 {
                return false;
            }
            let inner = &children[0];
            match &inner.kind {
                RawKind::Primitive(_) => false,
                RawKind::Group(grandchildren) => {
                    let list_name: String = "list".to_owned();
                    let element_name: String = "element".to_owned();
                    if !(inner.name == list_name) {
                        return false;
                    }
                    if !matches!(inner.repetition, Repetition::Repeated) {
                        return false;
                    }
                    if grandchildren.len() != 1 {
                        return false;
                    }
                    grandchildren[0].name == element_name
                }
            }
        }
    }
}

/// Analyze one raw field placed at definition depth `dd` and repetition
/// depth `rr`, appending the leaf column metadata it owns to `columns`.
#[verifier::loop_isolation(false)]
fn analyze_field(raw: &RawField, dd: u16, rr: u16, columns: &mut Vec<ColumnMeta>) -> (r: Result<
    Field,
    SchemaShapeError,
>)
    requires
        dd <= MAX_SCHEMA_DEPTH,
        rr <= dd,
    ensures
        match r {
            Ok(f) => {
                &&& shape_ok(*raw, dd as int)
                &&& wf_field(f, dd as int, rr as int, old(columns)@.len() as int)
                &&& models_field(f, *raw)
                &&& final(columns)@ == old(columns)@ + leaf_metas(f)
                &&& f.col_end == final(columns)@.len()
            },
            Err(_) => !shape_ok(*raw, dd as int),
        },
    decreases *raw,
{
    let optional = matches!(raw.repetition, Repetition::Optional);
    let repeated = matches!(raw.repetition, Repetition::Repeated);
    let new_dd: u16 = if optional {
        if dd >= MAX_SCHEMA_DEPTH {
            return Err(SchemaShapeError::DepthLimitExceeded(raw.name.clone()));
        }
        dd + 1
    } else {
        dd
    };
    if is_list_shaped(raw) {
        if repeated {
            return Err(SchemaShapeError::UnsupportedRepetition(raw.name.clone()));
        }
        if new_dd >= MAX_SCHEMA_DEPTH {
            return Err(SchemaShapeError::DepthLimitExceeded(raw.name.clone()));
        }
        let cs = columns.len();
        let elem_raw = match &raw.kind {
            RawKind::Group(children) => match &children[0].kind {
                RawKind::Group(grandchildren) => &grandchildren[0],
                RawKind::Primitive(_) => {
                    proof {
                        assert(false);
                    }
                    return Err(SchemaShapeError::InvalidRootSchema);
                }
            },
            RawKind::Primitive(_) => {
                proof {
                    assert(false);
                }
                return Err(SchemaShapeError::InvalidRootSchema);
            }
        };
        proof {
            assert(decreases_to!(*raw => raw.kind->Group_0));
            assert(decreases_to!(raw.kind->Group_0 => raw.kind->Group_0[0]));
            let inner = raw.kind->Group_0[0];
            assert(decreases_to!(inner => inner.kind->Group_0));
            assert(decreases_to!(inner.kind->Group_0 => inner.kind->Group_0[0]));
        }
        let elem = match analyze_field(elem_raw, new_dd + 1, rr + 1, columns) {
            Ok(f) => f,
            Err(e) => {
                proof {
                    if shape_ok(*raw, dd as int) {
                        assert(shape_ok(list_element(*raw), new_dd + 1));
                    }
                }
                return Err(e);
            }
        };
        let col_end = elem.col_end;
        Ok(
            Field {
                name: raw.name.clone(),
                optional,
                def_depth: new_dd + 1,
                rep_depth: rr + 1,
                col_start: cs,
                col_end,
                kind: FieldKind::List(Box::new(elem)),
            },
        )
    } else {
        if repeated {
            return Err(SchemaShapeError::UnsupportedRepetition(raw.name.clone()));
        }
        if matches!(raw.logical, RawLogical::List) {
            return Err(SchemaShapeError::UnsupportedRepetition(raw.name.clone()));
        }
        match &raw.kind {
            RawKind::Primitive(p) => {
                let mapping = match TypeMapping::from_types(raw.logical, *p) {
                    Some(m) => m,
                    None => {
                        return Err(SchemaShapeError::UnsupportedType(raw.name.clone()));
                    }
                };
                let cs = columns.len();
                columns.push(
                    ColumnMeta {
                        name: raw.name.clone(),
                        max_def: new_dd,
                        max_rep: rr,
                        mapping,
                    },
                );
                let ce = columns.len();
                let f = Field {
                    name: raw.name.clone(),
                    optional,
                    def_depth: new_dd,
                    rep_depth: rr,
                    col_start: cs,
                    col_end: ce,
                    kind: FieldKind::Leaf(mapping),
                };
                proof {
                    assert(final(columns)@ =~= old(columns)@ + leaf_metas(f));
                }
                Ok(f)
            }
            RawKind::Group(children) => {
                if children.len() == 0 {
                    return Err(SchemaShapeError::EmptyGroup(raw.name.clone()));
                }
                let cs = columns.len();
                let mut fields: Vec<Field> = Vec::new();
                let mut i: usize = 0;
                while i < children.len()
                    invariant
                        i <= children@.len(),
                        fields@.len() == i,
                        new_dd <= MAX_SCHEMA_DEPTH,
                        rr <= new_dd,
                        cs == old(columns)@.len(),
                        forall|j: int|
                            0 <= j < i ==> shape_ok(#[trigger] children@[j], new_dd as int),
                        forall|j: int|
                            0 <= j < i ==> models_field(#[trigger] fields@[j], children@[j]),
                        wf_fields(fields@, new_dd as int, rr as int, cs as int, columns@.len() as int),
                        columns@ == old(columns)@ + leaf_metas_seq(fields@),
                    decreases children@.len() - i,
                {
                    let ghost fields_old = fields@;
                    let ghost cols_old = columns@;
                    proof {
                        assert(decreases_to!(*raw => raw.kind->Group_0));
                        assert(decreases_to!(raw.kind->Group_0 => raw.kind->Group_0[i as int]));
                    }
                    let f = match analyze_field(&children[i], new_dd, rr, columns) {
                        Ok(f) => f,
                        Err(e) => {
                            proof {
                                if shape_ok(*raw, dd as int) {
                                    assert(shape_ok(children@[i as int], new_dd as int));
                                }
                            }
                            return Err(e);
                        }
                    };
                    fields.push(f);
                    proof {
                        lemma_wf_fields_snoc(
                            fields_old,
                            f,
                            new_dd as int,
                            rr as int,
                            cs as int,
                            cols_old.len() as int,
                        );
                        lemma_leaf_metas_snoc(fields_old, f);
                        assert(columns@ =~= old(columns)@ + leaf_metas_seq(fields@));
                    }
                    i = i + 1;
                }
                let col_end = columns.len();
                Ok(
                    Field {
                        name: raw.name.clone(),
                        optional,
                        def_depth: new_dd,
                        rep_depth: rr,
                        col_start: cs,
                        col_end,
                        kind: FieldKind::Group(fields),
                    },
                )
            }
        }
    }
}

} // verus!
