//! Nominal types, values, and wire layouts, each with a mathematical model.
use vstd::prelude::*;

verus! {

/// A type that can appear in an interface definition.
#[derive(Debug, PartialEq)]
pub enum MojomType {
    Bool,
    Int8,
    UInt8,
    Int16,
    UInt16,
    Int32,
    UInt32,
    Int64,
    UInt64,
    String,
    Struct { fields: Vec<(String, MojomType)> },
    /// A sized array when `num_elements` is present, unsized otherwise.
    Array { element_type: Box<MojomType>, num_elements: Option<usize> },
}

/// A value of a `MojomType`.
#[derive(Debug, PartialEq)]
pub enum MojomValue {
    Bool(bool),
    Int8(i8),
    UInt8(u8),
    Int16(i16),
    UInt16(u16),
    Int32(i32),
    UInt32(u32),
    Int64(i64),
    UInt64(u64),
    String(String),
    Struct(Vec<(String, MojomValue)>),
    /// All elements have the array's element type.
    Array(Vec<MojomValue>),
}

/// The index of a field within its declaring struct.
pub type Ordinal = usize;

/// One element of a packed struct's wire layout.
#[derive(Debug, PartialEq)]
pub enum MojomWireType {
    /// A scalar stored in place.
    Leaf { ordinal: Ordinal, leaf_type: PackedLeafType },
    /// Up to eight booleans in one byte; slot `i` is bit `i`, and the used
    /// slots form a prefix of the array.
    Bitfield { ordinals: [Option<Ordinal>; 8] },
    /// A 64-bit offset to a struct or array that follows the enclosing block.
    Pointer { ordinal: Ordinal, nested_data_type: PackedStructuredType },
}

/// The scalar kinds that are stored as themselves.
#[derive(Debug, Clone, Copy, PartialEq, Eq, Structural)]
pub enum PackedLeafType {
    Int8,
    UInt8,
    Int16,
    UInt16,
    Int32,
    UInt32,
    Int64,
    UInt64,
}

/// What a pointer refers to.
#[derive(Debug, PartialEq)]
pub enum PackedStructuredType {
    Struct { packed_field_types: Vec<(String, MojomWireType)> },
    Array { element_type: Box<MojomWireType>, array_type: PackedArrayType },
}

/// The nominal origin of an array on the wire.
#[derive(Debug, Clone, Copy, PartialEq, Eq, Structural)]
pub enum PackedArrayType {
    UnsizedArray,
    SizedArray(usize),
    String,
}

/// What can go wrong while serializing or parsing.
#[derive(Debug, Clone, Copy, PartialEq, Eq, Structural)]
pub enum MojomError {
    /// A wire element names an ordinal beyond the supplied fields, or a
    /// layout leaves an ordinal below its highest to no element.
    OrdinalOutOfRange,
    /// A value's shape does not match its wire element, a sized array has
    /// another length, or a string's bytes are not UTF-8.
    TypeMismatch,
    /// A block's elements take more bytes than its header declares.
    HeaderSizeMismatch,
    /// A nested block is not where its pointer says, or out of order.
    PointerOrderOrOffsetMismatch,
    /// A pointer does not fit a native size or points past the buffer.
    PointerValueOutOfRange,
    /// The input ended before the block did.
    UnexpectedEndOfInput,
}

// ---------------------------------------------------------------------------
// Models
// ---------------------------------------------------------------------------

/// Model of a nominal type; the eight integer types are `Leaf`.
pub enum TypeModel {
    Bool,
    Leaf(PackedLeafType),
    Str,
    Struct(Seq<(Seq<char>, TypeModel)>),
    Array(Box<TypeModel>, Option<usize>),
}

/// Model of a value; an integer carries its kind and its mathematical value.
pub enum ValueModel {
    Bool(bool),
    Int(PackedLeafType, int),
    Str(Seq<char>),
    Struct(Seq<(Seq<char>, ValueModel)>),
    Array(Seq<ValueModel>),
}

/// Model of a wire element.
pub enum WireModel {
    Leaf { ordinal: usize, leaf_type: PackedLeafType },
    Bitfield { ordinals: Seq<Option<usize>> },
    Pointer { ordinal: usize, pointee: PointeeModel },
}

/// Model of a pointer's target.
pub enum PointeeModel {
    Struct { fields: Seq<(Seq<char>, WireModel)> },
    Array { element: Box<WireModel>, kind: PackedArrayType },
}

/// Size in bytes of a scalar of the given kind.
pub open spec fn leaf_size(k: PackedLeafType) -> nat {
    match k {
        PackedLeafType::Int8 | PackedLeafType::UInt8 => 1,
        PackedLeafType::Int16 | PackedLeafType::UInt16 => 2,
        PackedLeafType::Int32 | PackedLeafType::UInt32 => 4,
        PackedLeafType::Int64 | PackedLeafType::UInt64 => 8,
    }
}

impl WireModel {
    /// Size in bytes of the element inside its block; it is also its alignment.
    pub open spec fn size(self) -> nat {
        match self {
            WireModel::Leaf { leaf_type, .. } => leaf_size(leaf_type),
            WireModel::Bitfield { .. } => 1,
            WireModel::Pointer { .. } => 8,
        }
    }
}

pub open spec fn type_model(t: MojomType) -> TypeModel
    decreases t,
{
    match t {
        MojomType::Bool => TypeModel::Bool,
        MojomType::Int8 => TypeModel::Leaf(PackedLeafType::Int8),
        MojomType::UInt8 => TypeModel::Leaf(PackedLeafType::UInt8),
        MojomType::Int16 => TypeModel::Leaf(PackedLeafType::Int16),
        MojomType::UInt16 => TypeModel::Leaf(PackedLeafType::UInt16),
        MojomType::Int32 => TypeModel::Leaf(PackedLeafType::Int32),
        MojomType::UInt32 => TypeModel::Leaf(PackedLeafType::UInt32),
        MojomType::Int64 => TypeModel::Leaf(PackedLeafType::Int64),
        MojomType::UInt64 => TypeModel::Leaf(PackedLeafType::UInt64),
        MojomType::String => TypeModel::Str,
        MojomType::Struct { fields } => TypeModel::Struct(field_types_model(fields@)),
        MojomType::Array { element_type, num_elements } => TypeModel::Array(
            Box::new(type_model(*element_type)),
            num_elements,
        ),
    }
}

/// Models of named field types, in order.
pub open spec fn field_types_model(s: Seq<(String, MojomType)>) -> Seq<(Seq<char>, TypeModel)>
    decreases s,
{
    if s.len() == 0 {
        Seq::empty()
    } else {
        field_types_model(s.drop_last()).push((s.last().0@, type_model(s.last().1)))
    }
}

impl View for MojomType {
    type V = TypeModel;

    open spec fn view(&self) -> TypeModel {
        type_model(*self)
    }
}

pub open spec fn value_model(v: MojomValue) -> ValueModel
    decreases v,
{
    match v {
        MojomValue::Bool(b) => ValueModel::Bool(b),
        MojomValue::Int8(x) => ValueModel::Int(PackedLeafType::Int8, x as int),
        MojomValue::UInt8(x) => ValueModel::Int(PackedLeafType::UInt8, x as int),
        MojomValue::Int16(x) => ValueModel::Int(PackedLeafType::Int16, x as int),
        MojomValue::UInt16(x) => ValueModel::Int(PackedLeafType::UInt16, x as int),
        MojomValue::Int32(x) => ValueModel::Int(PackedLeafType::Int32, x as int),
        MojomValue::UInt32(x) => ValueModel::Int(PackedLeafType::UInt32, x as int),
        MojomValue::Int64(x) => ValueModel::Int(PackedLeafType::Int64, x as int),
        MojomValue::UInt64(x) => ValueModel::Int(PackedLeafType::UInt64, x as int),
        MojomValue::String(s) => ValueModel::Str(s@),
        MojomValue::Struct(fields) => ValueModel::Struct(field_values_model(fields@)),
        MojomValue::Array(elems) => ValueModel::Array(elements_model(elems@)),
    }
}

/// Models of named field values, in order.
pub open spec fn field_values_model(s: Seq<(String, MojomValue)>) -> Seq<(Seq<char>, ValueModel)>
    decreases s,
{
    if s.len() == 0 {
        Seq::empty()
    } else {
        field_values_model(s.drop_last()).push((s.last().0@, value_model(s.last().1)))
    }
}

/// Models of array elements, in order.
pub open spec fn elements_model(s: Seq<MojomValue>) -> Seq<ValueModel>
    decreases s,
{
    if s.len() == 0 {
        Seq::empty()
    } else {
        elements_model(s.drop_last()).push(value_model(s.last()))
    }
}

impl View for MojomValue {
    type V = ValueModel;

    open spec fn view(&self) -> ValueModel {
        value_model(*self)
    }
}

pub open spec fn wire_model(w: MojomWireType) -> WireModel
    decreases w,
{
    match w {
        MojomWireType::Leaf { ordinal, leaf_type } => WireModel::Leaf { ordinal, leaf_type },
        MojomWireType::Bitfield { ordinals } => WireModel::Bitfield { ordinals: ordinals@ },
        MojomWireType::Pointer { ordinal, nested_data_type } => WireModel::Pointer {
            ordinal,
            pointee: pointee_model(nested_data_type),
        },
    }
}

pub open spec fn pointee_model(p: PackedStructuredType) -> PointeeModel
    decreases p,
{
    match p {
        PackedStructuredType::Struct { packed_field_types } => PointeeModel::Struct {
            fields: layout_model(packed_field_types@),
        },
        PackedStructuredType::Array { element_type, array_type } => PointeeModel::Array {
            element: Box::new(wire_model(*element_type)),
            kind: array_type,
        },
    }
}

/// Models of named wire elements, in order.
pub open spec fn layout_model(s: Seq<(String, MojomWireType)>) -> Seq<(Seq<char>, WireModel)>
    decreases s,
{
    if s.len() == 0 {
        Seq::empty()
    } else {
        layout_model(s.drop_last()).push((s.last().0@, wire_model(s.last().1)))
    }
}

impl View for MojomWireType {
    type V = WireModel;

    open spec fn view(&self) -> WireModel {
        wire_model(*self)
    }
}

impl View for PackedStructuredType {
    type V = PointeeModel;

    open spec fn view(&self) -> PointeeModel {
        pointee_model(*self)
    }
}

pub proof fn lemma_field_types_model(s: Seq<(String, MojomType)>)
    ensures
        field_types_model(s).len() == s.len(),
        forall|i: int|
            0 <= i < s.len() ==> #[trigger] field_types_model(s)[i] == (s[i].0@, type_model(s[i].1)),
    decreases s.len(),
{
    if s.len() > 0 {
        lemma_field_types_model(s.drop_last());
    }
}

pub proof fn lemma_field_values_model(s: Seq<(String, MojomValue)>)
    ensures
        field_values_model(s).len() == s.len(),
        forall|i: int|
            0 <= i < s.len() ==> #[trigger] field_values_model(s)[i] == (s[i].0@, value_model(s[i].1)),
    decreases s.len(),
{
    if s.len() > 0 {
        lemma_field_values_model(s.drop_last());
    }
}

pub proof fn lemma_elements_model(s: Seq<MojomValue>)
    ensures
        elements_model(s).len() == s.len(),
        forall|i: int| 0 <= i < s.len() ==> #[trigger] elements_model(s)[i] == value_model(s[i]),
    decreases s.len(),
{
    if s.len() > 0 {
        lemma_elements_model(s.drop_last());
    }
}

pub proof fn lemma_layout_model(s: Seq<(String, MojomWireType)>)
    ensures
        layout_model(s).len() == s.len(),
        forall|i: int|
            0 <= i < s.len() ==> #[trigger] layout_model(s)[i] == (s[i].0@, wire_model(s[i].1)),
    decreases s.len(),
{
    if s.len() > 0 {
        lemma_layout_model(s.drop_last());
    }
}

impl MojomWireType {
    /// The size in bytes of the element when stored in a struct.
    pub fn size(&self) -> (r: usize)
        ensures
            r == self@.size(),
            r == 1 || r == 2 || r == 4 || r == 8,
    {
        match self {
            MojomWireType::Leaf { leaf_type, .. } => match leaf_type {
                PackedLeafType::Int8 | PackedLeafType::UInt8 => 1,
                PackedLeafType::Int16 | PackedLeafType::UInt16 => 2,
                PackedLeafType::Int32 | PackedLeafType::UInt32 => 4,
                PackedLeafType::Int64 | PackedLeafType::UInt64 => 8,
            },
            MojomWireType::Bitfield { .. } => 1,
            // Structs and arrays are stored as 64-bit pointers.
            MojomWireType::Pointer { .. } => 8,
        }
    }

    /// The alignment of every element equals its size.
    pub fn alignment(&self) -> (r: usize)
        ensures
            r == self@.size(),
            r == 1 || r == 2 || r == 4 || r == 8,
    {
        self.size()
    }
}

} // verus!
