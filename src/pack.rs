//! The packing algorithm, which decides where each field of a struct sits on
//! the wire.
//!
//! Fields are taken in declaration order. A boolean first goes into the first
//! bitfield that has a free slot. Otherwise the packed element goes into the
//! first hole between two placed elements that can hold it at its alignment,
//! or after the last element. Nested structs and arrays are 8-byte pointers.
use vstd::prelude::*;

use crate::ast::{
    field_types_model, layout_model, lemma_field_types_model, lemma_layout_model, type_model,
    MojomType, MojomWireType, Ordinal, PackedArrayType, PackedLeafType, PackedStructuredType, PointeeModel,
    TypeModel, WireModel,
};

verus! {

/// `(a - off % a) % a`: the bytes to skip from `off` to the next multiple of `a`.
pub open spec fn align_gap(off: int, a: int) -> int {
    (a - off % a) % a
}

/// Skipping the gap lands on a multiple of the alignment.
pub proof fn lemma_align_gap(off: int, a: int)
    requires
        off >= 0,
        a == 1 || a == 2 || a == 4 || a == 8,
    ensures
        0 <= align_gap(off, a) < a,
        (off + align_gap(off, a)) % a == 0,
{
}

/// An element placed in a struct's inline body, `start` bytes from the body's start.
pub struct Placed {
    pub name: Seq<char>,
    pub elem: WireModel,
    pub start: int,
}

impl Placed {
    pub open spec fn end(self) -> int {
        self.start + self.elem.size()
    }
}

/// The index of the first empty slot of a bitfield, scanning from `j`.
pub open spec fn first_empty_slot(ords: Seq<Option<usize>>, j: int) -> Option<int>
    decreases ords.len() - j,
{
    if j < 0 || j >= ords.len() {
        None
    } else if ords[j] is None {
        Some(j)
    } else {
        first_empty_slot(ords, j + 1)
    }
}

/// The slot that a boolean would take in `w`, if `w` is a bitfield with room.
pub open spec fn free_slot(w: WireModel) -> Option<int> {
    match w {
        WireModel::Bitfield { ordinals } => first_empty_slot(ordinals, 0),
        _ => None,
    }
}

/// The index of the first placed bitfield with a free slot, scanning from `i`.
pub open spec fn first_free_bitfield(l: Seq<Placed>, i: int) -> Option<int>
    decreases l.len() - i,
{
    if i < 0 || i >= l.len() {
        None
    } else if free_slot(l[i].elem) is Some {
        Some(i)
    } else {
        first_free_bitfield(l, i + 1)
    }
}

/// The first `i >= from` such that an element of size `s` fits, aligned, between
/// `l[i - 1]` and `l[i]`.
pub open spec fn first_hole(l: Seq<Placed>, s: int, from: int) -> Option<int>
    decreases l.len() - from,
{
    if from < 1 || from >= l.len() {
        None
    } else if l[from - 1].end() + align_gap(l[from - 1].end(), s) + s <= l[from].start {
        Some(from)
    } else {
        first_hole(l, s, from + 1)
    }
}

/// The end of the last placed element.
pub open spec fn total_length(l: Seq<Placed>) -> int {
    if l.len() == 0 {
        0
    } else {
        l.last().end()
    }
}

/// Places field `ordinal`, already packed as `e`, into `l`.
pub open spec fn place_field(
    l: Seq<Placed>,
    ordinal: usize,
    name: Seq<char>,
    is_bool: bool,
    e: WireModel,
) -> Seq<Placed> {
    let bf = if is_bool {
        first_free_bitfield(l, 0)
    } else {
        None
    };
    if bf is Some {
        let i = bf->0;
        let ords = l[i].elem->Bitfield_ordinals;
        let slot = free_slot(l[i].elem)->0;
        l.update(
            i,
            Placed { elem: WireModel::Bitfield { ordinals: ords.update(slot, Some(ordinal)) }, ..l[i] },
        )
    } else {
        let s = e.size() as int;
        let hole = first_hole(l, s, 1);
        if hole is Some {
            let i = hole->0;
            let start = l[i - 1].end() + align_gap(l[i - 1].end(), s);
            l.insert(i, Placed { name, elem: e, start })
        } else {
            let t = total_length(l);
            l.push(Placed { name, elem: e, start: t + align_gap(t, s) })
        }
    }
}

/// The packed element of a field of type `t` with the given ordinal.
pub open spec fn pack_type_spec(t: TypeModel, ordinal: usize) -> WireModel
    decreases t, 0int,
{
    match t {
        TypeModel::Bool => WireModel::Bitfield {
            ordinals: seq![Some(ordinal), None, None, None, None, None, None, None],
        },
        TypeModel::Leaf(k) => WireModel::Leaf { ordinal, leaf_type: k },
        TypeModel::Str => WireModel::Pointer {
            ordinal,
            pointee: PointeeModel::Array {
                element: Box::new(WireModel::Leaf { ordinal: 0, leaf_type: PackedLeafType::UInt8 }),
                kind: PackedArrayType::String,
            },
        },
        TypeModel::Array(e, n) => WireModel::Pointer {
            ordinal,
            pointee: PointeeModel::Array {
                element: Box::new(pack_type_spec(*e, 0)),
                kind: match n {
                    Some(n) => PackedArrayType::SizedArray(n),
                    None => PackedArrayType::UnsizedArray,
                },
            },
        },
        TypeModel::Struct(fields) => WireModel::Pointer {
            ordinal,
            pointee: PointeeModel::Struct { fields: pack_struct_spec(fields) },
        },
    }
}

/// The placement after the first `n` fields.
pub open spec fn placement(fields: Seq<(Seq<char>, TypeModel)>, n: int) -> Seq<Placed>
    decreases fields, n,
{
    if n <= 0 || n > fields.len() {
        Seq::empty()
    } else {
        place_field(
            placement(fields, n - 1),
            (n - 1) as usize,
            fields[n - 1].0,
            fields[n - 1].1 is Bool,
            pack_type_spec(fields[n - 1].1, (n - 1) as usize),
        )
    }
}

/// The wire layout of a struct with the given fields.
pub open spec fn pack_struct_spec(fields: Seq<(Seq<char>, TypeModel)>) -> Seq<(Seq<char>, WireModel)>
    decreases fields, fields.len() + 1,
{
    let l = placement(fields, fields.len() as int);
    Seq::new(l.len(), |i: int| (l[i].name, l[i].elem))
}

/// Every struct in `t` has few enough fields that its offsets fit in `usize`.
pub open spec fn offsets_fit(t: TypeModel) -> bool
    decreases t,
{
    match t {
        TypeModel::Struct(fields) => fields.len() * 16 <= usize::MAX && forall|i: int|
            0 <= i < fields.len() ==> offsets_fit(#[trigger] fields[i].1),
        TypeModel::Array(e, _) => offsets_fit(*e),
        _ => true,
    }
}

pub proof fn lemma_first_empty_slot(ords: Seq<Option<usize>>, j: int)
    ensures
        first_empty_slot(ords, j) matches Some(k) ==> j <= k < ords.len() && ords[k] is None
            && forall|m: int| j <= m < k ==> ords[m] is Some,
        first_empty_slot(ords, j) is None ==> forall|m: int| 0 <= j <= m < ords.len() ==> ords[m] is Some,
    decreases ords.len() - j,
{
    if 0 <= j < ords.len() && ords[j] is Some {
        lemma_first_empty_slot(ords, j + 1);
    }
}

pub proof fn lemma_first_empty_slot_at(ords: Seq<Option<usize>>, m: int, t: int)
    requires
        0 <= m <= t < ords.len(),
        ords[t] is None,
        forall|i: int| m <= i < t ==> ords[i] is Some,
    ensures
        first_empty_slot(ords, m) == Some(t),
    decreases t - m,
{
    if m < t {
        lemma_first_empty_slot_at(ords, m + 1, t);
    }
}

pub proof fn lemma_first_free_bitfield(l: Seq<Placed>, i: int)
    ensures
        first_free_bitfield(l, i) matches Some(k) ==> i <= k < l.len() && free_slot(l[k].elem) is Some,
    decreases l.len() - i,
{
    if 0 <= i < l.len() && free_slot(l[i].elem) is None {
        lemma_first_free_bitfield(l, i + 1);
    }
}

pub proof fn lemma_first_hole(l: Seq<Placed>, s: int, from: int)
    ensures
        first_hole(l, s, from) matches Some(k) ==> from <= k < l.len() && 1 <= k,
    decreases l.len() - from,
{
    if 1 <= from < l.len() {
        lemma_first_hole(l, s, from + 1);
    }
}

/// Placing a field moves the end of the body only when it is appended.
proof fn lemma_place_field_total(
    l: Seq<Placed>,
    ordinal: usize,
    name: Seq<char>,
    is_bool: bool,
    e: WireModel,
)
    ensures
        (is_bool && first_free_bitfield(l, 0) is Some) || first_hole(l, e.size() as int, 1) is Some
            ==> total_length(place_field(l, ordinal, name, is_bool, e)) == total_length(l),
{
    lemma_first_free_bitfield(l, 0);
    lemma_first_hole(l, e.size() as int, 1);
    let r = place_field(l, ordinal, name, is_bool, e);
    if is_bool && first_free_bitfield(l, 0) is Some {
        let i = first_free_bitfield(l, 0)->0;
        assert(r.last() == l.last() || (i == l.len() - 1 && r.last().end() == l.last().end()));
    }
}

/// Returns the number of bytes to skip from `current_offset` to reach the
/// given alignment.
pub fn bytes_to_align(current_offset: usize, required_alignment: usize) -> (r: usize)
    requires
        required_alignment == 1 || required_alignment == 2 || required_alignment == 4
            || required_alignment == 8,
    ensures
        r == align_gap(current_offset as int, required_alignment as int),
        r < required_alignment,
        (current_offset + r) % (required_alignment as int) == 0,
{
    proof {
        lemma_align_gap(current_offset as int, required_alignment as int);
    }
    (required_alignment - (current_offset % required_alignment)) % required_alignment
}

/// The layout built so far agrees with the placement `l`, and `spans` holds
/// each element's start and end offsets.
pub open spec fn placed_matches(
    layout: Seq<(String, MojomWireType)>,
    spans: Seq<(usize, usize)>,
    l: Seq<Placed>,
) -> bool {
    &&& layout.len() == l.len()
    &&& spans.len() == l.len()
    &&& forall|j: int|
        0 <= j < l.len() ==> (#[trigger] layout[j]).0@ == l[j].name && layout[j].1@ == l[j].elem
    &&& forall|j: int|
        0 <= j < l.len() ==> (#[trigger] spans[j]).0 == l[j].start && spans[j].1 == l[j].end()
}

/// Puts `ordinal` into the first empty slot of `packed_field` if it is a
/// bitfield with room, and says whether it did.
fn try_pack_bool(ordinal: Ordinal, packed_field: &mut MojomWireType) -> (r: bool)
    ensures
        r == (free_slot(old(packed_field)@) is Some),
        r ==> final(packed_field)@ == (WireModel::Bitfield {
            ordinals: old(packed_field)@->Bitfield_ordinals.update(
                free_slot(old(packed_field)@)->0,
                Some(ordinal),
            ),
        }),
        !r ==> *final(packed_field) == *old(packed_field),
{
    match packed_field {
        MojomWireType::Bitfield { ordinals } => {
            let ghost ords0 = ordinals@;
            let mut j: usize = 0;
            while j < 8 && ordinals[j].is_some()
                invariant
                    0 <= j <= 8,
                    ordinals@ == ords0,
                    ords0.len() == 8,
                    first_empty_slot(ords0, 0) == first_empty_slot(ords0, j as int),
                decreases 8 - j,
            {
                j = j + 1;
            }
            if j < 8 {
                assert(first_empty_slot(ords0, j as int) == Some(j as int));
                ordinals[j] = Some(ordinal);
                true
            } else {
                false
            }
        },
        _ => false,
    }
}

/// Transforms the fields of a struct into its wire layout.
pub fn pack_struct(fields: &Vec<(String, MojomType)>) -> (r: Vec<(String, MojomWireType)>)
    requires
        offsets_fit(TypeModel::Struct(field_types_model(fields@))),
    ensures
        layout_model(r@) == pack_struct_spec(field_types_model(fields@)),
    decreases fields,
{
    let ghost fm = field_types_model(fields@);
    proof {
        lemma_field_types_model(fields@);
    }
    // The layout so far, and the byte span of each of its elements.
    let mut layout: Vec<(String, MojomWireType)> = Vec::new();
    let mut spans: Vec<(usize, usize)> = Vec::new();
    let mut total: usize = 0;
    let mut ordinal: usize = 0;
    while ordinal < fields.len()
        invariant
            fm == field_types_model(fields@),
            fm.len() == fields@.len(),
            forall|i: int|
                0 <= i < fields@.len() ==> #[trigger] fm[i] == (fields@[i].0@, type_model(
                    fields@[i].1,
                )),
            offsets_fit(TypeModel::Struct(fm)),
            0 <= ordinal <= fields.len(),
            placed_matches(layout@, spans@, placement(fm, ordinal as int)),
            total == total_length(placement(fm, ordinal as int)),
            total <= 16 * ordinal,
            forall|j: int| 0 <= j < spans@.len() ==> #[trigger] spans@[j].1 <= 16 * ordinal,
        decreases fields.len() - ordinal,
    {
        let ghost l = placement(fm, ordinal as int);
        let ghost layout0 = layout@;
        let field_name = &fields[ordinal].0;
        let field_ty = &fields[ordinal].1;
        let is_bool = match field_ty {
            MojomType::Bool => true,
            _ => false,
        };
        proof {
            assert(fm.len() * 16 <= usize::MAX);
            assert(offsets_fit(fm[ordinal as int].1));
            assert(is_bool == (fm[ordinal as int].1 is Bool));
        }
        let packed = pack_mojom_type(field_ty, ordinal);
        let ghost e = packed@;
        let ghost next = place_field(l, ordinal, fm[ordinal as int].0, is_bool, e);
        proof {
            lemma_place_field_total(l, ordinal, fm[ordinal as int].0, is_bool, e);
        }
        assert(placement(fm, ordinal + 1) == next);
        let field_size = packed.size();
        // A boolean goes into the first bitfield with a free slot.
        let mut done = false;
        if is_bool {
            let mut i: usize = 0;
            while i < layout.len() && !done
                invariant
                    placed_matches(layout0, spans@, l),
                    layout@.len() == l.len(),
                    0 <= i <= layout@.len(),
                    is_bool,
                    next == place_field(l, ordinal, fm[ordinal as int].0, is_bool, e),
                    !done ==> layout@ == layout0 && first_free_bitfield(l, 0) == first_free_bitfield(l, i as int),
                    done ==> placed_matches(layout@, spans@, next),
                decreases layout.len() - i,
            {
                done = try_pack_bool(ordinal, &mut layout[i].1);
                i = i + 1;
            }
        }
        if !done {
            // Otherwise into the first hole that holds it at its alignment.
            let mut hole: usize = 0;
            let mut i: usize = 1;
            while i < layout.len() && hole == 0
                invariant
                    placed_matches(layout@, spans@, l),
                    1 <= i,
                    hole == 0 || hole < layout@.len(),
                    hole == 0 ==> first_hole(l, field_size as int, 1) == first_hole(l, field_size as int, i as int),
                    hole != 0 ==> first_hole(l, field_size as int, 1) == Some(hole as int),
                    forall|j: int| 0 <= j < spans@.len() ==> #[trigger] spans@[j].1 <= 16 * ordinal,
                    16 * fields.len() <= usize::MAX,
                    ordinal < fields.len(),
                    field_size <= 8,
                    field_size == e.size(),
                decreases layout.len() - i,
            {
                let end_of_last = spans[i - 1].1;
                let start = end_of_last + bytes_to_align(end_of_last, field_size);
                if start + field_size <= spans[i].0 {
                    hole = i;
                }
                i = i + 1;
            }
            if hole != 0 {
                let end_of_last = spans[hole - 1].1;
                let start = end_of_last + bytes_to_align(end_of_last, field_size);
                layout.insert(hole, (field_name.clone(), packed));
                spans.insert(hole, (start, start + field_size));
            } else {
                // Or after the last element.
                let start = total + bytes_to_align(total, field_size);
                layout.push((field_name.clone(), packed));
                spans.push((start, start + field_size));
                total = start + field_size;
            }
        }
        ordinal = ordinal + 1;
    }
    proof {
        let l = placement(fm, fields@.len() as int);
        lemma_layout_model(layout@);
        assert(layout_model(layout@) =~= Seq::new(l.len(), |i: int| (l[i].name, l[i].elem)));
    }
    layout
}

/// Returns the packed representation of a field of type `ty`.
pub fn pack_mojom_type(ty: &MojomType, ordinal: Ordinal) -> (r: MojomWireType)
    requires
        offsets_fit(ty@),
    ensures
        r@ == pack_type_spec(ty@, ordinal),
    decreases ty,
{
    match ty {
        MojomType::Struct { fields } => {
            let packed_field_types = pack_struct(fields);
            let r = MojomWireType::Pointer {
                ordinal,
                nested_data_type: PackedStructuredType::Struct { packed_field_types },
            };
            r
        },
        MojomType::Array { element_type, num_elements } => {
            let array_type = match num_elements {
                None => PackedArrayType::UnsizedArray,
                Some(n) => PackedArrayType::SizedArray(*n),
            };
            MojomWireType::Pointer {
                ordinal,
                nested_data_type: PackedStructuredType::Array {
                    element_type: Box::new(pack_mojom_type(element_type, 0)),
                    array_type,
                },
            }
        },
        // Strings are packed as byte arrays.
        MojomType::String => {
            let element = MojomWireType::Leaf { ordinal: 0, leaf_type: PackedLeafType::UInt8 };
            assert(element@ == WireModel::Leaf { ordinal: 0, leaf_type: PackedLeafType::UInt8 });
            MojomWireType::Pointer {
                ordinal,
                nested_data_type: PackedStructuredType::Array {
                    element_type: Box::new(element),
                    array_type: PackedArrayType::String,
                },
            }
        },
        MojomType::Int8 => MojomWireType::Leaf { ordinal, leaf_type: PackedLeafType::Int8 },
        MojomType::Int16 => MojomWireType::Leaf { ordinal, leaf_type: PackedLeafType::Int16 },
        MojomType::Int32 => MojomWireType::Leaf { ordinal, leaf_type: PackedLeafType::Int32 },
        MojomType::Int64 => MojomWireType::Leaf { ordinal, leaf_type: PackedLeafType::Int64 },
        MojomType::UInt8 => MojomWireType::Leaf { ordinal, leaf_type: PackedLeafType::UInt8 },
        MojomType::UInt16 => MojomWireType::Leaf { ordinal, leaf_type: PackedLeafType::UInt16 },
        MojomType::UInt32 => MojomWireType::Leaf { ordinal, leaf_type: PackedLeafType::UInt32 },
        MojomType::UInt64 => MojomWireType::Leaf { ordinal, leaf_type: PackedLeafType::UInt64 },
        MojomType::Bool => {
            let ordinals = [Some(ordinal), None, None, None, None, None, None, None];
            assert(ordinals@ =~= seq![Some(ordinal), None, None, None, None, None, None, None]);
            MojomWireType::Bitfield { ordinals }
        },
    }
}

/// The used slots of a bitfield form a prefix: no `Some` follows a `None`.
pub open spec fn slots_contiguous(ords: Seq<Option<usize>>) -> bool {
    forall|i: int, j: int| 0 <= i < j < ords.len() && ords[i] is None ==> ords[j] is None
}

/// A bitfield of eight slots whose used slots form a non-empty prefix.
pub open spec fn bitfield_ok(ords: Seq<Option<usize>>) -> bool {
    ords.len() == 8 && ords[0] is Some && slots_contiguous(ords)
}

/// Every bitfield in `w`, and in the layouts nested in it, is well formed.
pub open spec fn wire_bitfields_ok(w: WireModel) -> bool
    decreases w,
{
    match w {
        WireModel::Bitfield { ordinals } => bitfield_ok(ordinals),
        WireModel::Leaf { .. } => true,
        WireModel::Pointer { pointee, .. } => match pointee {
            PointeeModel::Struct { fields } => forall|i: int|
                0 <= i < fields.len() ==> wire_bitfields_ok((#[trigger] fields[i]).1),
            PointeeModel::Array { element, .. } => wire_bitfields_ok(*element),
        },
    }
}

proof fn lemma_placement_bitfields(fields: Seq<(Seq<char>, TypeModel)>, n: int)
    requires
        0 <= n <= fields.len(),
        forall|j: int|
            0 <= j < fields.len() ==> wire_bitfields_ok(pack_type_spec((#[trigger] fields[j]).1, j as usize)),
    ensures
        forall|i: int|
            0 <= i < placement(fields, n).len() ==> wire_bitfields_ok((#[trigger] placement(fields, n)[i]).elem),
    decreases n,
{
    if n > 0 {
        let l = placement(fields, n - 1);
        lemma_placement_bitfields(fields, n - 1);
        let e = pack_type_spec(fields[n - 1].1, (n - 1) as usize);
        assert(wire_bitfields_ok(e));
        lemma_first_free_bitfield(l, 0);
        lemma_first_hole(l, e.size() as int, 1);
        let is_bool = fields[n - 1].1 is Bool;
        let l2 = placement(fields, n);
        if is_bool && first_free_bitfield(l, 0) is Some {
            let i = first_free_bitfield(l, 0)->0;
            let ords = l[i].elem->Bitfield_ordinals;
            assert(wire_bitfields_ok(l[i].elem));
            lemma_first_empty_slot(ords, 0);
            let k = first_empty_slot(ords, 0)->0;
            let ords2 = ords.update(k, Some((n - 1) as usize));
            assert(bitfield_ok(ords2)) by {
                assert forall|a: int, b: int| 0 <= a < b < ords2.len() && ords2[a] is None implies ords2[b] is None by {
                    assert(ords[a] is None);
                    assert(a > k);
                }
            }
            assert forall|j: int| 0 <= j < l2.len() implies wire_bitfields_ok((#[trigger] l2[j]).elem) by {
                if j != i {
                    assert(wire_bitfields_ok(l[j].elem));
                }
            }
        } else if first_hole(l, e.size() as int, 1) is Some {
            let i = first_hole(l, e.size() as int, 1)->0;
            let x = Placed { name: fields[n - 1].0, elem: e, start: l[i - 1].end() + align_gap(l[i - 1].end(), e.size() as int) };
            l.insert_ensures(i, x);
            assert forall|j: int| 0 <= j < l2.len() implies wire_bitfields_ok((#[trigger] l2[j]).elem) by {
                if j < i {
                    assert(wire_bitfields_ok(l[j].elem));
                } else if j > i {
                    assert(l2[j] == l[j - 1]);
                    assert(wire_bitfields_ok(l[j - 1].elem));
                }
            }
        } else {
            assert forall|j: int| 0 <= j < l2.len() implies wire_bitfields_ok((#[trigger] l2[j]).elem) by {
                if j < l.len() {
                    assert(wire_bitfields_ok(l[j].elem));
                }
            }
        }
    }
}

/// Every bitfield that packing a type produces, at any depth, has eight
/// slots whose used ones form a non-empty prefix.
pub proof fn lemma_pack_type_bitfields(t: TypeModel, ordinal: usize)
    ensures
        wire_bitfields_ok(pack_type_spec(t, ordinal)),
    decreases t,
{
    match t {
        TypeModel::Bool => {
            let ords = pack_type_spec(t, ordinal)->Bitfield_ordinals;
            assert(bitfield_ok(ords));
        },
        TypeModel::Array(e, _) => {
            lemma_pack_type_bitfields(*e, 0);
        },
        TypeModel::Str => {
            assert(wire_bitfields_ok(WireModel::Leaf { ordinal: 0, leaf_type: PackedLeafType::UInt8 }));
        },
        TypeModel::Struct(fields) => {
            assert forall|j: int| 0 <= j < fields.len() implies wire_bitfields_ok(
                pack_type_spec((#[trigger] fields[j]).1, j as usize),
            ) by {
                lemma_pack_type_bitfields(fields[j].1, j as usize);
            }
            lemma_placement_bitfields(fields, fields.len() as int);
            let l = placement(fields, fields.len() as int);
            let layout = pack_struct_spec(fields);
            assert forall|i: int| 0 <= i < layout.len() implies wire_bitfields_ok((#[trigger] layout[i]).1) by {
                assert(layout[i].1 == l[i].elem);
            }
        },
        _ => {},
    }
}

/// In every layout that the packer produces, each bitfield has eight slots and
/// its used slots form a non-empty prefix.
pub proof fn lemma_pack_bitfields_contiguous(fields: Seq<(Seq<char>, TypeModel)>)
    ensures
        forall|i: int|
            0 <= i < pack_struct_spec(fields).len() && (#[trigger] pack_struct_spec(fields)[i]).1 is Bitfield
                ==> bitfield_ok(pack_struct_spec(fields)[i].1->Bitfield_ordinals),
{
    assert forall|j: int| 0 <= j < fields.len() implies wire_bitfields_ok(
        pack_type_spec((#[trigger] fields[j]).1, j as usize),
    ) by {
        lemma_pack_type_bitfields(fields[j].1, j as usize);
    }
    lemma_placement_bitfields(fields, fields.len() as int);
    let l = placement(fields, fields.len() as int);
    let layout = pack_struct_spec(fields);
    assert forall|i: int| 0 <= i < layout.len() && (#[trigger] layout[i]).1 is Bitfield implies bitfield_ok(
        layout[i].1->Bitfield_ordinals,
    ) by {
        assert(layout[i].1 == l[i].elem);
        assert(wire_bitfields_ok(l[i].elem));
    }
}

/// Two nominal types with the same model pack to the same element.
pub proof fn lemma_pack_type_deterministic(a: MojomType, b: MojomType, ordinal: Ordinal)
    requires
        a@ == b@,
    ensures
        pack_type_spec(a@, ordinal) == pack_type_spec(b@, ordinal),
{
}

/// The number of bitfields in a layout.
pub open spec fn count_bitfields(layout: Seq<(Seq<char>, WireModel)>) -> nat
    decreases layout.len(),
{
    if layout.len() == 0 {
        0
    } else {
        count_bitfields(layout.drop_last()) + if layout.last().1 is Bitfield {
            1nat
        } else {
            0nat
        }
    }
}

/// `k` booleans followed by one or more fields of other types.
pub open spec fn bools_then_others(fields: Seq<(Seq<char>, TypeModel)>, k: int) -> bool {
    &&& fields.len() > k
    &&& forall|i: int| 0 <= i < k ==> (#[trigger] fields[i]).1 is Bool
    &&& forall|i: int| k <= i < fields.len() ==> !((#[trigger] fields[i]).1 is Bool)
}

/// The bitfield holding ordinals `0..j`.
pub open spec fn first_ordinals(j: int) -> Seq<Option<usize>> {
    Seq::new(8, |i: int| if i < j { Some(i as usize) } else { None })
}

proof fn lemma_placement_bools(fields: Seq<(Seq<char>, TypeModel)>, k: int, j: int)
    requires
        bools_then_others(fields, k),
        1 <= j <= k <= 8,
    ensures
        placement(fields, j) == seq![
            Placed { name: fields[0].0, elem: WireModel::Bitfield { ordinals: first_ordinals(j) }, start: 0 },
        ],
    decreases j,
{
    let e = pack_type_spec(fields[j - 1].1, (j - 1) as usize);
    assert(fields[j - 1].1 is Bool);
    if j == 1 {
        let l = placement(fields, 0);
        assert(l.len() == 0);
        assert(first_free_bitfield(l, 0) is None);
        assert(first_hole(l, 1, 1) is None);
        assert(e->Bitfield_ordinals =~= first_ordinals(1));
        assert(placement(fields, 1) =~= seq![
            Placed { name: fields[0].0, elem: WireModel::Bitfield { ordinals: first_ordinals(1) }, start: 0 },
        ]);
    } else {
        lemma_placement_bools(fields, k, j - 1);
        let l = placement(fields, j - 1);
        let ords = first_ordinals(j - 1);
        assert(first_empty_slot(ords, j - 1) == Some(j - 1));
        lemma_first_empty_slot_at(ords, 0, j - 1);
        assert(free_slot(l[0].elem) == Some(j - 1));
        assert(first_free_bitfield(l, 0) == Some(0int));
        assert(ords.update(j - 1, Some((j - 1) as usize)) =~= first_ordinals(j));
        assert(placement(fields, j) =~= seq![
            Placed { name: fields[0].0, elem: WireModel::Bitfield { ordinals: first_ordinals(j) }, start: 0 },
        ]);
    }
}

/// The bitfield of the first `k` booleans stays first, and no other element
/// is a bitfield, while fields of other types are placed.
proof fn lemma_placement_others(fields: Seq<(Seq<char>, TypeModel)>, k: int, j: int)
    requires
        bools_then_others(fields, k),
        1 <= k <= 8,
        k <= j <= fields.len(),
    ensures
        placement(fields, j).len() >= 1,
        placement(fields, j)[0] == (Placed {
            name: fields[0].0,
            elem: WireModel::Bitfield { ordinals: first_ordinals(k) },
            start: 0,
        }),
        forall|i: int| 1 <= i < placement(fields, j).len() ==> !((#[trigger] placement(fields, j)[i]).elem is Bitfield),
    decreases j,
{
    if j == k {
        lemma_placement_bools(fields, k, k);
    } else {
        lemma_placement_others(fields, k, j - 1);
        let l = placement(fields, j - 1);
        let e = pack_type_spec(fields[j - 1].1, (j - 1) as usize);
        assert(!(fields[j - 1].1 is Bool));
        assert(!(e is Bitfield));
        lemma_first_hole(l, e.size() as int, 1);
        let l2 = placement(fields, j);
        if first_hole(l, e.size() as int, 1) is Some {
            let i = first_hole(l, e.size() as int, 1)->0;
            let x = Placed { name: fields[j - 1].0, elem: e, start: l[i - 1].end() + align_gap(l[i - 1].end(), e.size() as int) };
            l.insert_ensures(i, x);
            assert forall|m: int| 1 <= m < l2.len() implies !((#[trigger] l2[m]).elem is Bitfield) by {
                if m > i {
                    assert(l2[m] == l[m - 1]);
                }
            }
        }
    }
}

proof fn lemma_count_one_bitfield(layout: Seq<(Seq<char>, WireModel)>)
    requires
        layout.len() >= 1,
        layout[0].1 is Bitfield,
        forall|i: int| 1 <= i < layout.len() ==> !((#[trigger] layout[i]).1 is Bitfield),
    ensures
        count_bitfields(layout) == 1,
    decreases layout.len(),
{
    if layout.len() > 1 {
        let d = layout.drop_last();
        assert forall|i: int| 1 <= i < d.len() implies !((#[trigger] d[i]).1 is Bitfield) by {
            assert(d[i] == layout[i]);
        }
        lemma_count_one_bitfield(d);
        assert(!(layout.last().1 is Bitfield));
    } else {
        assert(layout.drop_last().len() == 0);
        assert(count_bitfields(layout.drop_last()) == 0);
        assert(layout.last() == layout[0]);
    }
}

/// A struct of one to eight booleans followed by fields of other types packs
/// its booleans into exactly one bitfield, the layout's first element, whose
/// slots hold ordinals `0..k` in order.
pub proof fn lemma_pack_bools_share_one_bitfield(fields: Seq<(Seq<char>, TypeModel)>, k: int)
    requires
        1 <= k <= 8,
        bools_then_others(fields, k),
    ensures
        count_bitfields(pack_struct_spec(fields)) == 1,
        pack_struct_spec(fields)[0] == (fields[0].0, WireModel::Bitfield { ordinals: first_ordinals(k) }),
{
    lemma_placement_others(fields, k, fields.len() as int);
    let l = placement(fields, fields.len() as int);
    let layout = pack_struct_spec(fields);
    assert forall|i: int| 1 <= i < layout.len() implies !((#[trigger] layout[i]).1 is Bitfield) by {
        assert(layout[i].1 == l[i].elem);
    }
    lemma_count_one_bitfield(layout);
}

} // verus!
