//! The serializer: writes a value's bytes under a wire layout.
//!
//! A block is an 8-byte header, its inline elements each padded to its
//! alignment, and padding to a multiple of 8. A struct or array that an
//! element points to follows, in element order, once the enclosing block's
//! inline part is complete; its pointer then receives the distance in bytes
//! from the pointer to the nested block.
use vstd::prelude::*;

use crate::ast::{
    elements_model, field_values_model, layout_model, lemma_elements_model, lemma_field_values_model,
    lemma_layout_model, leaf_size, MojomError, MojomValue, MojomWireType, Ordinal, PackedArrayType,
    PackedLeafType, PackedStructuredType, PointeeModel, ValueModel, WireModel,
};
use crate::encoding::{
    le_bytes, lemma_le_bytes_len, lemma_le_bytes_zero, lemma_pow2_mono, pow2, pow256, push_le, write_to_slice, zeros,
};
use crate::pack::{
    align_gap, first_empty_slot, lemma_align_gap, lemma_first_empty_slot, lemma_first_empty_slot_at,
};
use crate::wire_format::{
    array_pointee,    bitfield_byte, block_item, item_pointee, pointee_accepts, block_values, inline_pass, item_bytes, item_end, item_start,
    leaf_wire_value, lemma_align_gap_shift, lemma_inline_pass_err, lemma_inline_pass_len,
    lemma_bitfield_err, lemma_inline_pass_ok, lemma_item_bytes_len, lemma_item_end_lower, lemma_item_start, lemma_item_within, lemma_overwrite_after,
    lemma_block_with_header_len, lemma_ser_nested_err, lemma_ser_nested_no_pointers, ser_nested, ser_pointee, serialize_struct_spec,
    shape_matches, used_slots, utf8_values, block_with_header, with_header, with_ordinal,
};

verus! {

/// The outcome of appending the bytes that `expected` gives to `old`.
pub open spec fn appended(
    old: Seq<u8>,
    new: Seq<u8>,
    r: Result<(), MojomError>,
    expected: Result<Seq<u8>, MojomError>,
) -> bool {
    match expected {
        Ok(b) => r is Ok && new == old + b && new.len() % 8 == 0,
        Err(e) => r == Err::<(), MojomError>(e),
    }
}

/// The values of a struct's fields, by ordinal.
pub open spec fn struct_values(fv: Seq<(String, MojomValue)>) -> Seq<ValueModel> {
    block_values(ValueModel::Struct(field_values_model(fv)))
}

proof fn lemma_struct_values(fv: Seq<(String, MojomValue)>)
    ensures
        struct_values(fv).len() == fv.len(),
        forall|i: int| 0 <= i < fv.len() ==> #[trigger] struct_values(fv)[i] == fv[i].1@,
{
    lemma_field_values_model(fv);
}

/// Returns the value of the field with the given ordinal.
fn get_field_at_ordinal(field_values: &Vec<(String, MojomValue)>, ordinal: Ordinal) -> (r: Result<
    &MojomValue,
    MojomError,
>)
    ensures
        match r {
            Ok(v) => ordinal < field_values@.len() && *v == field_values@[ordinal as int].1,
            Err(e) => ordinal >= field_values@.len() && e == MojomError::OrdinalOutOfRange,
        },
{
    if ordinal < field_values.len() {
        Ok(&field_values[ordinal].1)
    } else {
        Err(MojomError::OrdinalOutOfRange)
    }
}

/// Checks that `value` has the shape that `expected_type` stores.
fn check_value_has_expected_type(value: &MojomValue, expected_type: &MojomWireType) -> (r: Result<
    (),
    MojomError,
>)
    ensures
        r is Ok <==> shape_matches(expected_type@, value@),
        r is Err ==> r == Err::<(), MojomError>(MojomError::TypeMismatch),
{
    let matches = match expected_type {
        MojomWireType::Leaf { leaf_type, .. } => match (leaf_type, value) {
            (PackedLeafType::Int8, MojomValue::Int8(_))
            | (PackedLeafType::UInt8, MojomValue::UInt8(_))
            | (PackedLeafType::Int16, MojomValue::Int16(_))
            | (PackedLeafType::UInt16, MojomValue::UInt16(_))
            | (PackedLeafType::Int32, MojomValue::Int32(_))
            | (PackedLeafType::UInt32, MojomValue::UInt32(_))
            | (PackedLeafType::Int64, MojomValue::Int64(_))
            | (PackedLeafType::UInt64, MojomValue::UInt64(_)) => true,
            _ => false,
        },
        MojomWireType::Bitfield { .. } => match value {
            MojomValue::Bool(_) => true,
            _ => false,
        },
        MojomWireType::Pointer { nested_data_type, .. } => match (nested_data_type, value) {
            (PackedStructuredType::Struct { .. }, MojomValue::Struct(_))
            | (PackedStructuredType::Array { .. }, MojomValue::Array(_))
            | (PackedStructuredType::Array { .. }, MojomValue::String(_)) => true,
            _ => false,
        },
    };
    if matches {
        Ok(())
    } else {
        Err(MojomError::TypeMismatch)
    }
}

/// Appends zero bytes until the length is a multiple of `alignment`.
fn pad_to_alignment(data: &mut Vec<u8>, alignment: usize)
    requires
        alignment == 1 || alignment == 2 || alignment == 4 || alignment == 8,
    ensures
        final(data)@ == old(data)@ + zeros(align_gap(old(data)@.len() as int, alignment as int)),
{
    let ghost gap = align_gap(old(data)@.len() as int, alignment as int);
    let mismatch = data.len() % alignment;
    proof {
        let a = alignment as int;
        let m = mismatch as int;
        assert(0 <= m < a);
        if m != 0 {
            assert((a - m) % a == a - m) by {
                vstd::arithmetic::div_mod::lemma_small_mod((a - m) as nat, a as nat);
            }
        } else {
            assert(a % a == 0) by {
                vstd::arithmetic::div_mod::lemma_mod_self_0(a);
            }
        }
    }
    if mismatch != 0 {
        let mut i: usize = mismatch;
        while i < alignment
            invariant
                mismatch <= i <= alignment,
                gap == alignment - mismatch,
                data@ == old(data)@ + zeros(i - mismatch),
            decreases alignment - i,
        {
            data.push(0);
            assert(data@ =~= old(data)@ + zeros(i + 1 - mismatch));
            i = i + 1;
        }
    } else {
        assert(data@ =~= old(data)@ + zeros(gap));
    }
}

/// Appends the little-endian bytes of an integer value.
fn deparse_leaf_value(data: &mut Vec<u8>, value: &MojomValue) -> (r: Result<(), MojomError>)
    ensures
        match value@ {
            ValueModel::Int(k, x) => r is Ok && final(data)@ == old(data)@ + le_bytes(
                leaf_wire_value(k, x),
                leaf_size(k),
            ),
            _ => r == Err::<(), MojomError>(MojomError::TypeMismatch) && final(data)@ == old(data)@,
        },
{
    proof {
        reveal_with_fuel(pow256, 9);
    }
    match value {
        MojomValue::Int8(v) => {
            let bits: u64 = if *v < 0 {
                (*v as i128 + 0x100) as u64
            } else {
                *v as u64
            };
            push_le(data, bits, 1);
        },
        MojomValue::UInt8(v) => push_le(data, *v as u64, 1),
        MojomValue::Int16(v) => {
            let bits: u64 = if *v < 0 {
                (*v as i128 + 0x1_0000) as u64
            } else {
                *v as u64
            };
            push_le(data, bits, 2);
        },
        MojomValue::UInt16(v) => push_le(data, *v as u64, 2),
        MojomValue::Int32(v) => {
            let bits: u64 = if *v < 0 {
                (*v as i128 + 0x1_0000_0000) as u64
            } else {
                *v as u64
            };
            push_le(data, bits, 4);
        },
        MojomValue::UInt32(v) => push_le(data, *v as u64, 4),
        MojomValue::Int64(v) => {
            let bits: u64 = if *v < 0 {
                (*v as i128 + 0x1_0000_0000_0000_0000) as u64
            } else {
                *v as u64
            };
            push_le(data, bits, 8);
        },
        MojomValue::UInt64(v) => push_le(data, *v as u64, 8),
        _ => {
            return Err(MojomError::TypeMismatch);
        },
    }
    Ok(())
}

/// Builds the byte of a bitfield from the booleans that its used slots name.
fn deparse_bitfield(field_values: &Vec<(String, MojomValue)>, ordinals: &[Option<Ordinal>; 8]) -> (r:
    Result<u8, MojomError>)
    ensures
        match bitfield_byte(ordinals@, struct_values(field_values@), used_slots(ordinals@)) {
            Ok(b) => r == Ok::<u8, MojomError>(b as u8) && b < 256,
            Err(e) => r == Err::<u8, MojomError>(e),
        },
{
    let ghost ords = ordinals@;
    let ghost vals = struct_values(field_values@);
    proof {
        lemma_struct_values(field_values@);
        lemma_first_empty_slot(ords, 0);
    }
    let mut bitfield: u32 = 0;
    let mut bit: u32 = 1;
    let mut idx: usize = 0;
    while idx < 8 && ordinals[idx].is_some()
        invariant
            0 <= idx <= 8,
            ords == ordinals@,
            ords.len() == 8,
            vals == struct_values(field_values@),
            vals.len() == field_values@.len(),
            forall|i: int| 0 <= i < field_values@.len() ==> #[trigger] vals[i] == field_values@[i].1@,
            forall|m: int| 0 <= m < idx ==> ords[m] is Some,
            bitfield_byte(ords, vals, idx as int) == Ok::<nat, MojomError>(bitfield as nat),
            bitfield < bit,
            bit as nat == pow2(idx as nat),
            bit <= 256,
        decreases 8 - idx,
    {
        let ordinal = ordinals[idx].unwrap();
        let ghost used = used_slots(ords);
        proof {
            lemma_first_empty_slot(ords, 0);
            lemma_pow2_mono(idx as nat, 7);
            reveal_with_fuel(pow2, 8);
            if first_empty_slot(ords, 0) is Some {
                assert(first_empty_slot(ords, 0)->0 > idx);
            }
            assert(used > idx);
        }
        match get_field_at_ordinal(field_values, ordinal) {
            Err(e) => {
                proof {
                    lemma_bitfield_err(ords, vals, idx + 1, used);
                }
                return Err(e);
            },
            Ok(v) => match v {
                MojomValue::Bool(b) => {
                    if *b {
                        bitfield = bitfield + bit;
                    }
                },
                _ => {
                    proof {
                        lemma_bitfield_err(ords, vals, idx + 1, used);
                    }
                    return Err(MojomError::TypeMismatch);
                },
            },
        }
        bit = bit * 2;
        idx = idx + 1;
    }
    proof {
        lemma_first_empty_slot(ords, 0);
        if idx < 8 {
            lemma_first_empty_slot_at(ords, 0, idx as int);
        }
        assert(used_slots(ords) == idx);
    }
    Ok(bitfield as u8)
}

/// Appends padding and the inline bytes of one struct element, and returns
/// the offset at which the element starts.
fn deparse_field(
    data: &mut Vec<u8>,
    field_values: &Vec<(String, MojomValue)>,
    packed_field: &MojomWireType,
) -> (r: Result<usize, MojomError>)
    ensures
        r matches Ok(start) ==> {
            &&& start == old(data)@.len() + align_gap(old(data)@.len() as int, packed_field@.size() as int)
            &&& item_bytes(packed_field@, struct_values(field_values@)) is Ok
            &&& final(data)@ == old(data)@ + zeros(
                align_gap(old(data)@.len() as int, packed_field@.size() as int),
            ) + item_bytes(packed_field@, struct_values(field_values@))->Ok_0
        },
        r matches Err(e) ==> item_bytes(packed_field@, struct_values(field_values@)) == Err::<Seq<u8>, MojomError>(e),
{
    proof {
        lemma_struct_values(field_values@);
        lemma_le_bytes_zero(8);
    }
    match packed_field {
        MojomWireType::Leaf { ordinal, .. } => {
            let v = match get_field_at_ordinal(field_values, *ordinal) {
                Ok(v) => v,
                Err(e) => return Err(e),
            };
            match check_value_has_expected_type(v, packed_field) {
                Ok(()) => {},
                Err(e) => return Err(e),
            }
            pad_to_alignment(data, packed_field.alignment());
            let start = data.len();
            let _ = deparse_leaf_value(data, v);
            Ok(start)
        },
        MojomWireType::Bitfield { ordinals } => match deparse_bitfield(field_values, ordinals) {
            Ok(b) => {
                let start = data.len();
                data.push(b);
                assert(data@ =~= old(data)@ + zeros(0) + seq![b]);
                Ok(start)
            },
            Err(e) => Err(e),
        },
        MojomWireType::Pointer { ordinal, .. } => {
            let v = match get_field_at_ordinal(field_values, *ordinal) {
                Ok(v) => v,
                Err(e) => return Err(e),
            };
            match check_value_has_expected_type(v, packed_field) {
                Ok(()) => {},
                Err(e) => return Err(e),
            }
            pad_to_alignment(data, 8);
            let start = data.len();
            push_le(data, 0, 8);
            Ok(start)
        },
    }
}

/// Appends padding and the inline bytes of array element `k`, and returns
/// the offset at which it starts.
fn deparse_element(
    data: &mut Vec<u8>,
    elements: &Vec<MojomValue>,
    k: usize,
    element_type: &MojomWireType,
) -> (r: Result<usize, MojomError>)
    requires
        k < elements@.len(),
    ensures
        r matches Ok(start) ==> {
            &&& start == old(data)@.len() + align_gap(old(data)@.len() as int, element_type@.size() as int)
            &&& item_bytes(with_ordinal(element_type@, k as int), elements_model(elements@)) is Ok
            &&& final(data)@ == old(data)@ + zeros(
                align_gap(old(data)@.len() as int, element_type@.size() as int),
            ) + item_bytes(with_ordinal(element_type@, k as int), elements_model(elements@))->Ok_0
        },
        r matches Err(e) ==> item_bytes(with_ordinal(element_type@, k as int), elements_model(elements@))
            == Err::<Seq<u8>, MojomError>(e),
{
    proof {
        lemma_elements_model(elements@);
        lemma_le_bytes_zero(8);
    }
    let v = &elements[k];
    match element_type {
        MojomWireType::Leaf { .. } => {
            match check_value_has_expected_type(v, element_type) {
                Ok(()) => {},
                Err(e) => return Err(e),
            }
            pad_to_alignment(data, element_type.alignment());
            let start = data.len();
            let _ = deparse_leaf_value(data, v);
            assert(elements_model(elements@)[k as int] == v@);
            assert(shape_matches(with_ordinal(element_type@, k as int), v@));
            Ok(start)
        },
        MojomWireType::Bitfield { .. } => {
            let ghost ords = seq![Some(k), None, None, None, None, None, None, None];
            proof {
                assert(first_empty_slot(ords, 1) == Some(1int));
                assert(used_slots(ords) == 1);
            }
            match v {
                MojomValue::Bool(b) => {
                    let start = data.len();
                    data.push(if *b { 1 } else { 0 });
                    proof {
                        assert(pow2(0) == 1);
                        assert(bitfield_byte(ords, elements_model(elements@), 0) == Ok::<nat, MojomError>(0nat));
                        assert(bitfield_byte(ords, elements_model(elements@), 1) == Ok::<nat, MojomError>(if *b { 1nat } else { 0nat }));
                    }
                    assert(data@ =~= old(data)@ + zeros(0) + seq![if *b { 1u8 } else { 0u8 }]);
                    Ok(start)
                },
                _ => Err(MojomError::TypeMismatch),
            }
        },
        MojomWireType::Pointer { .. } => {
            match check_value_has_expected_type(v, element_type) {
                Ok(()) => {},
                Err(e) => return Err(e),
            }
            pad_to_alignment(data, 8);
            let start = data.len();
            push_le(data, 0, 8);
            Ok(start)
        },
    }
}

/// A string's UTF-8 bytes as `UInt8` values.
fn string_elements(s: &String) -> (r: Vec<MojomValue>)
    ensures
        elements_model(r@) == utf8_values(s@),
{
    let bytes = s.as_str().as_bytes();
    let mut r: Vec<MojomValue> = Vec::new();
    let mut i: usize = 0;
    while i < bytes.len()
        invariant
            0 <= i <= bytes@.len(),
            bytes@ == vstd::utf8::encode_utf8(s@),
            r@.len() == i,
            forall|j: int| 0 <= j < i ==> #[trigger] r@[j] == MojomValue::UInt8(bytes@[j]),
        decreases bytes@.len() - i,
    {
        r.push(MojomValue::UInt8(bytes[i]));
        i = i + 1;
    }
    proof {
        lemma_elements_model(r@);
        assert(elements_model(r@) =~= utf8_values(s@));
    }
    r
}

/// Pads the block that starts at `base` to a multiple of 8 bytes and writes
/// its header: the block's length, then `word`.
fn close_block(data: &mut Vec<u8>, base: usize, word: usize)
    requires
        old(data)@.len() >= base + 8,
        base % 8 == 0,
    ensures
        final(data)@ == old(data)@.subrange(0, base as int) + block_with_header(
            old(data)@.subrange(base as int, old(data)@.len() as int),
            word as nat,
        ),
        final(data)@.len() % 8 == 0,
        final(data)@.len() >= old(data)@.len(),
{
    let ghost pre = old(data)@.subrange(0, base as int);
    let ghost acc = old(data)@.subrange(base as int, old(data)@.len() as int);
    proof {
        lemma_align_gap_shift(base as int, acc.len() as int, 8);
        lemma_block_with_header_len(acc, word as nat);
    }
    pad_to_alignment(data, 8);
    let ghost body = acc + zeros(align_gap(acc.len() as int, 8));
    assert(data@ =~= pre + body);
    let bytes_written = data.len() - base;
    proof {
        lemma_le_bytes_len(bytes_written as nat, 4);
        lemma_le_bytes_len(word as nat, 4);
        lemma_overwrite_after(pre, body, 0, le_bytes(bytes_written as nat, 4));
    }
    write_to_slice(data, base, 4, bytes_written as u64);
    let ghost body1 = crate::encoding::overwrite(body, 0, le_bytes(bytes_written as nat, 4));
    proof {
        crate::encoding::lemma_overwrite_len(body, 0, le_bytes(bytes_written as nat, 4));
        lemma_overwrite_after(pre, body1, 4, le_bytes(word as nat, 4));
    }
    write_to_slice(data, base + 4, 4, word as u64);
}

/// Appends the encoding of a struct with the given field values, laid out as
/// `packed_fields` says, followed by the blocks that its pointers refer to.
///
/// The output must start at a multiple of 8 bytes, as every block does. On
/// error the bytes appended so far are unspecified.
pub fn deparse_struct(
    data: &mut Vec<u8>,
    field_values: &Vec<(String, MojomValue)>,
    packed_fields: &Vec<(String, MojomWireType)>,
) -> (r: Result<(), MojomError>)
    requires
        old(data)@.len() % 8 == 0,
    ensures
        appended(
            old(data)@,
            final(data)@,
            r,
            serialize_struct_spec(layout_model(packed_fields@), field_values_model(field_values@)),
        ),
    decreases packed_fields, 1int,
{
    let ghost p = PointeeModel::Struct { fields: layout_model(packed_fields@) };
    let ghost vals = struct_values(field_values@);
    let ghost n = packed_fields@.len() as int;
    proof {
        lemma_layout_model(packed_fields@);
        lemma_struct_values(field_values@);
        lemma_le_bytes_zero(8);
    }
    let base = data.len();
    // The header: the size, filled in below, and the version, zero.
    push_le(data, 0, 8);
    assert(data@.subrange(base as int, data@.len() as int) =~= zeros(8));
    assert(data@.subrange(0, base as int) =~= old(data)@);
    let mut starts: Vec<usize> = Vec::new();
    let mut i: usize = 0;
    while i < packed_fields.len()
        invariant
            base == old(data)@.len(),
            base % 8 == 0,
            p == (PointeeModel::Struct { fields: layout_model(packed_fields@) }),
            n == packed_fields@.len(),
            layout_model(packed_fields@).len() == packed_fields@.len(),
            forall|j: int|
                0 <= j < packed_fields@.len() ==> #[trigger] layout_model(packed_fields@)[j] == (
                packed_fields@[j].0@,
                packed_fields@[j].1@,
            ),
            vals == struct_values(field_values@),
            0 <= i <= packed_fields@.len(),
            data@.len() >= base,
            data@.subrange(0, base as int) == old(data)@,
            inline_pass(p, vals, i as int) == Ok::<Seq<u8>, MojomError>(
                data@.subrange(base as int, data@.len() as int),
            ),
            starts@.len() == i,
            forall|j: int| 0 <= j < i ==> #[trigger] starts@[j] == item_start(p, j),
        decreases packed_fields@.len() - i,
    {
        let ghost acc = data@.subrange(base as int, data@.len() as int);
        let ghost w = packed_fields@[i as int].1@;
        proof {
            lemma_inline_pass_len(p, vals, i as int);
            lemma_item_start(p, i as int);
            lemma_align_gap_shift(base as int, acc.len() as int, w.size() as int);
        }
        match deparse_field(data, field_values, &packed_fields[i].1) {
            Err(e) => {
                proof {
                    lemma_inline_pass_err(p, vals, i + 1, n);
                }
                return Err(e);
            },
            Ok(start) => {
                proof {
                    let b = item_bytes(w, vals)->Ok_0;
                    assert(data@.subrange(base as int, data@.len() as int) =~= acc + zeros(
                        align_gap(acc.len() as int, w.size() as int),
                    ) + b);
                    assert(data@.subrange(0, base as int) =~= old(data)@);
                }
                starts.push(start - base);
            },
        }
        i = i + 1;
    }
    let ghost acc = data@.subrange(base as int, data@.len() as int);
    proof {
        lemma_inline_pass_len(p, vals, n);
        lemma_item_end_lower(p, n);
    }
    close_block(data, base, 0);
    let ghost hdr = with_header(p, acc, n);
    proof {
        lemma_block_with_header_len(acc, 0);
        assert(data@.subrange(base as int, data@.len() as int) =~= hdr);
    }
    assert(data@.subrange(0, base as int) =~= old(data)@);
    assert(block_values(ValueModel::Struct(field_values_model(field_values@))) == vals);
    assert(serialize_struct_spec(layout_model(packed_fields@), field_values_model(field_values@))
        == ser_nested(p, vals, n, hdr));
    deparse_struct_nested(data, base, field_values, packed_fields, &starts, Ghost(acc))
}

/// Appends the nested blocks of a struct whose inline part, `hdr`, ends
/// `data`, and fills in its pointers.
#[verifier::rlimit(40)]
fn deparse_struct_nested(
    data: &mut Vec<u8>,
    base: usize,
    field_values: &Vec<(String, MojomValue)>,
    packed_fields: &Vec<(String, MojomWireType)>,
    starts: &Vec<usize>,
    Ghost(acc): Ghost<Seq<u8>>,
) -> (r: Result<(), MojomError>)
    requires
        base % 8 == 0,
        old(data)@.len() >= base,
        old(data)@.len() % 8 == 0,
        inline_pass(
            PointeeModel::Struct { fields: layout_model(packed_fields@) },
            struct_values(field_values@),
            packed_fields@.len() as int,
        ) == Ok::<Seq<u8>, MojomError>(acc),
        old(data)@.subrange(base as int, old(data)@.len() as int) == with_header(
            PointeeModel::Struct { fields: layout_model(packed_fields@) },
            acc,
            packed_fields@.len() as int,
        ),
        starts@.len() == packed_fields@.len(),
        forall|j: int|
            0 <= j < packed_fields@.len() ==> #[trigger] starts@[j] == item_start(
                PointeeModel::Struct { fields: layout_model(packed_fields@) },
                j,
            ),
    ensures
        match ser_nested(
            PointeeModel::Struct { fields: layout_model(packed_fields@) },
            struct_values(field_values@),
            packed_fields@.len() as int,
            old(data)@.subrange(base as int, old(data)@.len() as int),
        ) {
            Ok(b) => r is Ok && final(data)@ == old(data)@.subrange(0, base as int) + b
                && final(data)@.len() % 8 == 0,
            Err(e) => r == Err::<(), MojomError>(e),
        },
    decreases packed_fields, 0int,
{
    let ghost p = PointeeModel::Struct { fields: layout_model(packed_fields@) };
    let ghost vals = struct_values(field_values@);
    let ghost n = packed_fields@.len() as int;
    let ghost pre = old(data)@.subrange(0, base as int);
    let ghost hdr = old(data)@.subrange(base as int, old(data)@.len() as int);
    proof {
        lemma_layout_model(packed_fields@);
        lemma_struct_values(field_values@);
        lemma_inline_pass_len(p, vals, n);
        lemma_item_end_lower(p, n);
        lemma_block_with_header_len(acc, 0);
    }
    let mut i: usize = 0;
    while i < packed_fields.len()
        invariant
            base % 8 == 0,
            p == (PointeeModel::Struct { fields: layout_model(packed_fields@) }),
            n == packed_fields@.len(),
            layout_model(packed_fields@).len() == packed_fields@.len(),
            forall|j: int|
                0 <= j < packed_fields@.len() ==> #[trigger] layout_model(packed_fields@)[j] == (
                packed_fields@[j].0@,
                packed_fields@[j].1@,
            ),
            vals == struct_values(field_values@),
            vals.len() == field_values@.len(),
            forall|j: int| 0 <= j < field_values@.len() ==> #[trigger] vals[j] == field_values@[j].1@,
            inline_pass(p, vals, n) == Ok::<Seq<u8>, MojomError>(acc),
            acc.len() == item_end(p, n),
            hdr.len() >= acc.len(),
            starts@.len() == n,
            forall|j: int| 0 <= j < n ==> #[trigger] starts@[j] == item_start(p, j),
            0 <= i <= packed_fields@.len(),
            data@.len() >= base + hdr.len(),
            data@.len() % 8 == 0,
            data@.subrange(0, base as int) == pre,
            pre.len() == base,
            base <= old(data)@.len(),
            hdr == old(data)@.subrange(base as int, old(data)@.len() as int),
            ser_nested(p, vals, i as int, hdr) == Ok::<Seq<u8>, MojomError>(
                data@.subrange(base as int, data@.len() as int),
            ),
        decreases packed_fields@.len() - i,
    {
        match &packed_fields[i].1 {
            MojomWireType::Pointer { ordinal, nested_data_type } => {
                proof {
                    lemma_inline_pass_ok(p, vals, i as int, n);
                    lemma_item_within(p, i as int, n);
                }
                let ghost cur = data@.subrange(base as int, data@.len() as int);
                let len = data.len();
                let ptr_loc = base + starts[i];
                let delta = len - ptr_loc;
                proof {
                    assert(pre + cur =~= data@);
                    lemma_le_bytes_len(delta as nat, 8);
                    lemma_overwrite_after(pre, cur, starts@[i as int] as int, le_bytes(delta as nat, 8));
                }
                write_to_slice(data, ptr_loc, 8, delta as u64);
                let ghost patched = data@;
                proof {
                    assert(block_item(p, i as int) == packed_fields@[i as int].1@);
                    assert(item_pointee(p, i as int) == nested_data_type@);
                    assert(vals[*ordinal as int] == field_values@[*ordinal as int].1@);
                    assert(patched.subrange(base as int, patched.len() as int) =~= crate::encoding::overwrite(
                        cur,
                        item_start(p, i as int),
                        le_bytes((cur.len() - item_start(p, i as int)) as nat, 8),
                    ));
                }
                match deparse_nested(data, &field_values[*ordinal].1, nested_data_type) {
                    Err(e) => {
                        proof {
                            assert(ser_nested(p, vals, i + 1, hdr) == Err::<Seq<u8>, MojomError>(e));
                            lemma_ser_nested_err(p, vals, i + 1, n, hdr);
                            assert(ser_nested(p, vals, n, hdr) == Err::<Seq<u8>, MojomError>(e));
                        }
                        return Err(e);
                    },
                    Ok(()) => {
                        assert(data@.subrange(0, base as int) =~= pre);
                        assert(data@.subrange(base as int, data@.len() as int) =~= patched.subrange(
                            base as int,
                            patched.len() as int,
                        ) + (ser_pointee(nested_data_type@, field_values@[*ordinal as int].1@)->Ok_0));
                    },
                }
            },
            _ => {},
        }
        i = i + 1;
    }
    assert(data@ =~= pre + data@.subrange(base as int, data@.len() as int));
    Ok(())
}


/// Appends the encoding of an array with the given elements, each packed as
/// `element_type`, followed by the blocks that its pointers refer to.
fn deparse_array(
    data: &mut Vec<u8>,
    elements: &Vec<MojomValue>,
    element_type: &MojomWireType,
    array_type: PackedArrayType,
) -> (r: Result<(), MojomError>)
    requires
        old(data)@.len() % 8 == 0,
    ensures
        appended(
            old(data)@,
            final(data)@,
            r,
            ser_pointee(array_pointee(element_type@, array_type), ValueModel::Array(elements_model(elements@))),
        ),
    decreases element_type, 1int,
{
    let ghost p = array_pointee(element_type@, array_type);
    let ghost vals = elements_model(elements@);
    let n = elements.len();
    proof {
        lemma_elements_model(elements@);
        lemma_le_bytes_zero(8);
    }
    match array_type {
        PackedArrayType::SizedArray(expected) => if n != expected {
            return Err(MojomError::TypeMismatch);
        },
        _ => {},
    }
    assert(pointee_accepts(p, ValueModel::Array(vals)));
    let base = data.len();
    // The header: the size, filled in below, and the number of elements.
    push_le(data, 0, 8);
    assert(data@.subrange(base as int, data@.len() as int) =~= zeros(8));
    assert(data@.subrange(0, base as int) =~= old(data)@);
    let mut starts: Vec<usize> = Vec::new();
    let mut k: usize = 0;
    while k < n
        invariant
            base == old(data)@.len(),
            base % 8 == 0,
            p == array_pointee(element_type@, array_type),
            pointee_accepts(p, ValueModel::Array(vals)),
            n == elements@.len(),
            vals == elements_model(elements@),
            vals.len() == n,
            0 <= k <= n,
            data@.len() >= base,
            data@.subrange(0, base as int) == old(data)@,
            inline_pass(p, vals, k as int) == Ok::<Seq<u8>, MojomError>(
                data@.subrange(base as int, data@.len() as int),
            ),
            starts@.len() == k,
            forall|j: int| 0 <= j < k ==> #[trigger] starts@[j] == item_start(p, j),
        decreases n - k,
    {
        let ghost acc = data@.subrange(base as int, data@.len() as int);
        proof {
            lemma_inline_pass_len(p, vals, k as int);
            lemma_item_start(p, k as int);
            lemma_align_gap_shift(base as int, acc.len() as int, element_type@.size() as int);
        }
        match deparse_element(data, elements, k, element_type) {
            Err(e) => {
                proof {
                    lemma_inline_pass_err(p, vals, k + 1, n as int);
                }
                return Err(e);
            },
            Ok(start) => {
                proof {
                    let b = item_bytes(with_ordinal(element_type@, k as int), vals)->Ok_0;
                    assert(data@.subrange(base as int, data@.len() as int) =~= acc + zeros(
                        align_gap(acc.len() as int, element_type@.size() as int),
                    ) + b);
                    assert(data@.subrange(0, base as int) =~= old(data)@);
                    assert(start - base == item_start(p, k as int));
                }
                starts.push(start - base);
            },
        }
        k = k + 1;
    }
    let ghost acc = data@.subrange(base as int, data@.len() as int);
    proof {
        lemma_inline_pass_len(p, vals, n as int);
        lemma_item_end_lower(p, n as int);
    }
    close_block(data, base, n);
    let ghost hdr = with_header(p, acc, n as int);
    proof {
        lemma_block_with_header_len(acc, n as nat);
        assert(data@.subrange(base as int, data@.len() as int) =~= hdr);
        assert(data@.subrange(0, base as int) =~= old(data)@);
    }
    match element_type {
        MojomWireType::Pointer { .. } => deparse_array_nested(
            data,
            base,
            elements,
            element_type,
            array_type,
            &starts,
            Ghost(acc),
        ),
        _ => {
            proof {
                lemma_ser_nested_no_pointers(p, vals, n as int, hdr);
                assert(data@ =~= old(data)@ + hdr);
            }
            Ok(())
        },
    }
}

/// Appends the nested blocks of an array whose inline part ends `data`, and
/// fills in its pointers.
#[verifier::rlimit(40)]
fn deparse_array_nested(
    data: &mut Vec<u8>,
    base: usize,
    elements: &Vec<MojomValue>,
    element_type: &MojomWireType,
    array_type: PackedArrayType,
    starts: &Vec<usize>,
    Ghost(acc): Ghost<Seq<u8>>,
) -> (r: Result<(), MojomError>)
    requires
        base % 8 == 0,
        old(data)@.len() >= base,
        old(data)@.len() % 8 == 0,
        element_type@ is Pointer,
        inline_pass(array_pointee(element_type@, array_type), elements_model(elements@), elements@.len() as int)
            == Ok::<Seq<u8>, MojomError>(acc),
        old(data)@.subrange(base as int, old(data)@.len() as int) == with_header(
            array_pointee(element_type@, array_type),
            acc,
            elements@.len() as int,
        ),
        starts@.len() == elements@.len(),
        forall|j: int|
            0 <= j < elements@.len() ==> #[trigger] starts@[j] == item_start(
                array_pointee(element_type@, array_type),
                j,
            ),
    ensures
        match ser_nested(
            array_pointee(element_type@, array_type),
            elements_model(elements@),
            elements@.len() as int,
            old(data)@.subrange(base as int, old(data)@.len() as int),
        ) {
            Ok(b) => r is Ok && final(data)@ == old(data)@.subrange(0, base as int) + b
                && final(data)@.len() % 8 == 0,
            Err(e) => r == Err::<(), MojomError>(e),
        },
    decreases element_type, 0int,
{
    let ghost p = array_pointee(element_type@, array_type);
    let ghost vals = elements_model(elements@);
    let ghost pre = old(data)@.subrange(0, base as int);
    let ghost hdr = old(data)@.subrange(base as int, old(data)@.len() as int);
    let n = elements.len();
    proof {
        lemma_elements_model(elements@);
        lemma_inline_pass_len(p, vals, n as int);
        lemma_item_end_lower(p, n as int);
        lemma_block_with_header_len(acc, n as nat);
    }
    match element_type {
        MojomWireType::Pointer { ordinal, nested_data_type } => {
    let mut k: usize = 0;
    while k < n
        invariant
            base % 8 == 0,
            p == array_pointee(element_type@, array_type),
            element_type@ == (WireModel::Pointer {
                ordinal: element_type@->Pointer_ordinal,
                pointee: nested_data_type@,
            }),
            n == elements@.len(),
            vals == elements_model(elements@),
            vals.len() == n,
            forall|j: int| 0 <= j < n ==> #[trigger] vals[j] == elements@[j]@,
            inline_pass(p, vals, n as int) == Ok::<Seq<u8>, MojomError>(acc),
            acc.len() == item_end(p, n as int),
            hdr.len() >= acc.len(),
            starts@.len() == n,
            forall|j: int| 0 <= j < n ==> #[trigger] starts@[j] == item_start(p, j),
            0 <= k <= n,
            data@.len() >= base + hdr.len(),
            data@.len() % 8 == 0,
            data@.subrange(0, base as int) == pre,
            pre.len() == base,
            base <= old(data)@.len(),
            hdr == old(data)@.subrange(base as int, old(data)@.len() as int),
            *element_type == (MojomWireType::Pointer { ordinal: *ordinal, nested_data_type: *nested_data_type }),
            ser_nested(p, vals, k as int, hdr) == Ok::<Seq<u8>, MojomError>(
                data@.subrange(base as int, data@.len() as int),
            ),
        decreases n - k,
    {
        proof {
            lemma_inline_pass_ok(p, vals, k as int, n as int);
            lemma_item_within(p, k as int, n as int);
        }
        let ghost cur = data@.subrange(base as int, data@.len() as int);
        let len = data.len();
        let ptr_loc = base + starts[k];
        let delta = len - ptr_loc;
        proof {
            assert(pre + cur =~= data@);
            lemma_le_bytes_len(delta as nat, 8);
            lemma_overwrite_after(pre, cur, starts@[k as int] as int, le_bytes(delta as nat, 8));
        }
        write_to_slice(data, ptr_loc, 8, delta as u64);
        let ghost patched = data@;
        proof {
            assert(block_item(p, k as int) == (WireModel::Pointer {
                ordinal: k as usize,
                pointee: nested_data_type@,
            }));
            assert(item_pointee(p, k as int) == nested_data_type@);
            assert(patched.subrange(base as int, patched.len() as int) =~= crate::encoding::overwrite(
                cur,
                item_start(p, k as int),
                le_bytes((cur.len() - item_start(p, k as int)) as nat, 8),
            ));
        }
        match deparse_nested(data, &elements[k], nested_data_type) {
            Err(e) => {
                proof {
                    assert(ser_nested(p, vals, k + 1, hdr) == Err::<Seq<u8>, MojomError>(e));
                    lemma_ser_nested_err(p, vals, k + 1, n as int, hdr);
                }
                return Err(e);
            },
            Ok(()) => {
                assert(data@.subrange(0, base as int) =~= pre);
                assert(data@.subrange(base as int, data@.len() as int) =~= patched.subrange(
                    base as int,
                    patched.len() as int,
                ) + (ser_pointee(nested_data_type@, elements@[k as int]@)->Ok_0));
            },
        }
        k = k + 1;
    }
    assert(data@ =~= pre + data@.subrange(base as int, data@.len() as int));
    Ok(())
        },
        _ => Ok(()),
    }
}

/// Appends the block that `pointee` describes, holding `value`.
fn deparse_nested(data: &mut Vec<u8>, value: &MojomValue, pointee: &PackedStructuredType) -> (r:
    Result<(), MojomError>)
    requires
        old(data)@.len() % 8 == 0,
    ensures
        appended(old(data)@, final(data)@, r, ser_pointee(pointee@, value@)),
    decreases pointee, 0int,
{
    match pointee {
        PackedStructuredType::Struct { packed_field_types } => match value {
            MojomValue::Struct(field_values) => deparse_struct(data, field_values, packed_field_types),
            _ => Err(MojomError::TypeMismatch),
        },
        PackedStructuredType::Array { element_type, array_type } => match value {
            MojomValue::Array(elements) => deparse_array(data, elements, element_type, *array_type),
            // A string goes on the wire as the array of its UTF-8 bytes.
            MojomValue::String(s) => {
                let elements = string_elements(s);
                deparse_array(data, &elements, element_type, *array_type)
            },
            _ => Err(MojomError::TypeMismatch),
        },
    }
}

} // verus!
