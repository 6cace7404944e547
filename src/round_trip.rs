//! Reading back what the serializer wrote.
use vstd::prelude::*;

use crate::ast::{leaf_size, MojomError, PackedLeafType, PointeeModel, TypeModel, ValueModel, WireModel};
use crate::pack::{Placed, placement, place_field, pack_type_spec, pack_struct_spec};
use crate::encoding::{le_bytes, pow256};
use crate::pack::align_gap;
use crate::parse_values::{
    bit_of, bitfield_writes, fits_leaf, initial_entries, item_effect, item_error, item_name,
    entry_count, layout_carries, layout_dense, element_carries, slot_carries, carries_any,
    lemma_bitfield_round_trip, lemma_leaf_round_trip, max_ordinal, parse_front, parse_inline,
    parse_item_end, parse_item_start, parse_struct_spec, read_leaf, slots_max,
};
use crate::wire_format::{
    bitfield_byte, block_item, block_values, inline_pass, item_bytes, item_end, item_start,
    leaf_wire_value, lemma_inline_bytes_at, lemma_inline_pass_len, lemma_inline_pass_ok,
    lemma_item_end_lower, lemma_item_start, lemma_item_within, shape_matches, used_slots,
};

verus! {

/// Parsing a block that starts at offset 0 finds its elements where the
/// serializer put them.
pub proof fn lemma_parse_positions(p: PointeeModel, k: int)
    requires
        k >= 0,
    ensures
        parse_item_end(0, p, k) == item_end(p, k),
        parse_item_start(0, p, k) == item_start(p, k),
    decreases k,
{
    if k > 0 {
        lemma_parse_positions(p, k - 1);
    }
    lemma_item_start(p, k);
}

/// Entry `o` of `res` holds the value of field `o`.
pub open spec fn agrees(res: Seq<(Seq<char>, ValueModel)>, vals: Seq<ValueModel>, o: int) -> bool {
    0 <= o < res.len() && o < vals.len() && res[o].1 == vals[o]
}

proof fn lemma_bitfield_writes_agree(
    res: Seq<(Seq<char>, ValueModel)>,
    vals: Seq<ValueModel>,
    ords: Seq<Option<usize>>,
    name: Seq<char>,
    b: u8,
    j: int,
)
    requires
        0 <= j,
        forall|i: int|
            0 <= i < j ==> {
                &&& (#[trigger] ords[i]) is Some
                &&& ords[i]->Some_0 < res.len()
                &&& ords[i]->Some_0 < vals.len()
                &&& vals[ords[i]->Some_0 as int] is Bool
                &&& bit_of(b, i) == vals[ords[i]->Some_0 as int]->Bool_0
            },
    ensures
        bitfield_writes(res, ords, name, b, j).len() == res.len(),
        forall|o: int| agrees(res, vals, o) ==> #[trigger] agrees(bitfield_writes(res, ords, name, b, j), vals, o),
        forall|i: int| 0 <= i < j ==> agrees(bitfield_writes(res, ords, name, b, j), vals, #[trigger] ords[i]->Some_0 as int),
    decreases j,
{
    if j > 0 {
        lemma_bitfield_writes_agree(res, vals, ords, name, b, j - 1);
        let prev = bitfield_writes(res, ords, name, b, j - 1);
        let o = ords[j - 1]->Some_0 as int;
        assert(vals[o] == ValueModel::Bool(bit_of(b, j - 1)));
        assert forall|o2: int| agrees(res, vals, o2) implies #[trigger] agrees(bitfield_writes(res, ords, name, b, j), vals, o2) by {
            assert(agrees(prev, vals, o2));
        }
        assert forall|i: int| 0 <= i < j implies agrees(bitfield_writes(res, ords, name, b, j), vals, #[trigger] ords[i]->Some_0 as int) by {
            if i < j - 1 {
                assert(agrees(prev, vals, ords[i]->Some_0 as int));
            }
        }
    }
}

/// The fields that the first `k` elements of a layout name agree with `vals`.
pub open spec fn elements_agree(
    res: Seq<(Seq<char>, ValueModel)>,
    vals: Seq<ValueModel>,
    layout: Seq<(Seq<char>, WireModel)>,
    k: int,
) -> bool {
    &&& forall|j: int|
        0 <= j < k && (#[trigger] layout[j]).1 is Leaf ==> agrees(res, vals, layout[j].1->Leaf_ordinal as int)
    &&& forall|j: int, i: int|
        0 <= j < k && layout[j].1 is Bitfield && 0 <= i < used_slots(layout[j].1->Bitfield_ordinals)
            ==> agrees(res, vals, (#[trigger] layout[j].1->Bitfield_ordinals[i])->Some_0 as int)
}

proof fn lemma_bitfield_byte_ok(ords: Seq<Option<usize>>, vals: Seq<ValueModel>, j: int)
    requires
        bitfield_byte(ords, vals, j) is Ok,
    ensures
        forall|i: int|
            0 <= i < j ==> (#[trigger] ords[i])->Some_0 < vals.len() && vals[ords[i]->Some_0 as int] is Bool,
    decreases j,
{
    if j > 0 {
        lemma_bitfield_byte_ok(ords, vals, j - 1);
    }
}

/// Bitfields of the layout have at most eight slots, and no element is a
/// pointer.
pub open spec fn flat_layout(layout: Seq<(Seq<char>, WireModel)>) -> bool {
    forall|j: int|
        0 <= j < layout.len() ==> !((#[trigger] layout[j]).1 is Pointer) && (layout[j].1 is Bitfield
            ==> layout[j].1->Bitfield_ordinals.len() <= 8)
}

/// Every integer among `vals` is a value of its kind.
pub open spec fn leaves_fit(vals: Seq<ValueModel>) -> bool {
    forall|o: int| 0 <= o < vals.len() && (#[trigger] vals[o]) is Int ==> fits_leaf(vals[o]->Int_0, vals[o]->Int_1)
}

/// Reading element `k - 1` keeps the agreement of the elements before it and
/// extends it to that element.
#[verifier::spinoff_prover]
proof fn lemma_step_agrees(
    b: Seq<u8>,
    layout: Seq<(Seq<char>, WireModel)>,
    vals: Seq<ValueModel>,
    res: Seq<(Seq<char>, ValueModel)>,
    k: int,
)
    requires
        0 < k <= layout.len(),
        flat_layout(layout),
        leaves_fit(vals),
        elements_agree(res, vals, layout, k - 1),
        crate::parse_values::ordinals_at_most(layout[k - 1].1, res.len() - 1),
        item_bytes(layout[k - 1].1, vals) is Ok,
        parse_item_start(0, PointeeModel::Struct { fields: layout }, k - 1) == item_start(
            PointeeModel::Struct { fields: layout },
            k - 1,
        ),
        0 <= item_start(PointeeModel::Struct { fields: layout }, k - 1),
        item_start(PointeeModel::Struct { fields: layout }, k - 1) + layout[k - 1].1.size() <= b.len(),
        b.subrange(
            item_start(PointeeModel::Struct { fields: layout }, k - 1),
            item_start(PointeeModel::Struct { fields: layout }, k - 1) + layout[k - 1].1.size(),
        ) == item_bytes(layout[k - 1].1, vals)->Ok_0,
    ensures
        item_effect(b, 0, PointeeModel::Struct { fields: layout }, res, k - 1).len() == res.len(),
        elements_agree(item_effect(b, 0, PointeeModel::Struct { fields: layout }, res, k - 1), vals, layout, k),
{
    let p = PointeeModel::Struct { fields: layout };
    let w = layout[k - 1].1;
    let st = item_start(p, k - 1);
    let res2 = item_effect(b, 0, p, res, k - 1);
    assert(block_item(p, k - 1) == w);
    match w {
        WireModel::Leaf { ordinal, leaf_type } => {
            let x = vals[ordinal as int]->Int_1;
            assert(b.subrange(st, st + leaf_size(leaf_type)) == le_bytes(leaf_wire_value(leaf_type, x), leaf_size(leaf_type)));
            lemma_leaf_round_trip(leaf_type, x);
            assert(res2 == res.update(
                ordinal as int,
                (item_name(p, k - 1), ValueModel::Int(leaf_type, read_leaf(b.subrange(st, st + leaf_size(leaf_type)), leaf_type))),
            ));
            assert(res2[ordinal as int].1 == vals[ordinal as int]);
            assert forall|j: int|
                0 <= j < k && (#[trigger] layout[j]).1 is Leaf implies agrees(res2, vals, layout[j].1->Leaf_ordinal as int) by {
                if j < k - 1 {
                    assert(agrees(res, vals, layout[j].1->Leaf_ordinal as int));
                }
            }
            assert forall|j: int, i: int|
                0 <= j < k && layout[j].1 is Bitfield && 0 <= i < used_slots(layout[j].1->Bitfield_ordinals)
                    implies agrees(res2, vals, (#[trigger] layout[j].1->Bitfield_ordinals[i])->Some_0 as int) by {
                assert(agrees(res, vals, layout[j].1->Bitfield_ordinals[i]->Some_0 as int));
            }
        },
        WireModel::Bitfield { ordinals } => {
            let used = used_slots(ordinals);
            crate::pack::lemma_first_empty_slot(ordinals, 0);
            lemma_bitfield_byte_ok(ordinals, vals, used);
            lemma_bitfield_round_trip(ordinals, vals, used);
            let byte = bitfield_byte(ordinals, vals, used)->Ok_0;
            assert(b[st] == byte as u8) by {
                assert(b.subrange(st, st + 1)[0] == b[st]);
            }
            assert(res2 == bitfield_writes(res, ordinals, item_name(p, k - 1), b[st], used));
            lemma_bitfield_writes_agree(res, vals, ordinals, item_name(p, k - 1), b[st], used);
            assert forall|j: int|
                0 <= j < k && (#[trigger] layout[j]).1 is Leaf implies agrees(res2, vals, layout[j].1->Leaf_ordinal as int) by {
                assert(agrees(res, vals, layout[j].1->Leaf_ordinal as int));
            }
            assert forall|j: int, i: int|
                0 <= j < k && layout[j].1 is Bitfield && 0 <= i < used_slots(layout[j].1->Bitfield_ordinals)
                    implies agrees(res2, vals, (#[trigger] layout[j].1->Bitfield_ordinals[i])->Some_0 as int) by {
                if j < k - 1 {
                    assert(agrees(res, vals, layout[j].1->Bitfield_ordinals[i]->Some_0 as int));
                }
            }
        },
        WireModel::Pointer { .. } => {},
    }
}

/// Reading the inline elements of a pointer-free struct block that starts at
/// offset 0 recovers the value of every field that an element names.
proof fn lemma_parse_inline_agrees(
    b: Seq<u8>,
    layout: Seq<(Seq<char>, WireModel)>,
    vals: Seq<ValueModel>,
    k: int,
)
    requires
        0 <= k <= layout.len(),
        flat_layout(layout),
        leaves_fit(vals),
        inline_pass(PointeeModel::Struct { fields: layout }, vals, layout.len() as int) is Ok,
        item_end(PointeeModel::Struct { fields: layout }, layout.len() as int) <= b.len(),
        forall|j: int|
            0 <= j < layout.len() ==> b.subrange(
                item_start(PointeeModel::Struct { fields: layout }, j),
                item_start(PointeeModel::Struct { fields: layout }, j) + layout[j].1.size(),
            ) == item_bytes(#[trigger] layout[j].1, vals)->Ok_0,
    ensures
        parse_inline(b, 0, PointeeModel::Struct { fields: layout }, k, initial_entries(PointeeModel::Struct { fields: layout }))
            matches Ok(res) && res.len() == entry_count(layout)
            && elements_agree(res, vals, layout, k),
    decreases k,
{
    let p = PointeeModel::Struct { fields: layout };
    let n = layout.len() as int;
    crate::parse_values::lemma_entries_cover(layout);
    if k == 0 {
        assert(initial_entries(p).len() == entry_count(layout));
    } else {
        lemma_parse_inline_agrees(b, layout, vals, k - 1);
        let res = parse_inline(b, 0, p, k - 1, initial_entries(p))->Ok_0;
        let w = layout[k - 1].1;
        lemma_parse_positions(p, k - 1);
        lemma_item_within(p, k - 1, n);
        lemma_inline_pass_ok(p, vals, k - 1, n);
        assert(block_item(p, k - 1) == w);
        assert(crate::parse_values::ordinals_at_most(w, entry_count(layout) - 1));
        assert(item_error(b, 0, p, k - 1) is None);
        lemma_step_agrees(b, layout, vals, res, k);
    }
}

proof fn lemma_max_ordinal_below(layout: Seq<(Seq<char>, WireModel)>, k: int, v: int)
    requires
        0 <= k <= layout.len(),
        v >= 0,
        forall|j: int| 0 <= j < k ==> crate::parse_values::ordinals_at_most(#[trigger] layout[j].1, v),
    ensures
        max_ordinal(layout, k) <= v,
    decreases k,
{
    if k > 0 {
        lemma_max_ordinal_below(layout, k - 1, v);
        assert(crate::parse_values::ordinals_at_most(layout[k - 1].1, v));
        if let WireModel::Bitfield { ordinals } = layout[k - 1].1 {
            lemma_slots_max_below(ordinals, used_slots(ordinals), max_ordinal(layout, k - 1), v);
        }
    }
}

proof fn lemma_slots_max_below(ords: Seq<Option<usize>>, j: int, m: int, v: int)
    requires
        m <= v,
        forall|i: int| 0 <= i < j ==> (#[trigger] ords[i])->Some_0 <= v,
    ensures
        slots_max(ords, j, m) <= v,
    decreases j,
{
    if j > 0 {
        lemma_slots_max_below(ords, j - 1, m, v);
    }
}

/// Parsing the bytes of a struct whose layout holds no pointer, serialized
/// from offset 0, reads the whole block and gives back, for every field that
/// an element of the layout names, the value that was written (the names of
/// the entries come from the layout). This needs a layout that leaves no
/// ordinal below its highest uncarried, the inline part to fit the 32-bit
/// size field, every integer to be a value of its kind, and fewer fields than
/// `usize::MAX`.
#[verifier::spinoff_prover]
#[verifier::rlimit(50)]
pub proof fn lemma_round_trip_without_pointers(
    layout: Seq<(Seq<char>, WireModel)>,
    values: Seq<(Seq<char>, ValueModel)>,
)
    requires
        flat_layout(layout),
        layout_dense(layout),
        leaves_fit(block_values(ValueModel::Struct(values))),
        crate::wire_format::serialize_struct_spec(layout, values) is Ok,
        crate::wire_format::inline_length(PointeeModel::Struct { fields: layout }, layout.len() as int) < pow256(4),
        values.len() < usize::MAX,
    ensures
        ({
            let b = crate::wire_format::serialize_struct_spec(layout, values)->Ok_0;
            parse_struct_spec(b, 0, layout) matches Ok((res, end)) && end == b.len() && res.len()
                == entry_count(layout) && elements_agree(
                res,
                block_values(ValueModel::Struct(values)),
                layout,
                layout.len() as int,
            )
        }),
{
    let p = PointeeModel::Struct { fields: layout };
    let v = ValueModel::Struct(values);
    let vals = block_values(v);
    let n = layout.len() as int;
    let acc = inline_pass(p, vals, n)->Ok_0;
    let b = crate::wire_format::serialize_struct_spec(layout, values)->Ok_0;
    lemma_inline_pass_len(p, vals, n);
    lemma_item_end_lower(p, n);
    crate::wire_format::lemma_block_with_header_len(acc, 0);
    assert forall|j: int| 0 <= j < n implies !(#[trigger] block_item(p, j) is Pointer) by {
        assert(block_item(p, j) == layout[j].1);
    }
    crate::wire_format::lemma_ser_nested_no_pointers(p, vals, n, crate::wire_format::with_header(p, acc, n));
    assert(b == crate::wire_format::with_header(p, acc, n));
    crate::wire_format::lemma_header_size(p, v);
    lemma_inline_bytes_at(p, vals, n);
    let body = acc + crate::encoding::zeros(align_gap(acc.len() as int, 8));
    crate::encoding::lemma_le_bytes_len(body.len(), 4);
    crate::encoding::lemma_le_bytes_len(0, 4);
    assert forall|j: int|
        0 <= j < n implies b.subrange(item_start(p, j), item_start(p, j) + layout[j].1.size()) == item_bytes(
        #[trigger] layout[j].1,
        vals,
    )->Ok_0 by {
        assert(block_item(p, j) == layout[j].1);
        lemma_item_within(p, j, n);
        let st = item_start(p, j);
        let e = st + layout[j].1.size();
        assert(b.subrange(st, e) =~= acc.subrange(st, e));
    }
    // Every ordinal is below the number of fields.
    assert forall|j: int| 0 <= j < n implies crate::parse_values::ordinals_at_most(
        #[trigger] layout[j].1,
        values.len() - 1,
    ) by {
        lemma_inline_pass_ok(p, vals, j, n);
        assert(block_item(p, j) == layout[j].1);
        if let WireModel::Bitfield { ordinals } = layout[j].1 {
            lemma_bitfield_byte_ok(ordinals, vals, used_slots(ordinals));
        }
    }
    if n > 0 {
        lemma_inline_pass_ok(p, vals, 0, n);
        assert(block_item(p, 0) == layout[0].1);
        if let WireModel::Bitfield { ordinals } = layout[0].1 {
            lemma_bitfield_byte_ok(ordinals, vals, used_slots(ordinals));
            crate::pack::lemma_first_empty_slot(ordinals, 0);
        }
        assert(values.len() >= 1 || used_slots(layout[0].1->Bitfield_ordinals) == 0);
    }
    if values.len() >= 1 {
        lemma_max_ordinal_below(layout, n, values.len() - 1);
    } else {
        assert forall|j: int| 0 <= j < n implies crate::parse_values::ordinals_at_most(
            #[trigger] layout[j].1,
            0,
        ) by {
            lemma_inline_pass_ok(p, vals, j, n);
            assert(block_item(p, j) == layout[j].1);
            if let WireModel::Bitfield { ordinals } = layout[j].1 {
                lemma_bitfield_byte_ok(ordinals, vals, used_slots(ordinals));
            }
        }
        lemma_max_ordinal_below(layout, n, 0);
    }
    lemma_parse_inline_agrees(b, layout, vals, n);
    lemma_parse_positions(p, n);
    crate::parse_values::lemma_parse_nested_no_pointers(
        b,
        0,
        p,
        n,
        b.len() as int,
        parse_inline(b, 0, p, n, initial_entries(p))->Ok_0,
    );
}

// ---------------------------------------------------------------------------
// What the packer produces for structs of scalars
// ---------------------------------------------------------------------------

/// Every field is a boolean or an integer.
pub open spec fn scalar_fields(fields: Seq<(Seq<char>, TypeModel)>) -> bool {
    forall|i: int| 0 <= i < fields.len() ==> (#[trigger] fields[i]).1 is Bool || fields[i].1 is Leaf
}

/// Element `w` carries field `o`.
pub open spec fn carries(w: WireModel, o: int) -> bool {
    match w {
        WireModel::Leaf { ordinal, .. } => ordinal == o,
        WireModel::Pointer { ordinal, .. } => ordinal == o,
        WireModel::Bitfield { ordinals } => exists|i: int|
            0 <= i < used_slots(ordinals) && (#[trigger] ordinals[i]) == Some(o as usize),
    }
}

/// Element `w` is a leaf or a bitfield of eight contiguous slots, and names
/// only fields below `m` of its own kind.
pub open spec fn elem_ok(fields: Seq<(Seq<char>, TypeModel)>, w: WireModel, m: int) -> bool {
    match w {
        WireModel::Leaf { ordinal, leaf_type } => ordinal < m && fields[ordinal as int].1 == TypeModel::Leaf(
            leaf_type,
        ),
        WireModel::Bitfield { ordinals } => ordinals.len() == 8 && crate::pack::slots_contiguous(ordinals)
            && forall|i: int|
            0 <= i < used_slots(ordinals) ==> (#[trigger] ordinals[i]) is Some && ordinals[i]->Some_0 < m
                && fields[ordinals[i]->Some_0 as int].1 is Bool,
        WireModel::Pointer { .. } => false,
    }
}

/// What the placement of the first `m` scalar fields holds: every element
/// is well formed, and every field below `m` is carried by some element.
pub open spec fn scalar_placement_ok(fields: Seq<(Seq<char>, TypeModel)>, l: Seq<Placed>, m: int) -> bool {
    &&& forall|j: int| 0 <= j < l.len() ==> elem_ok(fields, (#[trigger] l[j]).elem, m)
    &&& forall|o: int| 0 <= o < m ==> #[trigger] covered(l, o)
}

/// Some placed element carries field `o`.
pub open spec fn covered(l: Seq<Placed>, o: int) -> bool {
    exists|j: int| 0 <= j < l.len() && #[trigger] carries(l[j].elem, o)
}

/// The element that a new scalar field packs into is well formed and
/// carries the field.
proof fn lemma_new_elem(fields: Seq<(Seq<char>, TypeModel)>, m: int)
    requires
        0 <= m < fields.len(),
        m < usize::MAX,
        scalar_fields(fields),
    ensures
        elem_ok(fields, pack_type_spec(fields[m].1, m as usize), m + 1),
        carries(pack_type_spec(fields[m].1, m as usize), m),
{
    let e = pack_type_spec(fields[m].1, m as usize);
    assert(fields[m].1 is Bool || fields[m].1 is Leaf);
    if fields[m].1 is Bool {
        let ords = e->Bitfield_ordinals;
        assert(crate::pack::first_empty_slot(ords, 1) == Some(1int));
        assert(used_slots(ords) == 1);
        assert(carries(e, m) ) by {
            assert(ords[0] == Some(m as usize));
        }
    }
}

/// Each element stays well formed when the bound grows.
proof fn lemma_elem_ok_grows(fields: Seq<(Seq<char>, TypeModel)>, w: WireModel, m: int)
    requires
        elem_ok(fields, w, m),
    ensures
        elem_ok(fields, w, m + 1),
{
}

/// Filling the first empty slot of a well formed bitfield with field `m`.
proof fn lemma_fill_slot(fields: Seq<(Seq<char>, TypeModel)>, ords: Seq<Option<usize>>, m: int)
    requires
        elem_ok(fields, WireModel::Bitfield { ordinals: ords }, m),
        crate::pack::first_empty_slot(ords, 0) is Some,
        0 <= m < fields.len(),
        m < usize::MAX,
        fields[m].1 is Bool,
    ensures
        ({
            let k = crate::pack::first_empty_slot(ords, 0)->0;
            let ords2 = ords.update(k, Some(m as usize));
            &&& elem_ok(fields, WireModel::Bitfield { ordinals: ords2 }, m + 1)
            &&& carries(WireModel::Bitfield { ordinals: ords2 }, m)
            &&& forall|o: int| carries(WireModel::Bitfield { ordinals: ords }, o) ==> #[trigger] carries(
                WireModel::Bitfield { ordinals: ords2 },
                o,
            )
        }),
{
    crate::pack::lemma_first_empty_slot(ords, 0);
    let k = crate::pack::first_empty_slot(ords, 0)->0;
    let ords2 = ords.update(k, Some(m as usize));
    assert(used_slots(ords) == k);
    assert(crate::pack::slots_contiguous(ords2)) by {
        assert forall|a: int, b: int| 0 <= a < b < ords2.len() && ords2[a] is None implies ords2[b] is None by {
            assert(ords[a] is None);
            assert(a > k);
        }
    }
    if k + 1 < 8 {
        assert(ords[k + 1] is None);
        crate::pack::lemma_first_empty_slot_at(ords2, 0, k + 1);
    } else {
        crate::pack::lemma_first_empty_slot(ords2, 0);
    }
    assert(used_slots(ords2) == k + 1);
    assert forall|i: int| 0 <= i < used_slots(ords2) implies (#[trigger] ords2[i]) is Some && ords2[i]->Some_0 < m + 1
        && fields[ords2[i]->Some_0 as int].1 is Bool by {
        if i < k {
            assert(ords2[i] == ords[i]);
        }
    }
    assert(carries(WireModel::Bitfield { ordinals: ords2 }, m)) by {
        assert(ords2[k] == Some(m as usize));
    }
    assert forall|o: int| carries(WireModel::Bitfield { ordinals: ords }, o) implies #[trigger] carries(
        WireModel::Bitfield { ordinals: ords2 },
        o,
    ) by {
        let i = choose|i: int| 0 <= i < used_slots(ords) && (#[trigger] ords[i]) == Some(o as usize);
        assert(ords2[i] == Some(o as usize));
    }
}

/// Placing scalar field `m` keeps the placement well formed and carries it.
#[verifier::spinoff_prover]
proof fn lemma_place_scalar(fields: Seq<(Seq<char>, TypeModel)>, l: Seq<Placed>, m: int)
    requires
        0 <= m < fields.len(),
        m < usize::MAX,
        scalar_fields(fields),
        scalar_placement_ok(fields, l, m),
    ensures
        scalar_placement_ok(
            fields,
            place_field(l, m as usize, fields[m].0, fields[m].1 is Bool, pack_type_spec(fields[m].1, m as usize)),
            m + 1,
        ),
{
    let e = pack_type_spec(fields[m].1, m as usize);
    let is_bool = fields[m].1 is Bool;
    let l2 = place_field(l, m as usize, fields[m].0, is_bool, e);
    lemma_new_elem(fields, m);
    crate::pack::lemma_first_free_bitfield(l, 0);
    crate::pack::lemma_first_hole(l, e.size() as int, 1);
    if is_bool && crate::pack::first_free_bitfield(l, 0) is Some {
        let i = crate::pack::first_free_bitfield(l, 0)->0;
        let ords = l[i].elem->Bitfield_ordinals;
        assert(elem_ok(fields, l[i].elem, m));
        assert(l[i].elem is Bitfield);
        lemma_fill_slot(fields, ords, m);
        let ords2 = ords.update(crate::pack::first_empty_slot(ords, 0)->0, Some(m as usize));
        assert(l2[i].elem == WireModel::Bitfield { ordinals: ords2 });
        assert forall|j: int| 0 <= j < l2.len() implies elem_ok(fields, (#[trigger] l2[j]).elem, m + 1) by {
            if j != i {
                assert(elem_ok(fields, l[j].elem, m));
                lemma_elem_ok_grows(fields, l[j].elem, m);
            }
        }
        assert forall|o: int| 0 <= o < m + 1 implies #[trigger] covered(l2, o) by {
            if o < m {
                assert(covered(l, o));
                let j = choose|j: int| 0 <= j < l.len() && #[trigger] carries(l[j].elem, o);
                if j == i {
                    assert(carries(l2[i].elem, o));
                } else {
                    assert(carries(l2[j].elem, o));
                }
            } else {
                assert(carries(l2[i].elem, o));
            }
        }
    } else if crate::pack::first_hole(l, e.size() as int, 1) is Some {
        let i = crate::pack::first_hole(l, e.size() as int, 1)->0;
        let start = l[i - 1].end() + align_gap(l[i - 1].end(), e.size() as int);
        let x = Placed { name: fields[m].0, elem: e, start };
        assert(l2 == l.insert(i, x));
        l.insert_ensures(i, x);
        assert forall|j: int| 0 <= j < l2.len() implies elem_ok(fields, (#[trigger] l2[j]).elem, m + 1) by {
            if j < i {
                assert(elem_ok(fields, l[j].elem, m));
                lemma_elem_ok_grows(fields, l[j].elem, m);
            } else if j > i {
                assert(l2[j] == l[j - 1]);
                assert(elem_ok(fields, l[j - 1].elem, m));
                lemma_elem_ok_grows(fields, l[j - 1].elem, m);
            }
        }
        assert forall|o: int| 0 <= o < m + 1 implies #[trigger] covered(l2, o) by {
            if o < m {
                assert(covered(l, o));
                let j = choose|j: int| 0 <= j < l.len() && #[trigger] carries(l[j].elem, o);
                if j < i {
                    assert(carries(l2[j].elem, o));
                } else {
                    assert(l2[j + 1] == l[j]);
                    assert(carries(l2[j + 1].elem, o));
                }
            } else {
                assert(carries(l2[i].elem, o));
            }
        }
    } else {
        let t = crate::pack::total_length(l);
        let x = Placed { name: fields[m].0, elem: e, start: t + align_gap(t, e.size() as int) };
        assert(l2 == l.push(x));
        assert forall|j: int| 0 <= j < l2.len() implies elem_ok(fields, (#[trigger] l2[j]).elem, m + 1) by {
            if j < l.len() {
                assert(elem_ok(fields, l[j].elem, m));
                lemma_elem_ok_grows(fields, l[j].elem, m);
            }
        }
        assert forall|o: int| 0 <= o < m + 1 implies #[trigger] covered(l2, o) by {
            if o < m {
                assert(covered(l, o));
                let j = choose|j: int| 0 <= j < l.len() && #[trigger] carries(l[j].elem, o);
                assert(carries(l2[j].elem, o));
            } else {
                assert(carries(l2[l.len() as int].elem, o));
            }
        }
    }
}

proof fn lemma_scalar_placement(fields: Seq<(Seq<char>, TypeModel)>, m: int)
    requires
        0 <= m <= fields.len(),
        fields.len() < usize::MAX,
        scalar_fields(fields),
    ensures
        scalar_placement_ok(fields, placement(fields, m), m),
    decreases m,
{
    if m > 0 {
        lemma_scalar_placement(fields, m - 1);
        lemma_place_scalar(fields, placement(fields, m - 1), m - 1);
    }
}

pub proof fn lemma_bitfield_byte_is_ok(ords: Seq<Option<usize>>, vals: Seq<ValueModel>, j: int)
    requires
        forall|i: int|
            0 <= i < j ==> (#[trigger] ords[i])->Some_0 < vals.len() && vals[ords[i]->Some_0 as int] is Bool,
    ensures
        bitfield_byte(ords, vals, j) is Ok,
    decreases j,
{
    if j > 0 {
        lemma_bitfield_byte_is_ok(ords, vals, j - 1);
    }
}

pub proof fn lemma_inline_pass_all_ok(p: PointeeModel, vals: Seq<ValueModel>, n: int)
    requires
        forall|k: int| 0 <= k < n ==> (#[trigger] item_bytes(block_item(p, k), vals)) is Ok,
    ensures
        inline_pass(p, vals, n) is Ok,
    decreases n,
{
    if n > 0 {
        lemma_inline_pass_all_ok(p, vals, n - 1);
        assert(item_bytes(block_item(p, n - 1), vals) is Ok);
    }
}

/// The values fit the fields: a boolean for each boolean field, and for each
/// integer field a value of its kind.
pub open spec fn inhabits_scalars(fields: Seq<(Seq<char>, TypeModel)>, values: Seq<(Seq<char>, ValueModel)>) -> bool {
    &&& values.len() == fields.len()
    &&& forall|i: int|
        0 <= i < fields.len() ==> match (#[trigger] fields[i]).1 {
            TypeModel::Bool => values[i].1 is Bool,
            TypeModel::Leaf(k) => values[i].1 matches ValueModel::Int(k2, x) && k2 == k && fits_leaf(k, x),
            _ => false,
        }
}

proof fn lemma_slot_carries(ords: Seq<Option<usize>>, i: int, j: int, o: int)
    requires
        0 <= i < j,
        ords[i] == Some(o as usize),
        0 <= o <= usize::MAX,
    ensures
        slot_carries(ords, j, o),
    decreases j,
{
    if i < j - 1 {
        lemma_slot_carries(ords, i, j - 1, o);
    }
}

proof fn lemma_layout_carries(layout: Seq<(Seq<char>, WireModel)>, j: int, k: int, o: int)
    requires
        0 <= j < k,
        element_carries(layout[j].1, o),
    ensures
        layout_carries(layout, k, o),
    decreases k,
{
    if j < k - 1 {
        lemma_layout_carries(layout, j, k - 1, o);
    }
}

/// An element that carries a field makes the layout carry it.
proof fn lemma_carried_by_layout(layout: Seq<(Seq<char>, WireModel)>, j: int, o: int)
    requires
        0 <= j < layout.len(),
        0 <= o <= usize::MAX,
        carries(layout[j].1, o),
    ensures
        layout_carries(layout, layout.len() as int, o),
        carries_any(layout, layout.len() as int),
{
    if let WireModel::Bitfield { ordinals } = layout[j].1 {
        let i = choose|i: int| 0 <= i < used_slots(ordinals) && (#[trigger] ordinals[i]) == Some(o as usize);
        lemma_slot_carries(ordinals, i, used_slots(ordinals), o);
    }
    lemma_layout_carries(layout, j, layout.len() as int, o);
    crate::parse_values::lemma_carries_any(layout, j, layout.len() as int);
}

/// A struct of booleans and integers survives a round trip through the
/// packer's layout: serializing it succeeds, and parsing the bytes from
/// offset 0 reads them all and gives back one entry per field, holding that
/// field's value (the entries' names come from the layout); a struct with no
/// fields gives no entry. This needs fewer than `usize::MAX` fields and an
/// inline part that fits the 32-bit size field.
pub proof fn lemma_round_trip_scalars(
    fields: Seq<(Seq<char>, TypeModel)>,
    values: Seq<(Seq<char>, ValueModel)>,
)
    requires
        scalar_fields(fields),
        inhabits_scalars(fields, values),
        fields.len() < usize::MAX,
        crate::wire_format::inline_length(
            PointeeModel::Struct { fields: pack_struct_spec(fields) },
            pack_struct_spec(fields).len() as int,
        ) < pow256(4),
    ensures
        crate::wire_format::serialize_struct_spec(pack_struct_spec(fields), values) is Ok,
        ({
            let b = crate::wire_format::serialize_struct_spec(pack_struct_spec(fields), values)->Ok_0;
            parse_struct_spec(b, 0, pack_struct_spec(fields)) matches Ok((res, end)) && end == b.len()
                && res.len() == values.len() && forall|o: int| 0 <= o < values.len() ==> (#[trigger] res[o]).1 == values[o].1
        }),
{
    let n = fields.len() as int;
    let layout = pack_struct_spec(fields);
    let l = placement(fields, n);
    let p = PointeeModel::Struct { fields: layout };
    let vals = block_values(ValueModel::Struct(values));
    lemma_scalar_placement(fields, n);
    assert(layout.len() == l.len());
    assert forall|j: int| 0 <= j < layout.len() implies #[trigger] layout[j].1 == l[j].elem by {}
    let ln = layout.len() as int;
    assert(flat_layout(layout)) by {
        assert forall|j: int| 0 <= j < layout.len() implies !((#[trigger] layout[j]).1 is Pointer) && (
        layout[j].1 is Bitfield ==> layout[j].1->Bitfield_ordinals.len() <= 8) by {
            assert(elem_ok(fields, l[j].elem, n));
        }
    }
    assert(leaves_fit(vals)) by {
        assert forall|o: int| 0 <= o < vals.len() && (#[trigger] vals[o]) is Int implies fits_leaf(
            vals[o]->Int_0,
            vals[o]->Int_1,
        ) by {
            assert(vals[o] == values[o].1);
            assert(fields[o].1 is Bool || fields[o].1 is Leaf);
        }
    }
    // Every element's bytes can be written.
    assert forall|k: int| 0 <= k < ln implies (#[trigger] item_bytes(block_item(p, k), vals)) is Ok by {
        assert(block_item(p, k) == l[k].elem);
        assert(elem_ok(fields, l[k].elem, n));
        if let WireModel::Bitfield { ordinals } = l[k].elem {
            assert forall|i: int| 0 <= i < used_slots(ordinals) implies (#[trigger] ordinals[i])->Some_0
                < vals.len() && vals[ordinals[i]->Some_0 as int] is Bool by {
                assert(fields[ordinals[i]->Some_0 as int].1 is Bool);
            }
            lemma_bitfield_byte_is_ok(ordinals, vals, used_slots(ordinals));
        }
    }
    lemma_inline_pass_all_ok(p, vals, ln);
    let acc = inline_pass(p, vals, ln)->Ok_0;
    assert forall|j: int| 0 <= j < ln implies !(#[trigger] block_item(p, j) is Pointer) by {
        assert(block_item(p, j) == l[j].elem);
        assert(elem_ok(fields, l[j].elem, n));
    }
    crate::wire_format::lemma_ser_nested_no_pointers(p, vals, ln, crate::wire_format::with_header(p, acc, ln));
    // The packer's layout carries exactly the ordinals below the field count.
    crate::parse_values::lemma_max_ordinal_bound(layout, ln);
    assert forall|j: int| 0 <= j < ln implies crate::parse_values::ordinals_at_most(#[trigger] layout[j].1, n - 1) by {
        assert(elem_ok(fields, l[j].elem, n));
    }
    if n > 0 {
        lemma_max_ordinal_below(layout, ln, n - 1);
        assert(covered(l, n - 1));
        let j = choose|j: int| 0 <= j < l.len() && #[trigger] carries(l[j].elem, n - 1);
        lemma_carried_by_layout(layout, j, n - 1);
        assert(crate::parse_values::ordinals_at_most(layout[j].1, max_ordinal(layout, ln)));
        if let WireModel::Bitfield { ordinals } = l[j].elem {
            let i = choose|i: int| 0 <= i < used_slots(ordinals) && (#[trigger] ordinals[i]) == Some((n - 1) as usize);
            assert(ordinals[i]->Some_0 <= max_ordinal(layout, ln));
        }
        assert(entry_count(layout) == n);
    } else {
        assert(entry_count(layout) == 0);
    }
    assert(layout_dense(layout)) by {
        assert forall|o: int| 0 <= o < entry_count(layout) implies #[trigger] layout_carries(layout, ln, o) by {
            assert(covered(l, o));
            let j = choose|j: int| 0 <= j < l.len() && #[trigger] carries(l[j].elem, o);
            lemma_carried_by_layout(layout, j, o);
        }
    }
    lemma_round_trip_without_pointers(layout, values);
    let b = crate::wire_format::serialize_struct_spec(layout, values)->Ok_0;
    let res = parse_struct_spec(b, 0, layout)->Ok_0.0;
    // Every field is carried by an element, so its entry agrees.
    assert forall|o: int| 0 <= o < values.len() implies (#[trigger] res[o]).1 == values[o].1 by {
        assert(covered(l, o));
        let j = choose|j: int| 0 <= j < l.len() && #[trigger] carries(l[j].elem, o);
        assert(layout[j].1 == l[j].elem);
        match l[j].elem {
            WireModel::Bitfield { ordinals } => {
                let i = choose|i: int| 0 <= i < used_slots(ordinals) && (#[trigger] ordinals[i]) == Some(o as usize);
                assert(agrees(res, vals, layout[j].1->Bitfield_ordinals[i]->Some_0 as int));
            },
            _ => {
                assert(agrees(res, vals, layout[j].1->Leaf_ordinal as int));
            },
        }
        assert(vals[o] == values[o].1);
    }
}

} // verus!
