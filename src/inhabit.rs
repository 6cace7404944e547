//! Serialization succeeds for every value of a type, under the layout that
//! the packer gives the type.
use vstd::prelude::*;

use crate::ast::{MojomError, PackedArrayType, PackedLeafType, PointeeModel, TypeModel, ValueModel, WireModel};
use crate::pack::{
    first_empty_slot, first_free_bitfield, first_hole, free_slot, lemma_first_empty_slot,
    lemma_first_empty_slot_at, lemma_first_free_bitfield, lemma_first_hole, pack_struct_spec,
    offsets_fit, pack_type_spec, placement, slots_contiguous, Placed, align_gap,
};
use crate::round_trip::{lemma_bitfield_byte_is_ok, lemma_inline_pass_all_ok};
use crate::wire_format::{
    bitfield_byte, blocks_well_formed, block_item, block_values, inline_pass, item_bytes, item_exists,
    item_pointee, lemma_blocks_well_formed, ser_nested, ser_pointee, serialize_struct_spec,
    shape_matches, used_slots, utf8_values, with_ordinal,
};
use crate::encoding::pow256;

verus! {

/// Whether `v` is a value of type `t`: the same shape at every depth, a
/// struct with one value per field, a sized array of its declared length,
/// and arrays and strings short enough to be held in memory.
pub open spec fn inhabits(t: TypeModel, v: ValueModel) -> bool
    decreases t,
{
    match t {
        TypeModel::Bool => v is Bool,
        TypeModel::Leaf(k) => v is Int && v->Int_0 == k,
        TypeModel::Str => v is Str && utf8_values(v->Str_0).len() <= usize::MAX,
        TypeModel::Array(e, n) => {
            &&& v is Array
            &&& v->Array_0.len() <= usize::MAX
            &&& (n is Some ==> v->Array_0.len() == n->0)
            &&& forall|i: int| 0 <= i < v->Array_0.len() ==> inhabits(*e, #[trigger] v->Array_0[i])
        },
        TypeModel::Struct(fs) => {
            &&& v is Struct
            &&& v->Struct_0.len() == fs.len()
            &&& forall|i: int| 0 <= i < fs.len() ==> inhabits((#[trigger] fs[i]).1, v->Struct_0[i].1)
        },
    }
}

/// Whether `t` goes on the wire behind a pointer.
pub open spec fn is_nested(t: TypeModel) -> bool {
    t is Str || t is Array || t is Struct
}

/// Element `w`, placed among the first `m` fields, names only fields below
/// `m` and packs each as its type says.
pub open spec fn elem_typed(fields: Seq<(Seq<char>, TypeModel)>, w: WireModel, m: int) -> bool {
    match w {
        WireModel::Leaf { ordinal, leaf_type } => ordinal < m && fields[ordinal as int].1 == TypeModel::Leaf(
            leaf_type,
        ),
        WireModel::Bitfield { ordinals } => ordinals.len() == 8 && slots_contiguous(ordinals) && forall|i: int|
            0 <= i < used_slots(ordinals) ==> (#[trigger] ordinals[i]) is Some && ordinals[i]->Some_0 < m
                && fields[ordinals[i]->Some_0 as int].1 is Bool,
        WireModel::Pointer { ordinal, pointee } => ordinal < m && is_nested(fields[ordinal as int].1)
            && pointee == pack_type_spec(fields[ordinal as int].1, ordinal)->Pointer_pointee,
    }
}

proof fn lemma_fill_typed(fields: Seq<(Seq<char>, TypeModel)>, ords: Seq<Option<usize>>, m: int)
    requires
        elem_typed(fields, WireModel::Bitfield { ordinals: ords }, m),
        first_empty_slot(ords, 0) is Some,
        0 <= m < fields.len(),
        m < usize::MAX,
        fields[m].1 is Bool,
    ensures
        elem_typed(
            fields,
            WireModel::Bitfield { ordinals: ords.update(first_empty_slot(ords, 0)->0, Some(m as usize)) },
            m + 1,
        ),
{
    lemma_first_empty_slot(ords, 0);
    let k = first_empty_slot(ords, 0)->0;
    let ords2 = ords.update(k, Some(m as usize));
    assert(used_slots(ords) == k);
    assert(slots_contiguous(ords2)) by {
        assert forall|a: int, b: int| 0 <= a < b < ords2.len() && ords2[a] is None implies ords2[b] is None by {
            assert(ords[a] is None);
            assert(a > k);
        }
    }
    if k + 1 < 8 {
        assert(ords[k + 1] is None);
        lemma_first_empty_slot_at(ords2, 0, k + 1);
    } else {
        lemma_first_empty_slot(ords2, 0);
    }
    assert(used_slots(ords2) == k + 1);
    assert forall|i: int| 0 <= i < used_slots(ords2) implies (#[trigger] ords2[i]) is Some && ords2[i]->Some_0 < m + 1
        && fields[ords2[i]->Some_0 as int].1 is Bool by {
        if i < k {
            assert(ords2[i] == ords[i]);
        }
    }
}

proof fn lemma_typed_grows(fields: Seq<(Seq<char>, TypeModel)>, w: WireModel, m: int)
    requires
        elem_typed(fields, w, m),
    ensures
        elem_typed(fields, w, m + 1),
{
}

proof fn lemma_placement_typed(fields: Seq<(Seq<char>, TypeModel)>, n: int)
    requires
        0 <= n <= fields.len(),
        fields.len() < usize::MAX,
    ensures
        forall|i: int|
            0 <= i < placement(fields, n).len() ==> elem_typed(fields, (#[trigger] placement(fields, n)[i]).elem, n),
    decreases n,
{
    if n > 0 {
        let m = n - 1;
        let l = placement(fields, m);
        lemma_placement_typed(fields, m);
        let e = pack_type_spec(fields[m].1, m as usize);
        let is_bool = fields[m].1 is Bool;
        assert(elem_typed(fields, e, n)) by {
            if is_bool {
                let ords = e->Bitfield_ordinals;
                assert(first_empty_slot(ords, 1) == Some(1int));
                assert(used_slots(ords) == 1);
            }
        }
        lemma_first_free_bitfield(l, 0);
        lemma_first_hole(l, e.size() as int, 1);
        let l2 = placement(fields, n);
        if is_bool && first_free_bitfield(l, 0) is Some {
            let i = first_free_bitfield(l, 0)->0;
            let ords = l[i].elem->Bitfield_ordinals;
            assert(elem_typed(fields, l[i].elem, m));
            lemma_fill_typed(fields, ords, m);
            assert forall|j: int| 0 <= j < l2.len() implies elem_typed(fields, (#[trigger] l2[j]).elem, n) by {
                if j != i {
                    assert(elem_typed(fields, l[j].elem, m));
                    lemma_typed_grows(fields, l[j].elem, m);
                }
            }
        } else if first_hole(l, e.size() as int, 1) is Some {
            let i = first_hole(l, e.size() as int, 1)->0;
            let x = Placed { name: fields[m].0, elem: e, start: l[i - 1].end() + align_gap(l[i - 1].end(), e.size() as int) };
            l.insert_ensures(i, x);
            assert forall|j: int| 0 <= j < l2.len() implies elem_typed(fields, (#[trigger] l2[j]).elem, n) by {
                if j < i {
                    assert(elem_typed(fields, l[j].elem, m));
                    lemma_typed_grows(fields, l[j].elem, m);
                } else if j > i {
                    assert(l2[j] == l[j - 1]);
                    assert(elem_typed(fields, l[j - 1].elem, m));
                    lemma_typed_grows(fields, l[j - 1].elem, m);
                }
            }
        } else {
            assert forall|j: int| 0 <= j < l2.len() implies elem_typed(fields, (#[trigger] l2[j]).elem, n) by {
                if j < l.len() {
                    assert(elem_typed(fields, l[j].elem, m));
                    lemma_typed_grows(fields, l[j].elem, m);
                }
            }
        }
    }
}

proof fn lemma_ser_nested_ok(p: PointeeModel, vals: Seq<ValueModel>, k: int, acc: Seq<u8>)
    requires
        forall|j: int|
            0 <= j < k && (#[trigger] block_item(p, j)) is Pointer && item_exists(p, j) ==> ser_pointee(
                item_pointee(p, j),
                vals[block_item(p, j)->Pointer_ordinal as int],
            ) is Ok,
    ensures
        ser_nested(p, vals, k, acc) is Ok,
    decreases k,
{
    if k > 0 {
        lemma_ser_nested_ok(p, vals, k - 1, acc);
        if block_item(p, k - 1) is Pointer && item_exists(p, k - 1) {
            assert(ser_pointee(item_pointee(p, k - 1), vals[block_item(p, k - 1)->Pointer_ordinal as int]) is Ok);
        }
    }
}

proof fn lemma_pointee_ordinal(t: TypeModel, o: usize)
    ensures
        is_nested(t) ==> pack_type_spec(t, o) is Pointer && pack_type_spec(t, o)->Pointer_pointee
            == pack_type_spec(t, 0)->Pointer_pointee,
{
}

/// Serializing a value of a type nested behind a pointer succeeds.
pub proof fn lemma_pointee_serializes(t: TypeModel, v: ValueModel)
    requires
        is_nested(t),
        inhabits(t, v),
        offsets_fit(t),
    ensures
        ser_pointee(pack_type_spec(t, 0)->Pointer_pointee, v) is Ok,
    decreases t,
{
    let p = pack_type_spec(t, 0)->Pointer_pointee;
    match t {
        TypeModel::Str => {
            let vals = block_values(v);
            let n = vals.len() as int;
            assert forall|k: int| 0 <= k < n implies (#[trigger] item_bytes(block_item(p, k), vals)) is Ok by {
                assert(block_item(p, k) == WireModel::Leaf { ordinal: k as usize, leaf_type: PackedLeafType::UInt8 });
            }
            lemma_inline_pass_all_ok(p, vals, n);
            let acc = inline_pass(p, vals, n)->Ok_0;
            lemma_ser_nested_ok(p, vals, n, crate::wire_format::with_header(p, acc, n));
        },
        TypeModel::Array(e, _) => {
            let es = v->Array_0;
            let vals = block_values(v);
            let n = vals.len() as int;
            let elem = pack_type_spec(*e, 0);
            assert forall|k: int| 0 <= k < n implies (#[trigger] item_bytes(block_item(p, k), vals)) is Ok by {
                assert(inhabits(*e, es[k]));
                if *e is Bool {
                    let ords = block_item(p, k)->Bitfield_ordinals;
                    assert(first_empty_slot(ords, 1) == Some(1int));
                    assert(used_slots(ords) == 1);
                    lemma_bitfield_byte_is_ok(ords, vals, 1);
                }
            }
            lemma_inline_pass_all_ok(p, vals, n);
            let acc = inline_pass(p, vals, n)->Ok_0;
            assert forall|j: int|
                0 <= j < n && (#[trigger] block_item(p, j)) is Pointer && item_exists(p, j) implies ser_pointee(
                item_pointee(p, j),
                vals[block_item(p, j)->Pointer_ordinal as int],
            ) is Ok by {
                assert(inhabits(*e, es[j]));
                assert(is_nested(*e));
                assert(offsets_fit(*e));
                lemma_pointee_serializes(*e, es[j]);
            }
            lemma_ser_nested_ok(p, vals, n, crate::wire_format::with_header(p, acc, n));
        },
        TypeModel::Struct(fs) => {
            let layout = pack_struct_spec(fs);
            let l = placement(fs, fs.len() as int);
            let vals = block_values(v);
            let n = layout.len() as int;
            let vs = v->Struct_0;
            assert(fs.len() < usize::MAX);
            lemma_placement_typed(fs, fs.len() as int);
            assert forall|k: int| 0 <= k < n implies (#[trigger] item_bytes(block_item(p, k), vals)) is Ok by {
                assert(block_item(p, k) == l[k].elem);
                assert(elem_typed(fs, l[k].elem, fs.len() as int));
                match l[k].elem {
                    WireModel::Bitfield { ordinals } => {
                        assert forall|i: int| 0 <= i < used_slots(ordinals) implies (#[trigger] ordinals[i])->Some_0
                            < vals.len() && vals[ordinals[i]->Some_0 as int] is Bool by {
                            assert(inhabits(fs[ordinals[i]->Some_0 as int].1, vs[ordinals[i]->Some_0 as int].1));
                        }
                        lemma_bitfield_byte_is_ok(ordinals, vals, used_slots(ordinals));
                    },
                    WireModel::Leaf { ordinal, .. } => {
                        assert(inhabits(fs[ordinal as int].1, vs[ordinal as int].1));
                    },
                    WireModel::Pointer { ordinal, .. } => {
                        assert(inhabits(fs[ordinal as int].1, vs[ordinal as int].1));
                        lemma_pointee_ordinal(fs[ordinal as int].1, ordinal);
                    },
                }
            }
            lemma_inline_pass_all_ok(p, vals, n);
            let acc = inline_pass(p, vals, n)->Ok_0;
            assert forall|j: int|
                0 <= j < n && (#[trigger] block_item(p, j)) is Pointer && item_exists(p, j) implies ser_pointee(
                item_pointee(p, j),
                vals[block_item(p, j)->Pointer_ordinal as int],
            ) is Ok by {
                assert(block_item(p, j) == l[j].elem);
                assert(elem_typed(fs, l[j].elem, fs.len() as int));
                let o = l[j].elem->Pointer_ordinal;
                assert(inhabits(fs[o as int].1, vs[o as int].1));
                lemma_pointee_ordinal(fs[o as int].1, o);
                assert(offsets_fit(fs[o as int].1));
                lemma_pointee_serializes(fs[o as int].1, vs[o as int].1);
            }
            lemma_ser_nested_ok(p, vals, n, crate::wire_format::with_header(p, acc, n));
        },
        _ => {},
    }
}

/// Serializing a value of a struct type under the layout that the packer
/// gives the type succeeds; and, when the output is shorter than 2^64 bytes,
/// every block in it, nested ones included, is well formed: headers give
/// the inline lengths, elements sit at multiples of their alignment, and
/// pointers lead to their blocks.
pub proof fn lemma_serialized_struct_well_formed(
    fields: Seq<(Seq<char>, TypeModel)>,
    values: Seq<(Seq<char>, ValueModel)>,
)
    requires
        inhabits(TypeModel::Struct(fields), ValueModel::Struct(values)),
        offsets_fit(TypeModel::Struct(fields)),
    ensures
        serialize_struct_spec(pack_struct_spec(fields), values) is Ok,
        serialize_struct_spec(pack_struct_spec(fields), values)->Ok_0.len() < pow256(8) ==> blocks_well_formed(
            PointeeModel::Struct { fields: pack_struct_spec(fields) },
            ValueModel::Struct(values),
        ),
{
    lemma_pointee_serializes(TypeModel::Struct(fields), ValueModel::Struct(values));
    let p = PointeeModel::Struct { fields: pack_struct_spec(fields) };
    assert(pack_type_spec(TypeModel::Struct(fields), 0)->Pointer_pointee == p);
    if serialize_struct_spec(pack_struct_spec(fields), values)->Ok_0.len() < pow256(8) {
        lemma_blocks_well_formed(p, ValueModel::Struct(values));
    }
}

} // verus!
