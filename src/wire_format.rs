//! The byte layout of struct and array blocks: where each inline element sits,
//! and the bytes that a value occupies.
//!
//! Both kinds of block start with two little-endian 32-bit words: the length
//! of the block's inline part (header included, padded to a multiple of 8),
//! then a struct's version (zero) or an array's element count. An array's
//! elements are laid out like the fields of a struct whose elements are all
//! the array's element type, one per index; a boolean element takes a byte of
//! its own, in bit 0. A string is the array of its UTF-8 bytes.
//!
//! Positions here are counted from the start of a block, which lies at a
//! multiple of 8 bytes.
use vstd::prelude::*;

use crate::ast::{leaf_size, MojomError, PackedArrayType, PackedLeafType, PointeeModel, ValueModel, WireModel};
use crate::encoding::{le_bytes, le_value, overwrite, pow2, pow256, zeros};
use crate::pack::{align_gap, first_empty_slot};

verus! {

/// The element for item `k` of an array whose elements pack as `elem`.
pub open spec fn with_ordinal(elem: WireModel, k: int) -> WireModel {
    match elem {
        WireModel::Leaf { leaf_type, .. } => WireModel::Leaf { ordinal: k as usize, leaf_type },
        WireModel::Bitfield { .. } => WireModel::Bitfield {
            ordinals: seq![Some(k as usize), None, None, None, None, None, None, None],
        },
        WireModel::Pointer { pointee, .. } => WireModel::Pointer { ordinal: k as usize, pointee },
    }
}

/// Inline element `k` of a block: a struct's `k`-th wire element, or an
/// array's element at index `k`.
pub open spec fn block_item(p: PointeeModel, k: int) -> WireModel {
    match p {
        PointeeModel::Struct { fields } => fields[k].1,
        PointeeModel::Array { element, .. } => with_ordinal(*element, k),
    }
}

/// The block of an array whose elements pack as `element`.
pub open spec fn array_pointee(element: WireModel, kind: PackedArrayType) -> PointeeModel {
    PointeeModel::Array { element: Box::new(element), kind }
}

/// Whether a block described by `p` can have an inline element `k`.
pub open spec fn item_exists(p: PointeeModel, k: int) -> bool {
    match p {
        PointeeModel::Struct { fields } => 0 <= k < fields.len(),
        PointeeModel::Array { .. } => 0 <= k,
    }
}

/// The target of inline element `k` of a block, when that element is a pointer.
pub open spec fn item_pointee(p: PointeeModel, k: int) -> PointeeModel {
    match p {
        PointeeModel::Struct { fields } => fields[k].1->Pointer_pointee,
        PointeeModel::Array { element, .. } => element->Pointer_pointee,
    }
}

/// Offset from the block's start to the end of its first `k` inline elements.
pub open spec fn item_end(p: PointeeModel, k: int) -> int
    decreases k, 0int,
{
    if k <= 0 {
        8
    } else {
        item_start(p, k - 1) + block_item(p, k - 1).size()
    }
}

/// Offset from the block's start to inline element `k`.
pub open spec fn item_start(p: PointeeModel, k: int) -> int
    decreases k, 1int,
{
    if k <= 0 {
        8
    } else {
        let e = item_end(p, k);
        e + align_gap(e, block_item(p, k).size() as int)
    }
}

/// Number of used slots of a bitfield: the length of its `Some` prefix.
pub open spec fn used_slots(ords: Seq<Option<usize>>) -> int {
    match first_empty_slot(ords, 0) {
        Some(j) => j,
        None => ords.len() as int,
    }
}

/// The values that a block's inline elements refer to, by ordinal.
pub open spec fn block_values(v: ValueModel) -> Seq<ValueModel> {
    match v {
        ValueModel::Struct(fields) => Seq::new(fields.len(), |i: int| fields[i].1),
        ValueModel::Array(elems) => elems,
        ValueModel::Str(s) => utf8_values(s),
        _ => Seq::empty(),
    }
}

/// A string's UTF-8 bytes as `UInt8` values.
pub open spec fn utf8_values(s: Seq<char>) -> Seq<ValueModel> {
    let b = vstd::utf8::encode_utf8(s);
    Seq::new(b.len(), |i: int| ValueModel::Int(PackedLeafType::UInt8, b[i] as int))
}

/// Number of inline elements of the block that holds `v`.
pub open spec fn block_count(p: PointeeModel, v: ValueModel) -> int {
    match p {
        PointeeModel::Struct { fields } => fields.len() as int,
        PointeeModel::Array { .. } => block_values(v).len() as int,
    }
}

/// Whether `v` has the shape that element `w` expects.
pub open spec fn shape_matches(w: WireModel, v: ValueModel) -> bool {
    match w {
        WireModel::Leaf { leaf_type, .. } => v matches ValueModel::Int(k, _) && k == leaf_type,
        WireModel::Bitfield { .. } => v is Bool,
        WireModel::Pointer { pointee, .. } => match pointee {
            PointeeModel::Struct { .. } => v is Struct,
            PointeeModel::Array { .. } => v is Array || v is Str,
        },
    }
}

/// Whether `v` fits what `p` points to, counting the length of a sized array.
pub open spec fn pointee_accepts(p: PointeeModel, v: ValueModel) -> bool {
    match p {
        PointeeModel::Struct { .. } => v is Struct,
        PointeeModel::Array { kind, .. } => (v is Array || v is Str) && match kind {
            PackedArrayType::SizedArray(n) => block_values(v).len() == n,
            _ => true,
        },
    }
}

/// The unsigned integer whose low bytes encode `x` as a scalar of kind `k`
/// (two's complement for the signed kinds).
pub open spec fn leaf_wire_value(k: PackedLeafType, x: int) -> nat {
    if x < 0 {
        (x + pow256(leaf_size(k))) as nat
    } else {
        x as nat
    }
}

/// The byte of a bitfield's first `j` slots, or the first error among them.
pub open spec fn bitfield_byte(ords: Seq<Option<usize>>, vals: Seq<ValueModel>, j: int) -> Result<nat, MojomError>
    decreases j,
{
    if j <= 0 {
        Ok(0)
    } else {
        match bitfield_byte(ords, vals, j - 1) {
            Err(e) => Err(e),
            Ok(b) => {
                let o = ords[j - 1]->Some_0;
                if o >= vals.len() {
                    Err(MojomError::OrdinalOutOfRange)
                } else {
                    match vals[o as int] {
                        ValueModel::Bool(x) => Ok(b + if x { pow2((j - 1) as nat) } else { 0 }),
                        _ => Err(MojomError::TypeMismatch),
                    }
                }
            },
        }
    }
}

/// The inline bytes of element `w` (a zero placeholder for a pointer), or the
/// error that it meets.
pub open spec fn item_bytes(w: WireModel, vals: Seq<ValueModel>) -> Result<Seq<u8>, MojomError> {
    match w {
        WireModel::Leaf { ordinal, leaf_type } => if ordinal >= vals.len() {
            Err(MojomError::OrdinalOutOfRange)
        } else if !shape_matches(w, vals[ordinal as int]) {
            Err(MojomError::TypeMismatch)
        } else {
            Ok(le_bytes(leaf_wire_value(leaf_type, vals[ordinal as int]->Int_1), leaf_size(leaf_type)))
        },
        WireModel::Bitfield { ordinals } => match bitfield_byte(ordinals, vals, used_slots(ordinals)) {
            Err(e) => Err(e),
            Ok(b) => Ok(seq![b as u8]),
        },
        WireModel::Pointer { ordinal, .. } => if ordinal >= vals.len() {
            Err(MojomError::OrdinalOutOfRange)
        } else if !shape_matches(w, vals[ordinal as int]) {
            Err(MojomError::TypeMismatch)
        } else {
            Ok(zeros(8))
        },
    }
}

/// The header placeholder and the first `k` inline elements of a block, each
/// preceded by zero padding to its alignment; or the first error.
pub open spec fn inline_pass(p: PointeeModel, vals: Seq<ValueModel>, k: int) -> Result<Seq<u8>, MojomError>
    decreases k,
{
    if k <= 0 {
        Ok(zeros(8))
    } else {
        match inline_pass(p, vals, k - 1) {
            Err(e) => Err(e),
            Ok(acc) => match item_bytes(block_item(p, k - 1), vals) {
                Err(e) => Err(e),
                Ok(b) => Ok(acc + zeros(align_gap(acc.len() as int, block_item(p, k - 1).size() as int)) + b),
            },
        }
    }
}

/// The second header word: a struct's version (zero) or an array's length.
pub open spec fn header_word(p: PointeeModel, n: int) -> nat {
    match p {
        PointeeModel::Struct { .. } => 0,
        PointeeModel::Array { .. } => n as nat,
    }
}

/// The inline bytes `acc` padded to a multiple of 8, with the header's words
/// set to the padded length and to `word`.
pub open spec fn block_with_header(acc: Seq<u8>, word: nat) -> Seq<u8> {
    let body = acc + zeros(align_gap(acc.len() as int, 8));
    overwrite(overwrite(body, 0, le_bytes(body.len(), 4)), 4, le_bytes(word, 4))
}

/// The block's inline body with its header filled in.
pub open spec fn with_header(p: PointeeModel, acc: Seq<u8>, n: int) -> Seq<u8> {
    block_with_header(acc, header_word(p, n))
}

pub proof fn lemma_block_with_header_len(acc: Seq<u8>, word: nat)
    requires
        acc.len() >= 8,
    ensures
        block_with_header(acc, word).len() == acc.len() + align_gap(acc.len() as int, 8),
        block_with_header(acc, word).len() % 8 == 0,
{
    let body = acc + zeros(align_gap(acc.len() as int, 8));
    crate::pack::lemma_align_gap(acc.len() as int, 8);
    crate::encoding::lemma_le_bytes_len(body.len(), 4);
    crate::encoding::lemma_le_bytes_len(word, 4);
    crate::encoding::lemma_overwrite_len(body, 0, le_bytes(body.len(), 4));
    crate::encoding::lemma_overwrite_len(overwrite(body, 0, le_bytes(body.len(), 4)), 4, le_bytes(word, 4));
}

/// The bytes of a block whose inline part is `acc`, after the nested blocks of
/// its first `k` elements have been appended and their pointers filled in.
pub open spec fn ser_nested(p: PointeeModel, vals: Seq<ValueModel>, k: int, acc: Seq<u8>) -> Result<Seq<u8>, MojomError>
    decreases p, 0int, k,
{
    if k <= 0 {
        Ok(acc)
    } else {
        match ser_nested(p, vals, k - 1, acc) {
            Err(e) => Err(e),
            Ok(cur) => match block_item(p, k - 1) {
                WireModel::Pointer { ordinal, .. } => if !item_exists(p, k - 1) {
                    Ok(cur)
                } else {
                    match ser_pointee(item_pointee(p, k - 1), vals[ordinal as int]) {
                    Err(e) => Err(e),
                    Ok(b) => {
                        let at = item_start(p, k - 1);
                        Ok(overwrite(cur, at, le_bytes((cur.len() - at) as nat, 8)) + b)
                    },
                    }
                },
                _ => Ok(cur),
            },
        }
    }
}

/// The bytes of the block that holds `v` as `p` describes, followed by its
/// nested blocks; or the first error.
pub open spec fn ser_pointee(p: PointeeModel, v: ValueModel) -> Result<Seq<u8>, MojomError>
    decreases p, 1int, 0int,
{
    if !pointee_accepts(p, v) {
        Err(MojomError::TypeMismatch)
    } else {
        let vals = block_values(v);
        let n = block_count(p, v);
        match inline_pass(p, vals, n) {
            Err(e) => Err(e),
            Ok(acc) => ser_nested(p, vals, n, with_header(p, acc, n)),
        }
    }
}

/// The bytes of a struct with the given field values under the given layout.
pub open spec fn serialize_struct_spec(
    layout: Seq<(Seq<char>, WireModel)>,
    values: Seq<(Seq<char>, ValueModel)>,
) -> Result<Seq<u8>, MojomError> {
    ser_pointee(PointeeModel::Struct { fields: layout }, ValueModel::Struct(values))
}

// ---------------------------------------------------------------------------
// Facts about the layout of a block
// ---------------------------------------------------------------------------

/// Skipping to an alignment from `base + x` skips as much as from `x` when
/// `base` is a multiple of 8.
pub proof fn lemma_align_gap_shift(base: int, x: int, a: int)
    requires
        base >= 0,
        x >= 0,
        base % 8 == 0,
        a == 1 || a == 2 || a == 4 || a == 8,
    ensures
        align_gap(base + x, a) == align_gap(x, a),
{
    assert((base + x) % a == x % a) by {
        assert(base % a == 0);
    }
}

proof fn lemma_align_gap_of_8(a: int)
    requires
        a == 1 || a == 2 || a == 4 || a == 8,
    ensures
        align_gap(8, a) == 0,
{
    if a == 1 {
        assert(align_gap(8, 1) == 0);
    } else if a == 2 {
        assert(align_gap(8, 2) == 0);
    } else if a == 4 {
        assert(align_gap(8, 4) == 0);
    } else {
        assert(align_gap(8, 8) == 0);
    }
}

pub proof fn lemma_item_bytes_len(w: WireModel, vals: Seq<ValueModel>)
    ensures
        item_bytes(w, vals) matches Ok(b) ==> b.len() == w.size(),
{
    if let WireModel::Leaf { ordinal, leaf_type } = w {
        if ordinal < vals.len() {
            crate::encoding::lemma_le_bytes_len(leaf_wire_value(leaf_type, vals[ordinal as int]->Int_1), leaf_size(leaf_type));
        }
    }
}

/// The inline bytes of the first `k` elements end where `item_end` says.
pub proof fn lemma_inline_pass_len(p: PointeeModel, vals: Seq<ValueModel>, k: int)
    ensures
        inline_pass(p, vals, k) matches Ok(acc) ==> acc.len() == item_end(p, k),
    decreases k,
{
    if k > 0 {
        lemma_inline_pass_len(p, vals, k - 1);
        lemma_item_bytes_len(block_item(p, k - 1), vals);
        if k - 1 == 0 {
            lemma_align_gap_of_8(block_item(p, 0).size() as int);
        }
    }
}

/// An error among the first `k` elements is the block's error.
pub proof fn lemma_inline_pass_err(p: PointeeModel, vals: Seq<ValueModel>, k: int, n: int)
    requires
        0 <= k <= n,
        inline_pass(p, vals, k) is Err,
    ensures
        inline_pass(p, vals, n) == inline_pass(p, vals, k),
    decreases n - k,
{
    if k < n {
        lemma_inline_pass_err(p, vals, k, n - 1);
    }
}

/// When the inline pass succeeds, every element on the way succeeded.
pub proof fn lemma_inline_pass_ok(p: PointeeModel, vals: Seq<ValueModel>, j: int, n: int)
    requires
        0 <= j < n,
        inline_pass(p, vals, n) is Ok,
    ensures
        inline_pass(p, vals, j) is Ok,
        item_bytes(block_item(p, j), vals) is Ok,
    decreases n - j,
{
    if j < n - 1 {
        lemma_inline_pass_ok(p, vals, j, n - 1);
        lemma_inline_pass_ok(p, vals, n - 1, n);
    }
}

/// Element `j` lies inside the first `n` elements.
pub proof fn lemma_item_within(p: PointeeModel, j: int, n: int)
    requires
        0 <= j < n,
    ensures
        8 <= item_start(p, j),
        item_start(p, j) + block_item(p, j).size() == item_end(p, j + 1),
        item_end(p, j + 1) <= item_end(p, n),
        item_start(p, j) <= item_end(p, n),
    decreases n - j,
{
    if j > 0 {
        lemma_item_end_lower(p, j);
    }
    if j + 1 < n {
        lemma_item_within(p, j + 1, n);
    }
}

/// Element `k` starts at the end of the elements before it, aligned.
pub proof fn lemma_item_start(p: PointeeModel, k: int)
    requires
        k >= 0,
    ensures
        item_start(p, k) == item_end(p, k) + align_gap(item_end(p, k), block_item(p, k).size() as int),
{
    if k == 0 {
        lemma_align_gap_of_8(block_item(p, 0).size() as int);
    }
}

pub proof fn lemma_item_end_lower(p: PointeeModel, k: int)
    ensures
        item_end(p, k) >= 8,
        k > 0 ==> item_start(p, k) >= 8,
    decreases k,
{
    if k > 0 {
        lemma_item_end_lower(p, k - 1);
    }
}

/// The nested pass of a block whose elements hold no pointer adds nothing.
pub proof fn lemma_ser_nested_no_pointers(p: PointeeModel, vals: Seq<ValueModel>, k: int, acc: Seq<u8>)
    requires
        forall|j: int| 0 <= j < k ==> !(#[trigger] block_item(p, j) is Pointer),
    ensures
        ser_nested(p, vals, k, acc) == Ok::<Seq<u8>, MojomError>(acc),
    decreases k,
{
    if k > 0 {
        lemma_ser_nested_no_pointers(p, vals, k - 1, acc);
        assert(!(block_item(p, k - 1) is Pointer));
    }
}

/// An error in the nested block of an element is the block's error.
pub proof fn lemma_ser_nested_err(p: PointeeModel, vals: Seq<ValueModel>, k: int, n: int, acc: Seq<u8>)
    requires
        0 <= k <= n,
        ser_nested(p, vals, k, acc) is Err,
    ensures
        ser_nested(p, vals, n, acc) == ser_nested(p, vals, k, acc),
    decreases n - k,
{
    if k < n {
        lemma_ser_nested_err(p, vals, k, n - 1, acc);
    }
}

/// An error among the first `k` slots of a bitfield is the bitfield's error.
pub proof fn lemma_bitfield_err(ords: Seq<Option<usize>>, vals: Seq<ValueModel>, k: int, n: int)
    requires
        0 <= k <= n,
        bitfield_byte(ords, vals, k) is Err,
    ensures
        bitfield_byte(ords, vals, n) == bitfield_byte(ords, vals, k),
    decreases n - k,
{
    if k < n {
        lemma_bitfield_err(ords, vals, k, n - 1);
    }
}

/// Overwriting past a prefix leaves the prefix alone.
pub proof fn lemma_overwrite_after(pre: Seq<u8>, x: Seq<u8>, at: int, w: Seq<u8>)
    requires
        0 <= at,
        at + w.len() <= x.len(),
    ensures
        overwrite(pre + x, pre.len() + at, w) == pre + overwrite(x, at, w),
{
    assert(overwrite(pre + x, pre.len() + at, w) =~= pre + overwrite(x, at, w));
}

// ---------------------------------------------------------------------------
// Properties of serialized blocks
// ---------------------------------------------------------------------------

/// The length of a block's inline part: header and elements, padded to a
/// multiple of 8.
pub open spec fn inline_length(p: PointeeModel, n: int) -> int {
    item_end(p, n) + align_gap(item_end(p, n), 8)
}

/// Every inline element of a block starts at a multiple of its alignment,
/// counted from the block's start, which is itself a multiple of 8.
pub proof fn lemma_item_aligned(p: PointeeModel, k: int)
    requires
        k >= 0,
    ensures
        item_start(p, k) % (block_item(p, k).size() as int) == 0,
{
    let a = block_item(p, k).size() as int;
    assert(a == 1 || a == 2 || a == 4 || a == 8);
    lemma_item_start(p, k);
    lemma_item_end_lower(p, k);
    crate::pack::lemma_align_gap(item_end(p, k), a);
}

/// The inline pass puts each element's bytes at its aligned offset.
pub proof fn lemma_inline_bytes_at(p: PointeeModel, vals: Seq<ValueModel>, n: int)
    requires
        n >= 0,
        inline_pass(p, vals, n) is Ok,
    ensures
        forall|k: int|
            0 <= k < n ==> {
                let st = item_start(p, k);
                &&& st % (block_item(p, k).size() as int) == 0
                &&& (#[trigger] item_bytes(block_item(p, k), vals)) is Ok
                &&& inline_pass(p, vals, n)->Ok_0.subrange(st, st + block_item(p, k).size())
                    == item_bytes(block_item(p, k), vals)->Ok_0
            },
    decreases n,
{
    if n > 0 {
        lemma_inline_pass_ok(p, vals, n - 1, n);
        lemma_inline_bytes_at(p, vals, n - 1);
        lemma_inline_pass_len(p, vals, n - 1);
        lemma_item_start(p, n - 1);
        lemma_item_bytes_len(block_item(p, n - 1), vals);
        let prev = inline_pass(p, vals, n - 1)->Ok_0;
        let acc = inline_pass(p, vals, n)->Ok_0;
        assert forall|k: int|
            0 <= k < n implies {
                let st = item_start(p, k);
                &&& st % (block_item(p, k).size() as int) == 0
                &&& (#[trigger] item_bytes(block_item(p, k), vals)) is Ok
                &&& acc.subrange(st, st + block_item(p, k).size()) == item_bytes(block_item(p, k), vals)->Ok_0
            } by {
            lemma_item_aligned(p, k);
            let st = item_start(p, k);
            if k < n - 1 {
                lemma_item_within(p, k, n - 1);
                assert(acc.subrange(st, st + block_item(p, k).size()) =~= prev.subrange(
                    st,
                    st + block_item(p, k).size(),
                ));
            } else {
                lemma_inline_pass_ok(p, vals, k, n);
                assert(acc.subrange(st, st + block_item(p, k).size()) =~= item_bytes(block_item(p, k), vals)->Ok_0);
            }
        }
    }
}

/// In every serialized block, each inline element starts at a multiple of its
/// alignment, and the element's bytes, before pointers are filled in, stand
/// there.
pub proof fn lemma_serialized_elements_aligned(p: PointeeModel, v: ValueModel)
    requires
        ser_pointee(p, v) is Ok,
    ensures
        inline_pass(p, block_values(v), block_count(p, v)) is Ok,
        forall|k: int|
            0 <= k < block_count(p, v) ==> {
                let st = item_start(p, k);
                &&& st % (block_item(p, k).size() as int) == 0
                &&& (#[trigger] item_bytes(block_item(p, k), block_values(v))) is Ok
                &&& inline_pass(p, block_values(v), block_count(p, v))->Ok_0.subrange(
                    st,
                    st + block_item(p, k).size(),
                ) == item_bytes(block_item(p, k), block_values(v))->Ok_0
            },
{
    let n = block_count(p, v);
    if n >= 0 {
        lemma_inline_bytes_at(p, block_values(v), n);
    }
}

/// Filling in a pointer at `at` and appending `nested` keeps every other
/// byte of `cur`.
proof fn lemma_fill_pointer(cur: Seq<u8>, at: int, nested: Seq<u8>)
    requires
        8 <= at,
        at + 8 <= cur.len(),
    ensures
        ({
            let b = overwrite(cur, at, le_bytes((cur.len() - at) as nat, 8)) + nested;
            &&& b.len() == cur.len() + nested.len()
            &&& b.subrange(0, 8) == cur.subrange(0, 8)
            &&& forall|x: int, y: int|
                0 <= x <= y <= cur.len() && (y <= at || x >= at + 8) ==> #[trigger] b.subrange(x, y)
                    == cur.subrange(x, y)
            &&& b.subrange(at, at + 8) == le_bytes((cur.len() - at) as nat, 8)
            &&& b.subrange(cur.len() as int, b.len() as int) == nested
        }),
{
    let w = le_bytes((cur.len() - at) as nat, 8);
    crate::encoding::lemma_le_bytes_len((cur.len() - at) as nat, 8);
    let b = overwrite(cur, at, w) + nested;
    assert(b.subrange(0, 8) =~= cur.subrange(0, 8));
    assert forall|x: int, y: int|
        0 <= x <= y <= cur.len() && (y <= at || x >= at + 8) implies #[trigger] b.subrange(x, y)
            == cur.subrange(x, y) by {
        assert(b.subrange(x, y) =~= cur.subrange(x, y));
    }
    assert(b.subrange(at, at + 8) =~= w);
    assert(b.subrange(cur.len() as int, b.len() as int) =~= nested);
}

/// The pointer of element `j` of the serialized block `b` holds the distance
/// from itself to the nested block of that element.
#[verifier::opaque]
pub open spec fn pointer_leads_to_block(p: PointeeModel, vals: Seq<ValueModel>, b: Seq<u8>, j: int) -> bool {
    let at = item_start(p, j);
    let target = at + le_value(b.subrange(at, at + 8));
    let nested = ser_pointee(item_pointee(p, j), vals[block_item(p, j)->Pointer_ordinal as int]);
    &&& nested is Ok
    &&& target + nested->Ok_0.len() <= b.len()
    &&& b.subrange(target, target + nested->Ok_0.len()) == nested->Ok_0
}

/// One step of the nested pass, unfolded.
proof fn lemma_ser_nested_step(p: PointeeModel, vals: Seq<ValueModel>, k: int, acc: Seq<u8>)
    requires
        k > 0,
        ser_nested(p, vals, k, acc) is Ok,
    ensures
        ser_nested(p, vals, k - 1, acc) is Ok,
        ({
            let b = ser_nested(p, vals, k, acc)->Ok_0;
            let cur = ser_nested(p, vals, k - 1, acc)->Ok_0;
            let w = block_item(p, k - 1);
            if w is Pointer && item_exists(p, k - 1) {
                let nested = ser_pointee(item_pointee(p, k - 1), vals[w->Pointer_ordinal as int]);
                let at = item_start(p, k - 1);
                &&& nested is Ok
                &&& b == overwrite(cur, at, le_bytes((cur.len() - at) as nat, 8)) + nested->Ok_0
            } else {
                b == cur
            }
        }),
{
}

/// A pointer that led to its block in `cur` still does in `b`, which changes
/// only bytes in `lo..hi`, between that pointer and its block, and appends.
proof fn lemma_pointer_kept(
    p: PointeeModel,
    vals: Seq<ValueModel>,
    cur: Seq<u8>,
    b: Seq<u8>,
    j: int,
    lo: int,
    hi: int,
)
    requires
        pointer_leads_to_block(p, vals, cur, j),
        0 <= item_start(p, j),
        item_start(p, j) + 8 <= lo <= hi,
        hi <= cur.len() <= b.len(),
        le_value(cur.subrange(item_start(p, j), item_start(p, j) + 8)) + item_start(p, j) >= hi,
        forall|x: int, y: int|
            0 <= x <= y <= cur.len() && (y <= lo || x >= hi) ==> #[trigger] b.subrange(x, y) == cur.subrange(
                x,
                y,
            ),
    ensures
        pointer_leads_to_block(p, vals, b, j),
        b.subrange(item_start(p, j), item_start(p, j) + 8) == cur.subrange(item_start(p, j), item_start(p, j) + 8),
{
    reveal(pointer_leads_to_block);
    let at = item_start(p, j);
    assert(b.subrange(at, at + 8) == cur.subrange(at, at + 8));
    let target = at + le_value(cur.subrange(at, at + 8));
    let nj = ser_pointee(item_pointee(p, j), vals[block_item(p, j)->Pointer_ordinal as int])->Ok_0;
    assert(b.subrange(target, target + nj.len()) == cur.subrange(target, target + nj.len()));
}

/// The pointer just filled in leads to the block just appended.
proof fn lemma_pointer_new(p: PointeeModel, vals: Seq<ValueModel>, cur: Seq<u8>, b: Seq<u8>, j: int)
    requires
        8 <= item_start(p, j),
        item_start(p, j) + 8 <= cur.len(),
        b.len() < pow256(8),
        ser_pointee(item_pointee(p, j), vals[block_item(p, j)->Pointer_ordinal as int]) is Ok,
        b == overwrite(cur, item_start(p, j), le_bytes((cur.len() - item_start(p, j)) as nat, 8))
            + ser_pointee(item_pointee(p, j), vals[block_item(p, j)->Pointer_ordinal as int])->Ok_0,
    ensures
        pointer_leads_to_block(p, vals, b, j),
        le_value(b.subrange(item_start(p, j), item_start(p, j) + 8)) + item_start(p, j) == cur.len(),
{
    reveal(pointer_leads_to_block);
    let at = item_start(p, j);
    let nested = ser_pointee(item_pointee(p, j), vals[block_item(p, j)->Pointer_ordinal as int])->Ok_0;
    lemma_fill_pointer(cur, at, nested);
    crate::encoding::lemma_le_round_trip((cur.len() - at) as nat, 8);
}

/// The pointers before element `k` end before it starts.
proof fn lemma_items_before(p: PointeeModel, k: int)
    requires
        k >= 0,
    ensures
        forall|j: int|
            0 <= j < k ==> #[trigger] item_start(p, j) + 8 <= item_start(p, k) || !(block_item(p, j) is Pointer),
        forall|j: int| 0 <= j < k ==> 0 <= #[trigger] item_start(p, j),
{
    lemma_item_start(p, k);
    let a = block_item(p, k).size() as int;
    assert(a == 1 || a == 2 || a == 4 || a == 8);
    lemma_item_end_lower(p, k);
    crate::pack::lemma_align_gap(item_end(p, k), a);
    assert forall|j: int| 0 <= j < k implies #[trigger] item_start(p, j) + 8 <= item_start(p, k) || !(block_item(
        p,
        j,
    ) is Pointer) by {
        lemma_item_within(p, j, k);
    }
    assert forall|j: int| 0 <= j < k implies 0 <= #[trigger] item_start(p, j) by {
        lemma_item_within(p, j, k);
    }
}

/// Filling in the pointer at `at` and appending keeps every earlier pointer
/// leading to its block.
proof fn lemma_pointers_after_fill(
    p: PointeeModel,
    vals: Seq<ValueModel>,
    cur: Seq<u8>,
    nested: Seq<u8>,
    k: int,
    at: int,
    low: int,
)
    requires
        8 <= at,
        at + 8 <= low <= cur.len(),
        forall|j: int| 0 <= j < k ==> #[trigger] item_start(p, j) + 8 <= at || !(block_item(p, j) is Pointer),
        forall|j: int| 0 <= j < k ==> 0 <= #[trigger] item_start(p, j),
        forall|j: int|
            0 <= j < k && (#[trigger] block_item(p, j)) is Pointer && item_exists(p, j) ==> {
                &&& pointer_leads_to_block(p, vals, cur, j)
                &&& le_value(cur.subrange(item_start(p, j), item_start(p, j) + 8)) + item_start(p, j) >= low
            },
    ensures
        forall|j: int|
            0 <= j < k && (#[trigger] block_item(p, j)) is Pointer && item_exists(p, j) ==> {
                &&& pointer_leads_to_block(
                    p,
                    vals,
                    overwrite(cur, at, le_bytes((cur.len() - at) as nat, 8)) + nested,
                    j,
                )
                &&& le_value(
                    (overwrite(cur, at, le_bytes((cur.len() - at) as nat, 8)) + nested).subrange(
                        item_start(p, j),
                        item_start(p, j) + 8,
                    ),
                ) + item_start(p, j) >= low
            },
{
    let b = overwrite(cur, at, le_bytes((cur.len() - at) as nat, 8)) + nested;
    lemma_fill_pointer(cur, at, nested);
    assert forall|j: int|
        0 <= j < k && (#[trigger] block_item(p, j)) is Pointer && item_exists(p, j) implies {
            &&& pointer_leads_to_block(p, vals, b, j)
            &&& le_value(b.subrange(item_start(p, j), item_start(p, j) + 8)) + item_start(p, j) >= low
        } by {
        assert(item_start(p, j) + 8 <= at);
        lemma_pointer_kept(p, vals, cur, b, j, at, at + 8);
    }
}

/// What the nested pass of a block keeps and adds: the header stays, and each
/// pointer among the first `k` elements holds the distance from itself to its
/// nested block, which lies past the block's inline part.
#[verifier::rlimit(100)]
proof fn lemma_ser_nested_shape(p: PointeeModel, vals: Seq<ValueModel>, k: int, acc: Seq<u8>)
    requires
        k >= 0,
        acc.len() >= item_end(p, k),
    ensures
        ser_nested(p, vals, k, acc) matches Ok(b) ==> {
            &&& b.len() >= acc.len()
            &&& b.subrange(0, 8) == acc.subrange(0, 8)
            &&& b.len() < pow256(8) ==> forall|j: int|
                0 <= j < k && (#[trigger] block_item(p, j)) is Pointer && item_exists(p, j) ==> {
                    &&& pointer_leads_to_block(p, vals, b, j)
                    &&& le_value(b.subrange(item_start(p, j), item_start(p, j) + 8)) + item_start(p, j) >= acc.len()
                }
        },
    decreases k,
{
    if k > 0 && ser_nested(p, vals, k, acc) is Ok {
        lemma_item_within(p, k - 1, k);
        lemma_item_end_lower(p, k - 1);
        lemma_ser_nested_shape(p, vals, k - 1, acc);
        lemma_ser_nested_step(p, vals, k, acc);
        let b = ser_nested(p, vals, k, acc)->Ok_0;
        let cur = ser_nested(p, vals, k - 1, acc)->Ok_0;
        let w = block_item(p, k - 1);
        if w is Pointer && item_exists(p, k - 1) {
            let at = item_start(p, k - 1);
            let nested = ser_pointee(item_pointee(p, k - 1), vals[w->Pointer_ordinal as int])->Ok_0;
            lemma_nested_step_facts(p, vals, cur, nested, k, acc);
        }
    }
}

/// The facts of one pointer step of the nested pass.
#[verifier::spinoff_prover]
proof fn lemma_nested_step_facts(
    p: PointeeModel,
    vals: Seq<ValueModel>,
    cur: Seq<u8>,
    nested: Seq<u8>,
    k: int,
    acc: Seq<u8>,
)
    requires
        k > 0,
        block_item(p, k - 1) is Pointer,
        item_exists(p, k - 1),
        acc.len() >= item_end(p, k),
        cur.len() >= acc.len(),
        cur.subrange(0, 8) == acc.subrange(0, 8),
        ser_pointee(item_pointee(p, k - 1), vals[block_item(p, k - 1)->Pointer_ordinal as int])
            == Ok::<Seq<u8>, MojomError>(nested),
        cur.len() < pow256(8) ==> forall|j: int|
            0 <= j < k - 1 && (#[trigger] block_item(p, j)) is Pointer && item_exists(p, j) ==> {
                &&& pointer_leads_to_block(p, vals, cur, j)
                &&& le_value(cur.subrange(item_start(p, j), item_start(p, j) + 8)) + item_start(p, j) >= acc.len()
            },
    ensures
        ({
            let at = item_start(p, k - 1);
            let b = overwrite(cur, at, le_bytes((cur.len() - at) as nat, 8)) + nested;
            &&& b.len() >= acc.len()
            &&& b.subrange(0, 8) == acc.subrange(0, 8)
            &&& b.len() < pow256(8) ==> forall|j: int|
                0 <= j < k && (#[trigger] block_item(p, j)) is Pointer && item_exists(p, j) ==> {
                    &&& pointer_leads_to_block(p, vals, b, j)
                    &&& le_value(b.subrange(item_start(p, j), item_start(p, j) + 8)) + item_start(p, j) >= acc.len()
                }
        }),
{
    let at = item_start(p, k - 1);
    lemma_item_within(p, k - 1, k);
    lemma_item_end_lower(p, k - 1);
    lemma_fill_pointer(cur, at, nested);
    let b = overwrite(cur, at, le_bytes((cur.len() - at) as nat, 8)) + nested;
    assert(b.subrange(0, 8) == acc.subrange(0, 8));
    if b.len() < pow256(8) {
        lemma_items_before(p, k - 1);
        lemma_pointers_after_fill(p, vals, cur, nested, k - 1, at, acc.len() as int);
        lemma_pointer_new(p, vals, cur, b, k - 1);
        assert forall|j: int|
            0 <= j < k && (#[trigger] block_item(p, j)) is Pointer && item_exists(p, j) implies {
                &&& pointer_leads_to_block(p, vals, b, j)
                &&& le_value(b.subrange(item_start(p, j), item_start(p, j) + 8)) + item_start(p, j) >= acc.len()
            } by {
            if j == k - 1 {
            }
        }
    }
}

/// For every pointer of a serialized block, the nested block that it refers
/// to begins at the pointer's own offset plus the value that it holds.
pub proof fn lemma_pointer_offsets(p: PointeeModel, v: ValueModel)
    requires
        ser_pointee(p, v) is Ok,
        ser_pointee(p, v)->Ok_0.len() < pow256(8),
    ensures
        forall|j: int|
            0 <= j < block_count(p, v) && (#[trigger] block_item(p, j)) is Pointer && item_exists(p, j)
                ==> pointer_leads_to_block(p, block_values(v), ser_pointee(p, v)->Ok_0, j),
{
    let vals = block_values(v);
    let n = block_count(p, v);
    let acc = inline_pass(p, vals, n)->Ok_0;
    lemma_inline_pass_len(p, vals, n);
    lemma_item_end_lower(p, n);
    lemma_block_with_header_len(acc, header_word(p, n));
    lemma_ser_nested_shape(p, vals, n, with_header(p, acc, n));
}

/// A serialized block, nested blocks included, spans a multiple of 8 bytes,
/// and its first header word gives the length of its inline part, which is a
/// multiple of 8, when that length fits in 32 bits.
pub proof fn lemma_header_size(p: PointeeModel, v: ValueModel)
    requires
        ser_pointee(p, v) is Ok,
    ensures
        inline_length(p, block_count(p, v)) % 8 == 0,
        ser_pointee(p, v)->Ok_0.len() >= inline_length(p, block_count(p, v)),
        inline_length(p, block_count(p, v)) < pow256(4) ==> le_value(
            ser_pointee(p, v)->Ok_0.subrange(0, 4),
        ) == inline_length(p, block_count(p, v)),
{
    let vals = block_values(v);
    let n = block_count(p, v);
    let acc = inline_pass(p, vals, n)->Ok_0;
    let len = inline_length(p, n);
    lemma_inline_pass_len(p, vals, n);
    lemma_item_end_lower(p, n);
    lemma_block_with_header_len(acc, header_word(p, n));
    let hdr = with_header(p, acc, n);
    lemma_ser_nested_shape(p, vals, n, hdr);
    let body = acc + zeros(align_gap(acc.len() as int, 8));
    crate::encoding::lemma_le_bytes_len(body.len(), 4);
    crate::encoding::lemma_le_bytes_len(header_word(p, n), 4);
    let b = ser_pointee(p, v)->Ok_0;
    assert(b.subrange(0, 4) =~= b.subrange(0, 8).subrange(0, 4));
    assert(hdr.subrange(0, 4) =~= le_bytes(body.len(), 4));
    assert(hdr.subrange(0, 8).subrange(0, 4) =~= hdr.subrange(0, 4));
    if len < pow256(4) {
        crate::encoding::lemma_le_round_trip(body.len(), 4);
    }
}

/// The nested pass keeps a length that is a multiple of 8.
proof fn lemma_ser_nested_mod8(p: PointeeModel, vals: Seq<ValueModel>, k: int, acc: Seq<u8>)
    requires
        acc.len() % 8 == 0,
        acc.len() >= item_end(p, k),
    ensures
        ser_nested(p, vals, k, acc) matches Ok(b) ==> b.len() % 8 == 0,
    decreases p, 0int, k,
{
    if k > 0 && ser_nested(p, vals, k, acc) is Ok {
        lemma_item_within(p, k - 1, k);
        lemma_item_end_lower(p, k - 1);
        lemma_ser_nested_shape(p, vals, k - 1, acc);
        lemma_ser_nested_mod8(p, vals, k - 1, acc);
        lemma_ser_nested_step(p, vals, k, acc);
        let cur = ser_nested(p, vals, k - 1, acc)->Ok_0;
        let w = block_item(p, k - 1);
        if w is Pointer && item_exists(p, k - 1) {
            let at = item_start(p, k - 1);
            let nested = ser_pointee(item_pointee(p, k - 1), vals[w->Pointer_ordinal as int])->Ok_0;
            lemma_ser_len_mod8(item_pointee(p, k - 1), vals[w->Pointer_ordinal as int]);
            lemma_fill_pointer(cur, at, nested);
        }
    }
}

/// Every serialized block, nested blocks included, spans a multiple of 8
/// bytes.
pub proof fn lemma_ser_len_mod8(p: PointeeModel, v: ValueModel)
    ensures
        ser_pointee(p, v) matches Ok(b) ==> b.len() % 8 == 0,
    decreases p, 1int, 0int,
{
    if ser_pointee(p, v) is Ok {
        let vals = block_values(v);
        let n = block_count(p, v);
        let acc = inline_pass(p, vals, n)->Ok_0;
        lemma_inline_pass_len(p, vals, n);
        lemma_item_end_lower(p, n);
        lemma_block_with_header_len(acc, header_word(p, n));
        lemma_ser_nested_mod8(p, vals, n, with_header(p, acc, n));
    }
}

/// The target of pointer `j` of block `b` lies at a multiple of 8.
pub open spec fn target_aligned(p: PointeeModel, b: Seq<u8>, j: int) -> bool {
    (item_start(p, j) + le_value(b.subrange(item_start(p, j), item_start(p, j) + 8))) % 8 == 0
}

/// One pointer step keeps the earlier targets and aligns the new one.
#[verifier::spinoff_prover]
proof fn lemma_targets_step(p: PointeeModel, cur: Seq<u8>, nested: Seq<u8>, k: int)
    requires
        k > 0,
        8 <= item_start(p, k - 1),
        item_start(p, k - 1) + 8 <= cur.len(),
        cur.len() % 8 == 0,
        cur.len() + nested.len() < pow256(8),
        forall|j: int| 0 <= j < k - 1 && (#[trigger] block_item(p, j)) is Pointer ==> target_aligned(p, cur, j),
    ensures
        forall|j: int|
            0 <= j < k && (#[trigger] block_item(p, j)) is Pointer ==> target_aligned(
                p,
                overwrite(cur, item_start(p, k - 1), le_bytes((cur.len() - item_start(p, k - 1)) as nat, 8))
                    + nested,
                j,
            ),
{
    let at = item_start(p, k - 1);
    let b = overwrite(cur, at, le_bytes((cur.len() - at) as nat, 8)) + nested;
    lemma_fill_pointer(cur, at, nested);
    lemma_items_before(p, k - 1);
    crate::encoding::lemma_le_round_trip((cur.len() - at) as nat, 8);
    assert forall|j: int| 0 <= j < k && (#[trigger] block_item(p, j)) is Pointer implies target_aligned(p, b, j) by {
        if j < k - 1 {
            assert(b.subrange(item_start(p, j), item_start(p, j) + 8) == cur.subrange(
                item_start(p, j),
                item_start(p, j) + 8,
            ));
        }
    }
}

/// Every pointer of the nested pass leads to a multiple of 8.
proof fn lemma_targets_aligned(p: PointeeModel, vals: Seq<ValueModel>, k: int, acc: Seq<u8>)
    requires
        k >= 0,
        acc.len() % 8 == 0,
        acc.len() >= item_end(p, k),
    ensures
        ser_nested(p, vals, k, acc) matches Ok(b) ==> b.len() < pow256(8) ==> forall|j: int|
            0 <= j < k && (#[trigger] block_item(p, j)) is Pointer && item_exists(p, j) ==> target_aligned(p, b, j),
    decreases k,
{
    if k > 0 && ser_nested(p, vals, k, acc) is Ok {
        lemma_item_within(p, k - 1, k);
        lemma_item_end_lower(p, k - 1);
        lemma_targets_aligned(p, vals, k - 1, acc);
        lemma_ser_nested_shape(p, vals, k - 1, acc);
        lemma_ser_nested_mod8(p, vals, k - 1, acc);
        lemma_ser_nested_step(p, vals, k, acc);
        let b = ser_nested(p, vals, k, acc)->Ok_0;
        let cur = ser_nested(p, vals, k - 1, acc)->Ok_0;
        let w = block_item(p, k - 1);
        if b.len() < pow256(8) {
            if w is Pointer && item_exists(p, k - 1) {
                let nested = ser_pointee(item_pointee(p, k - 1), vals[w->Pointer_ordinal as int])->Ok_0;
                lemma_fill_pointer(cur, item_start(p, k - 1), nested);
                assert forall|j: int| 0 <= j < k - 1 && (#[trigger] block_item(p, j)) is Pointer implies target_aligned(
                    p,
                    cur,
                    j,
                ) by {
                    if !item_exists(p, j) {
                        assert(p is Struct);
                    }
                }
                lemma_targets_step(p, cur, nested, k);
            } else {
                assert(forall|j: int| 0 <= j < k - 1 && (#[trigger] block_item(p, j)) is Pointer && item_exists(p, j) ==> target_aligned(p, cur, j));
            }
        }
    }
}

/// Every pointer of a serialized block leads to a multiple of 8 bytes from
/// the block's start.
pub proof fn lemma_targets_of_block(p: PointeeModel, v: ValueModel)
    requires
        ser_pointee(p, v) is Ok,
        ser_pointee(p, v)->Ok_0.len() < pow256(8),
    ensures
        forall|j: int|
            0 <= j < block_count(p, v) && (#[trigger] block_item(p, j)) is Pointer && item_exists(p, j)
                ==> target_aligned(p, ser_pointee(p, v)->Ok_0, j),
{
    let vals = block_values(v);
    let n = block_count(p, v);
    let acc = inline_pass(p, vals, n)->Ok_0;
    lemma_inline_pass_len(p, vals, n);
    lemma_item_end_lower(p, n);
    lemma_block_with_header_len(acc, header_word(p, n));
    lemma_targets_aligned(p, vals, n, with_header(p, acc, n));
}

/// The serialized block of `v` under `p`, and every block nested in it at
/// any depth, is well formed: it spans a multiple of 8 bytes, its first
/// header word gives the length of its inline part (a multiple of 8) when
/// that fits 32 bits, its elements start at multiples of their alignment, and
/// each pointer holds the distance from itself to the encoding of its nested
/// block, which starts a multiple of 8 bytes from the block's start.
pub open spec fn blocks_well_formed(p: PointeeModel, v: ValueModel) -> bool
    decreases p,
{
    &&& ser_pointee(p, v) is Ok
    &&& ser_pointee(p, v)->Ok_0.len() % 8 == 0
    &&& inline_length(p, block_count(p, v)) % 8 == 0
    &&& ser_pointee(p, v)->Ok_0.len() >= inline_length(p, block_count(p, v))
    &&& inline_length(p, block_count(p, v)) < pow256(4) ==> le_value(ser_pointee(p, v)->Ok_0.subrange(0, 4))
        == inline_length(p, block_count(p, v))
    &&& forall|k: int| 0 <= k < block_count(p, v) ==> #[trigger] item_start(p, k) % (block_item(p, k).size() as int) == 0
    &&& forall|k: int|
        0 <= k < block_count(p, v) && (#[trigger] block_item(p, k)) is Pointer && item_exists(p, k) ==> {
            &&& pointer_leads_to_block(p, block_values(v), ser_pointee(p, v)->Ok_0, k)
            &&& target_aligned(p, ser_pointee(p, v)->Ok_0, k)
            &&& blocks_well_formed(item_pointee(p, k), block_values(v)[block_item(p, k)->Pointer_ordinal as int])
        }
}

/// The nested block of pointer `k` is well formed.
proof fn lemma_nested_well_formed(p: PointeeModel, v: ValueModel, k: int)
    requires
        ser_pointee(p, v) is Ok,
        ser_pointee(p, v)->Ok_0.len() < pow256(8),
        0 <= k,
        block_item(p, k) is Pointer,
        item_exists(p, k),
        pointer_leads_to_block(p, block_values(v), ser_pointee(p, v)->Ok_0, k),
    ensures
        blocks_well_formed(item_pointee(p, k), block_values(v)[block_item(p, k)->Pointer_ordinal as int]),
    decreases p, 0int,
{
    reveal(pointer_leads_to_block);
    lemma_item_end_lower(p, k);
    lemma_item_start(p, k);
    assert(align_gap(item_end(p, k), block_item(p, k).size() as int) >= 0) by {
        let a = block_item(p, k).size() as int;
        assert(a == 1 || a == 2 || a == 4 || a == 8);
        crate::pack::lemma_align_gap(item_end(p, k), a);
    }
    lemma_blocks_well_formed(item_pointee(p, k), block_values(v)[block_item(p, k)->Pointer_ordinal as int]);
}

/// Every block that serializing `v` produces, the outer one and those nested
/// in it at any depth, is well formed, when the encoding is shorter than
/// 2^64 bytes.
#[verifier::spinoff_prover]
#[verifier::rlimit(50)]
pub proof fn lemma_blocks_well_formed(p: PointeeModel, v: ValueModel)
    requires
        ser_pointee(p, v) is Ok,
        ser_pointee(p, v)->Ok_0.len() < pow256(8),
    ensures
        blocks_well_formed(p, v),
    decreases p, 1int,
{
    lemma_header_size(p, v);
    lemma_pointer_offsets(p, v);
    lemma_ser_len_mod8(p, v);
    lemma_targets_of_block(p, v);
    assert forall|k: int| 0 <= k < block_count(p, v) implies #[trigger] item_start(p, k) % (block_item(p, k).size() as int) == 0 by {
        lemma_item_aligned(p, k);
    }
    assert forall|k: int|
        0 <= k < block_count(p, v) && (#[trigger] block_item(p, k)) is Pointer && item_exists(p, k) implies {
            &&& pointer_leads_to_block(p, block_values(v), ser_pointee(p, v)->Ok_0, k)
            &&& target_aligned(p, ser_pointee(p, v)->Ok_0, k)
            &&& blocks_well_formed(item_pointee(p, k), block_values(v)[block_item(p, k)->Pointer_ordinal as int])
        } by {
        lemma_nested_well_formed(p, v, k);
    }
}

} // verus!
