//! The parser: reads values back from bytes, given their wire layout.
//!
//! The wire format does not describe itself, so the layout says what each
//! byte means. Padding bytes are skipped unread, so that a newer sender's
//! trailing fields do not stop an older reader.
use vstd::prelude::*;

use crate::ast::{
    elements_model, field_values_model, layout_model, leaf_size, lemma_elements_model,
    lemma_field_values_model, lemma_layout_model, MojomError, MojomValue, MojomWireType, Ordinal,
    PackedArrayType, PackedLeafType, PackedStructuredType, PointeeModel, ValueModel, WireModel,
};
use crate::encoding::{le_bytes, le_value, lemma_le_value_bound, lemma_pow2_mono, pow2, pow256};
use crate::pack::{align_gap, first_empty_slot, lemma_align_gap, lemma_first_empty_slot, lemma_first_empty_slot_at};
use crate::parse_primitives::ParserData;
use crate::wire_format::{
    array_pointee,    bitfield_byte, block_item, item_exists, item_pointee, leaf_wire_value, used_slots,
};

verus! {

/// Absolute offset of the end of the first `k` inline elements of the block
/// that starts at `pos`.
pub open spec fn parse_item_end(pos: int, p: PointeeModel, k: int) -> int
    decreases k, 0int,
{
    if k <= 0 {
        pos + 8
    } else {
        parse_item_start(pos, p, k - 1) + block_item(p, k - 1).size()
    }
}

/// Absolute offset of inline element `k` of the block that starts at `pos`.
pub open spec fn parse_item_start(pos: int, p: PointeeModel, k: int) -> int
    decreases k, 1int,
{
    let e = parse_item_end(pos, p, k);
    e + align_gap(e, block_item(p, k).size() as int)
}

pub open spec fn is_signed(k: PackedLeafType) -> bool {
    k is Int8 || k is Int16 || k is Int32 || k is Int64
}

/// The integer of kind `k` whose little-endian bytes are `s`.
pub open spec fn read_leaf(s: Seq<u8>, k: PackedLeafType) -> int {
    let u = le_value(s) as int;
    if is_signed(k) && u >= pow256(leaf_size(k)) / 2 {
        u - pow256(leaf_size(k))
    } else {
        u
    }
}

/// Bit `i` of `b`, counting from the least significant.
pub open spec fn bit_of(b: u8, i: int) -> bool {
    (b as nat / pow2(i as nat)) % 2 == 1
}

/// The entry that stands for a field before it is read.
pub open spec fn placeholder() -> (Seq<char>, ValueModel) {
    (Seq::empty(), ValueModel::Int(PackedLeafType::Int8, 0))
}

/// The name that a parsed item carries: its wire element's name in a struct,
/// none in an array.
pub open spec fn item_name(p: PointeeModel, k: int) -> Seq<char> {
    match p {
        PointeeModel::Struct { fields } => fields[k].0,
        PointeeModel::Array { .. } => Seq::empty(),
    }
}

/// `res` after storing the booleans of the first `j` slots of a bitfield.
pub open spec fn bitfield_writes(
    res: Seq<(Seq<char>, ValueModel)>,
    ords: Seq<Option<usize>>,
    name: Seq<char>,
    b: u8,
    j: int,
) -> Seq<(Seq<char>, ValueModel)>
    decreases j,
{
    if j <= 0 {
        res
    } else {
        bitfield_writes(res, ords, name, b, j - 1).update(
            ords[j - 1]->Some_0 as int,
            (name, ValueModel::Bool(bit_of(b, j - 1))),
        )
    }
}

/// The error that reading inline element `k` meets, if any: it runs past the
/// input, or it is a pointer past the input.
pub open spec fn item_error(bytes: Seq<u8>, pos: int, p: PointeeModel, k: int) -> Option<MojomError> {
    let st = parse_item_start(pos, p, k);
    let w = block_item(p, k);
    if st + w.size() > bytes.len() {
        Some(MojomError::UnexpectedEndOfInput)
    } else if w is Pointer && st + le_value(bytes.subrange(st, st + 8)) > bytes.len() {
        Some(MojomError::PointerValueOutOfRange)
    } else {
        None
    }
}

/// `res` after reading inline element `k`: a struct stores by ordinal, an
/// array appends; a pointer's entry is filled in later.
pub open spec fn item_effect(
    bytes: Seq<u8>,
    pos: int,
    p: PointeeModel,
    res: Seq<(Seq<char>, ValueModel)>,
    k: int,
) -> Seq<(Seq<char>, ValueModel)> {
    let st = parse_item_start(pos, p, k);
    let name = item_name(p, k);
    match p {
        PointeeModel::Struct { .. } => match block_item(p, k) {
            WireModel::Leaf { ordinal, leaf_type } => res.update(
                ordinal as int,
                (name, ValueModel::Int(leaf_type, read_leaf(bytes.subrange(st, st + leaf_size(leaf_type)), leaf_type))),
            ),
            WireModel::Bitfield { ordinals } => bitfield_writes(res, ordinals, name, bytes[st], used_slots(ordinals)),
            WireModel::Pointer { .. } => res,
        },
        PointeeModel::Array { .. } => res.push(
            match block_item(p, k) {
                WireModel::Leaf { leaf_type, .. } => (
                    name,
                    ValueModel::Int(leaf_type, read_leaf(bytes.subrange(st, st + leaf_size(leaf_type)), leaf_type)),
                ),
                WireModel::Bitfield { .. } => (name, ValueModel::Bool(bit_of(bytes[st], 0))),
                WireModel::Pointer { .. } => placeholder(),
            },
        ),
    }
}

/// The entries after reading the first `k` inline elements, or the first error.
pub open spec fn parse_inline(
    bytes: Seq<u8>,
    pos: int,
    p: PointeeModel,
    k: int,
    res0: Seq<(Seq<char>, ValueModel)>,
) -> Result<Seq<(Seq<char>, ValueModel)>, MojomError>
    decreases k,
{
    if k <= 0 {
        Ok(res0)
    } else {
        match parse_inline(bytes, pos, p, k - 1, res0) {
            Err(e) => Err(e),
            Ok(res) => match item_error(bytes, pos, p, k - 1) {
                Some(e) => Err(e),
                None => Ok(item_effect(bytes, pos, p, res, k - 1)),
            },
        }
    }
}

/// Offset from the block's start at which the pointer of element `k` says
/// its target begins.
pub open spec fn pointer_target(bytes: Seq<u8>, pos: int, p: PointeeModel, k: int) -> int {
    let st = parse_item_start(pos, p, k);
    st - pos + le_value(bytes.subrange(st, st + 8))
}

/// The entries and the cursor after reading the nested blocks of the first
/// `k` inline elements, starting at `cur`; or the first error.
pub open spec fn parse_nested_pass(
    bytes: Seq<u8>,
    pos: int,
    p: PointeeModel,
    k: int,
    cur: int,
    res: Seq<(Seq<char>, ValueModel)>,
) -> Result<(Seq<(Seq<char>, ValueModel)>, int), MojomError>
    decreases p, 0int, k,
{
    if k <= 0 {
        Ok((res, cur))
    } else {
        match parse_nested_pass(bytes, pos, p, k - 1, cur, res) {
            Err(e) => Err(e),
            Ok((r, c)) => match block_item(p, k - 1) {
                WireModel::Pointer { ordinal, .. } => if !item_exists(p, k - 1) {
                    Ok((r, c))
                } else if c - pos != pointer_target(bytes, pos, p, k - 1) {
                    Err(MojomError::PointerOrderOrOffsetMismatch)
                } else {
                    match parse_pointee(bytes, c, item_pointee(p, k - 1)) {
                        Err(e) => Err(e),
                        Ok((v, end)) => Ok((r.update(ordinal as int, (item_name(p, k - 1), v)), end)),
                    }
                },
                _ => Ok((r, c)),
            },
        }
    }
}

/// The highest ordinal among the first `k` elements of a layout, or zero.
pub open spec fn max_ordinal(layout: Seq<(Seq<char>, WireModel)>, k: int) -> int
    decreases k,
{
    if k <= 0 {
        0
    } else {
        let m = max_ordinal(layout, k - 1);
        match layout[k - 1].1 {
            WireModel::Leaf { ordinal, .. } => if ordinal > m { ordinal as int } else { m },
            WireModel::Pointer { ordinal, .. } => if ordinal > m { ordinal as int } else { m },
            WireModel::Bitfield { ordinals } => slots_max(ordinals, used_slots(ordinals), m),
        }
    }
}

/// The larger of `m` and the ordinals in the first `j` slots.
pub open spec fn slots_max(ords: Seq<Option<usize>>, j: int, m: int) -> int
    decreases j,
{
    if j <= 0 {
        m
    } else {
        let r = slots_max(ords, j - 1, m);
        if ords[j - 1]->Some_0 > r {
            ords[j - 1]->Some_0 as int
        } else {
            r
        }
    }
}

/// Whether one of the first `j` slots of a bitfield holds ordinal `o`.
pub open spec fn slot_carries(ords: Seq<Option<usize>>, j: int, o: int) -> bool
    decreases j,
{
    j > 0 && (slot_carries(ords, j - 1, o) || (ords[j - 1] is Some && ords[j - 1]->Some_0 == o))
}

/// Whether element `w` carries the field with ordinal `o`.
pub open spec fn element_carries(w: WireModel, o: int) -> bool {
    match w {
        WireModel::Leaf { ordinal, .. } => ordinal == o,
        WireModel::Pointer { ordinal, .. } => ordinal == o,
        WireModel::Bitfield { ordinals } => slot_carries(ordinals, used_slots(ordinals), o),
    }
}

/// Whether one of the first `k` elements of a layout carries field `o`.
pub open spec fn layout_carries(layout: Seq<(Seq<char>, WireModel)>, k: int, o: int) -> bool
    decreases k,
{
    k > 0 && (layout_carries(layout, k - 1, o) || element_carries(layout[k - 1].1, o))
}

/// Whether one of the first `k` elements of a layout carries any field: all
/// but a bitfield with no used slot do.
pub open spec fn carries_any(layout: Seq<(Seq<char>, WireModel)>, k: int) -> bool
    decreases k,
{
    k > 0 && (carries_any(layout, k - 1) || !(layout[k - 1].1 is Bitfield && used_slots(
        layout[k - 1].1->Bitfield_ordinals,
    ) == 0))
}

/// The number of entries that parsing a struct gives: one past the highest
/// ordinal that the layout carries, or none when it carries no field.
pub open spec fn entry_count(layout: Seq<(Seq<char>, WireModel)>) -> int {
    if carries_any(layout, layout.len() as int) {
        max_ordinal(layout, layout.len() as int) + 1
    } else {
        0
    }
}

/// Every ordinal below the entry count is carried by some element, so that
/// no entry of a parsed struct is left unwritten.
pub open spec fn layout_dense(layout: Seq<(Seq<char>, WireModel)>) -> bool {
    forall|o: int| 0 <= o < entry_count(layout) ==> #[trigger] layout_carries(layout, layout.len() as int, o)
}

/// The entries before a block's inline elements are read.
pub open spec fn initial_entries(p: PointeeModel) -> Seq<(Seq<char>, ValueModel)> {
    match p {
        PointeeModel::Struct { fields } => Seq::new(entry_count(fields) as nat, |i: int| placeholder()),
        PointeeModel::Array { .. } => Seq::empty(),
    }
}

/// Whether `v` is a `UInt8` value.
pub open spec fn is_byte(v: ValueModel) -> bool {
    v matches ValueModel::Int(k, _) && k == PackedLeafType::UInt8
}

/// The value that a block's entries make: a struct, an array, or for a
/// string the text that its bytes encode in UTF-8.
pub open spec fn block_value(p: PointeeModel, res: Seq<(Seq<char>, ValueModel)>) -> Result<ValueModel, MojomError> {
    match p {
        PointeeModel::Struct { .. } => Ok(ValueModel::Struct(res)),
        PointeeModel::Array { kind, .. } => if kind is String {
            if forall|i: int| 0 <= i < res.len() ==> is_byte(#[trigger] res[i].1) {
                let b = Seq::new(res.len(), |i: int| res[i].1->Int_1 as u8);
                if vstd::utf8::valid_utf8(b) {
                    Ok(ValueModel::Str(vstd::utf8::decode_utf8(b)))
                } else {
                    Err(MojomError::TypeMismatch)
                }
            } else {
                Err(MojomError::TypeMismatch)
            }
        } else {
            Ok(ValueModel::Array(Seq::new(res.len(), |i: int| res[i].1)))
        },
    }
}

/// The second word of the header of the block at `pos`.
pub open spec fn header_word_at(bytes: Seq<u8>, pos: int) -> int {
    le_value(bytes.subrange(pos + 4, pos + 8)) as int
}

/// The number of inline elements of the block at `pos`: a struct's layout
/// length, or the length that an array's header gives.
pub open spec fn item_count(bytes: Seq<u8>, pos: int, p: PointeeModel) -> int {
    match p {
        PointeeModel::Struct { fields } => fields.len() as int,
        PointeeModel::Array { .. } => header_word_at(bytes, pos),
    }
}

/// Reads the header and the inline elements of the block at `pos`, checks
/// them against the header's size and skips to the size's end: the entries
/// and the cursor, or the first error.
pub open spec fn parse_front(bytes: Seq<u8>, pos: int, p: PointeeModel) -> Result<
    (Seq<(Seq<char>, ValueModel)>, int),
    MojomError,
> {
    if pos < 0 || pos + 8 > bytes.len() {
        Err(MojomError::UnexpectedEndOfInput)
    } else {
        let size = le_value(bytes.subrange(pos, pos + 4)) as int;
        let n = item_count(bytes, pos, p);
        if p matches PointeeModel::Array { kind: PackedArrayType::SizedArray(m), .. } && n != m {
            Err(MojomError::TypeMismatch)
        } else if p matches PointeeModel::Struct { fields } && max_ordinal(fields, fields.len() as int)
            >= usize::MAX {
            Err(MojomError::OrdinalOutOfRange)
        } else if p matches PointeeModel::Struct { fields } && !layout_dense(fields) {
            Err(MojomError::OrdinalOutOfRange)
        } else {
            match parse_inline(bytes, pos, p, n, initial_entries(p)) {
                Err(e) => Err(e),
                Ok(res) => if parse_item_end(pos, p, n) - pos > size {
                    Err(MojomError::HeaderSizeMismatch)
                } else if pos + size > bytes.len() {
                    Err(MojomError::UnexpectedEndOfInput)
                } else {
                    Ok((res, pos + size))
                },
            }
        }
    }
}

/// Reads the block that starts at `pos` as `p` describes, and its nested
/// blocks: the value, and the offset just after the last byte read.
pub open spec fn parse_pointee(bytes: Seq<u8>, pos: int, p: PointeeModel) -> Result<(ValueModel, int), MojomError>
    decreases p, 1int, 0int,
{
    match parse_front(bytes, pos, p) {
        Err(e) => Err(e),
        Ok((res, cur)) => match parse_nested_pass(bytes, pos, p, item_count(bytes, pos, p), cur, res) {
            Err(e) => Err(e),
            Ok((r, end)) => match block_value(p, r) {
                Err(e) => Err(e),
                Ok(v) => Ok((v, end)),
            },
        },
    }
}

/// The fields of the struct whose block starts at `pos`, under the given
/// layout, and the offset just after it.
pub open spec fn parse_struct_spec(
    bytes: Seq<u8>,
    pos: int,
    layout: Seq<(Seq<char>, WireModel)>,
) -> Result<(Seq<(Seq<char>, ValueModel)>, int), MojomError> {
    match parse_pointee(bytes, pos, PointeeModel::Struct { fields: layout }) {
        Err(e) => Err(e),
        Ok((v, end)) => Ok((v->Struct_0, end)),
    }
}

// ---------------------------------------------------------------------------
// Round trips of single elements
// ---------------------------------------------------------------------------

/// Whether `x` is a value of the scalar kind `k`.
pub open spec fn fits_leaf(k: PackedLeafType, x: int) -> bool {
    if is_signed(k) {
        -(pow256(leaf_size(k)) / 2) <= x < pow256(leaf_size(k)) / 2
    } else {
        0 <= x < pow256(leaf_size(k))
    }
}

/// Reading back the bytes that a scalar is written as gives the scalar.
pub proof fn lemma_leaf_round_trip(k: PackedLeafType, x: int)
    requires
        fits_leaf(k, x),
    ensures
        read_leaf(le_bytes(leaf_wire_value(k, x), leaf_size(k)), k) == x,
{
    reveal_with_fuel(pow256, 9);
    crate::encoding::lemma_le_round_trip(leaf_wire_value(k, x), leaf_size(k));
}

proof fn lemma_pow2_split(i: nat, j: nat)
    requires
        i <= j,
    ensures
        pow2(j) == pow2(i) * pow2((j - i) as nat),
        pow2(i) > 0,
    decreases j,
{
    lemma_pow2_mono(0, i);
    if i < j {
        lemma_pow2_split(i, (j - 1) as nat);
        assert(pow2(j) == 2 * pow2((j - 1) as nat));
        assert(pow2((j - i) as nat) == 2 * pow2((j - 1 - i) as nat));
        assert(pow2(j) == pow2(i) * pow2((j - i) as nat)) by (nonlinear_arith)
            requires
                pow2(j) == 2 * pow2((j - 1) as nat),
                pow2((j - 1) as nat) == pow2(i) * pow2((j - 1 - i) as nat),
                pow2((j - i) as nat) == 2 * pow2((j - 1 - i) as nat),
        ;
    } else {
        assert(pow2(0) == 1);
        assert((j - i) as nat == 0);
        assert(pow2(i) * 1 == pow2(i));
    }
}

/// Setting bit `j` of a byte whose bits from `j` on are clear keeps its lower
/// bits.
proof fn lemma_bit_step(b: nat, j: nat, x: bool, i: nat)
    requires
        j < 8,
        b < pow2(j),
        i <= j,
    ensures
        (b + if x { pow2(j) } else { 0 }) < pow2(j + 1),
        bit_of((b + if x { pow2(j) } else { 0 }) as u8, i as int) == if i == j {
            x
        } else {
            bit_of(b as u8, i as int)
        },
{
    let c: nat = if x { pow2(j) } else { 0 };
    lemma_pow2_mono(j + 1, 8);
    reveal_with_fuel(pow2, 9);
    assert(pow2(j + 1) == 2 * pow2(j));
    assert(b + c < 256);
    assert(((b + c) as u8) as nat == b + c);
    assert((b as u8) as nat == b);
    lemma_pow2_split(i, j);
    let p = pow2(i);
    let m = pow2((j - i) as nat);
    if i == j {
        assert(b / p == 0) by {
            vstd::arithmetic::div_mod::lemma_basic_div(b as int, p as int);
        }
        if x {
            assert((b + c) / p == 1) by {
                vstd::arithmetic::div_mod::lemma_div_plus_one(b as int, p as int);
            }
        } else {
            assert((b + c) / p == 0);
        }
    } else {
        let q: nat = if x { m } else { 0 };
        assert(c == q * p) by (nonlinear_arith)
            requires
                x ==> c == pow2(j),
                !x ==> c == 0,
                x ==> q == m,
                !x ==> q == 0,
                pow2(j) == p * m,
        ;
        assert((b + c) / p == b / p + q) by {
            vstd::arithmetic::div_mod::lemma_hoist_over_denominator(b as int, q as int, p);
        }
        assert(m == 2 * pow2((j - i - 1) as nat));
        let h: nat = if x { pow2((j - i - 1) as nat) } else { 0 };
        assert(q == 2 * h);
        assert((b / p + q) % 2 == (b / p) % 2) by {
            vstd::arithmetic::div_mod::lemma_mod_multiples_vanish(h as int, (b / p) as int, 2);
        }
    }
}

/// Reading back the bits of a bitfield byte gives the booleans that were
/// packed into its first `j` slots.
pub proof fn lemma_bitfield_round_trip(ords: Seq<Option<usize>>, vals: Seq<ValueModel>, j: int)
    requires
        0 <= j <= 8,
        bitfield_byte(ords, vals, j) is Ok,
    ensures
        bitfield_byte(ords, vals, j)->Ok_0 < pow2(j as nat),
        forall|i: int|
            0 <= i < j ==> bit_of(bitfield_byte(ords, vals, j)->Ok_0 as u8, i) == (#[trigger] vals[ords[i]->Some_0 as int])->Bool_0,
    decreases j,
{
    if j > 0 {
        lemma_bitfield_round_trip(ords, vals, j - 1);
        let b = bitfield_byte(ords, vals, j - 1)->Ok_0;
        let x = vals[ords[j - 1]->Some_0 as int]->Bool_0;
        assert forall|i: int| 0 <= i < j implies bit_of(bitfield_byte(ords, vals, j)->Ok_0 as u8, i) == (
        #[trigger] vals[ords[i]->Some_0 as int])->Bool_0 by {
            lemma_bit_step(b, (j - 1) as nat, x, i as nat);
        }
        lemma_bit_step(b, (j - 1) as nat, x, 0);
    } else {
        assert(pow2(0) == 1);
    }
}

// ---------------------------------------------------------------------------
// Facts used by the parser's proofs
// ---------------------------------------------------------------------------

/// Every ordinal that `w` names is at most `m`.
pub open spec fn ordinals_at_most(w: WireModel, m: int) -> bool {
    match w {
        WireModel::Leaf { ordinal, .. } => ordinal <= m,
        WireModel::Pointer { ordinal, .. } => ordinal <= m,
        WireModel::Bitfield { ordinals } => forall|i: int|
            0 <= i < used_slots(ordinals) ==> (#[trigger] ordinals[i])->Some_0 <= m,
    }
}

proof fn lemma_slots_max(ords: Seq<Option<usize>>, j: int, m: int)
    ensures
        slots_max(ords, j, m) >= m,
        forall|i: int| 0 <= i < j ==> (#[trigger] ords[i])->Some_0 <= slots_max(ords, j, m),
    decreases j,
{
    if j > 0 {
        lemma_slots_max(ords, j - 1, m);
    }
}

proof fn lemma_max_ordinal_grows(layout: Seq<(Seq<char>, WireModel)>, k: int, n: int)
    requires
        0 <= k <= n,
    ensures
        max_ordinal(layout, k) <= max_ordinal(layout, n),
    decreases n - k,
{
    if k < n {
        lemma_max_ordinal_grows(layout, k, n - 1);
        if let WireModel::Bitfield { ordinals } = layout[n - 1].1 {
            lemma_slots_max(ordinals, used_slots(ordinals), max_ordinal(layout, n - 1));
        }
    }
}

/// The highest ordinal bounds every ordinal of the layout.
pub proof fn lemma_max_ordinal_bound(layout: Seq<(Seq<char>, WireModel)>, n: int)
    requires
        0 <= n <= layout.len(),
    ensures
        forall|j: int| 0 <= j < n ==> ordinals_at_most(#[trigger] layout[j].1, max_ordinal(layout, n)),
        max_ordinal(layout, n) >= 0,
    decreases n,
{
    if n > 0 {
        lemma_max_ordinal_bound(layout, n - 1);
        lemma_max_ordinal_grows(layout, n - 1, n);
        if let WireModel::Bitfield { ordinals } = layout[n - 1].1 {
            lemma_slots_max(ordinals, used_slots(ordinals), max_ordinal(layout, n - 1));
        }
        assert forall|j: int| 0 <= j < n implies ordinals_at_most(#[trigger] layout[j].1, max_ordinal(layout, n)) by {
            if j < n - 1 {
                assert(ordinals_at_most(layout[j].1, max_ordinal(layout, n - 1)));
            }
        }
    }
}

pub proof fn lemma_parse_inline_err(
    bytes: Seq<u8>,
    pos: int,
    p: PointeeModel,
    k: int,
    n: int,
    res0: Seq<(Seq<char>, ValueModel)>,
)
    requires
        0 <= k <= n,
        parse_inline(bytes, pos, p, k, res0) is Err,
    ensures
        parse_inline(bytes, pos, p, n, res0) == parse_inline(bytes, pos, p, k, res0),
    decreases n - k,
{
    if k < n {
        lemma_parse_inline_err(bytes, pos, p, k, n - 1, res0);
    }
}

pub proof fn lemma_parse_nested_err(
    bytes: Seq<u8>,
    pos: int,
    p: PointeeModel,
    k: int,
    n: int,
    cur: int,
    res: Seq<(Seq<char>, ValueModel)>,
)
    requires
        0 <= k <= n,
        parse_nested_pass(bytes, pos, p, k, cur, res) is Err,
    ensures
        parse_nested_pass(bytes, pos, p, n, cur, res) == parse_nested_pass(bytes, pos, p, k, cur, res),
    decreases n - k,
{
    if k < n {
        lemma_parse_nested_err(bytes, pos, p, k, n - 1, cur, res);
    }
}

proof fn lemma_field_values_update(v: Seq<(String, MojomValue)>, i: int, x: (String, MojomValue))
    requires
        0 <= i < v.len(),
    ensures
        field_values_model(v.update(i, x)) == field_values_model(v).update(i, (x.0@, x.1@)),
{
    lemma_field_values_model(v);
    lemma_field_values_model(v.update(i, x));
    assert(field_values_model(v.update(i, x)) =~= field_values_model(v).update(i, (x.0@, x.1@)));
}

pub proof fn lemma_parse_item_end_lower(pos: int, p: PointeeModel, k: int)
    ensures
        parse_item_end(pos, p, k) >= pos + 8,
        parse_item_start(pos, p, k) >= parse_item_end(pos, p, k),
    decreases k,
{
    let a = block_item(p, k).size() as int;
    assert(a == 1 || a == 2 || a == 4 || a == 8);
    if k > 0 {
        lemma_parse_item_end_lower(pos, p, k - 1);
        let b = block_item(p, k - 1).size() as int;
        assert(b == 1 || b == 2 || b == 4 || b == 8);
        lemma_align_gap(parse_item_end(pos, p, k - 1) - pos, b);
    }
    assert(align_gap(parse_item_end(pos, p, k), a) >= 0);
}

pub proof fn lemma_carries_any(layout: Seq<(Seq<char>, WireModel)>, j: int, n: int)
    requires
        0 <= j < n,
        !(layout[j].1 is Bitfield && used_slots(layout[j].1->Bitfield_ordinals) == 0),
    ensures
        carries_any(layout, n),
    decreases n,
{
    if j < n - 1 {
        lemma_carries_any(layout, j, n - 1);
    }
}

/// Every ordinal of a layout is below its entry count.
pub proof fn lemma_entries_cover(layout: Seq<(Seq<char>, WireModel)>)
    ensures
        forall|j: int|
            0 <= j < layout.len() ==> ordinals_at_most(#[trigger] layout[j].1, entry_count(layout) - 1),
        entry_count(layout) >= 0,
        carries_any(layout, layout.len() as int) ==> entry_count(layout) == max_ordinal(layout, layout.len() as int) + 1,
{
    let n = layout.len() as int;
    lemma_max_ordinal_bound(layout, n);
    assert forall|j: int| 0 <= j < n implies ordinals_at_most(#[trigger] layout[j].1, entry_count(layout) - 1) by {
        assert(ordinals_at_most(layout[j].1, max_ordinal(layout, n)));
        if !(layout[j].1 is Bitfield && used_slots(layout[j].1->Bitfield_ordinals) == 0) {
            lemma_carries_any(layout, j, n);
        }
    }
}

/// Entries without names.
pub open spec fn unnamed(vals: Seq<ValueModel>) -> Seq<(Seq<char>, ValueModel)> {
    Seq::new(vals.len(), |i: int| (Seq::<char>::empty(), vals[i]))
}

/// Parses a scalar of the given kind.
fn parse_leaf_element(data: &mut ParserData, ty: &PackedLeafType) -> (r: Result<MojomValue, MojomError>)
    requires
        old(data).wf(),
    ensures
        final(data).wf(),
        final(data).bytes() == old(data).bytes(),
        old(data).pos() + leaf_size(*ty) <= old(data).bytes().len() ==> (r matches Ok(v) && v@
            == ValueModel::Int(
            *ty,
            read_leaf(old(data).bytes().subrange(old(data).pos(), old(data).pos() + leaf_size(*ty)), *ty),
        ) && final(data).pos() == old(data).pos() + leaf_size(*ty)),
        old(data).pos() + leaf_size(*ty) > old(data).bytes().len() ==> r == Err::<MojomValue, MojomError>(
            MojomError::UnexpectedEndOfInput,
        ),
{
    let ghost s = old(data).bytes().subrange(old(data).pos(), old(data).pos() + leaf_size(*ty));
    proof {
        reveal_with_fuel(pow256, 9);
        lemma_le_value_bound(s);
    }
    match ty {
        PackedLeafType::UInt8 => match data.parse_uint(1) {
            Ok(u) => Ok(MojomValue::UInt8(u as u8)),
            Err(e) => Err(e),
        },
        PackedLeafType::UInt16 => match data.parse_uint(2) {
            Ok(u) => Ok(MojomValue::UInt16(u as u16)),
            Err(e) => Err(e),
        },
        PackedLeafType::UInt32 => match data.parse_uint(4) {
            Ok(u) => Ok(MojomValue::UInt32(u as u32)),
            Err(e) => Err(e),
        },
        PackedLeafType::UInt64 => match data.parse_uint(8) {
            Ok(u) => Ok(MojomValue::UInt64(u)),
            Err(e) => Err(e),
        },
        PackedLeafType::Int8 => match data.parse_uint(1) {
            Ok(u) => Ok(MojomValue::Int8(if u >= 0x80 { (u as i128 - 0x100) as i8 } else { u as i8 })),
            Err(e) => Err(e),
        },
        PackedLeafType::Int16 => match data.parse_uint(2) {
            Ok(u) => Ok(MojomValue::Int16(if u >= 0x8000 { (u as i128 - 0x1_0000) as i16 } else { u as i16 })),
            Err(e) => Err(e),
        },
        PackedLeafType::Int32 => match data.parse_uint(4) {
            Ok(u) => Ok(
                MojomValue::Int32(
                    if u >= 0x8000_0000 {
                        (u as i128 - 0x1_0000_0000) as i32
                    } else {
                        u as i32
                    },
                ),
            ),
            Err(e) => Err(e),
        },
        PackedLeafType::Int64 => match data.parse_uint(8) {
            Ok(u) => Ok(
                MojomValue::Int64(
                    if u >= 0x8000_0000_0000_0000 {
                        (u as i128 - 0x1_0000_0000_0000_0000) as i64
                    } else {
                        u as i64
                    },
                ),
            ),
            Err(e) => Err(e),
        },
    }
}

/// Skips as many bytes as the given alignment needs. The skipped bytes are
/// not checked to be zero.
fn skip_to_alignment(data: &mut ParserData, alignment: usize) -> (r: Result<(), MojomError>)
    requires
        old(data).wf(),
        alignment == 1 || alignment == 2 || alignment == 4 || alignment == 8,
    ensures
        final(data).wf(),
        final(data).bytes() == old(data).bytes(),
        old(data).pos() + align_gap(old(data).pos(), alignment as int) <= old(data).bytes().len() ==> r is Ok
            && final(data).pos() == old(data).pos() + align_gap(old(data).pos(), alignment as int),
        old(data).pos() + align_gap(old(data).pos(), alignment as int) > old(data).bytes().len() ==> r
            == Err::<(), MojomError>(MojomError::UnexpectedEndOfInput),
{
    let mismatch = data.bytes_parsed() % alignment;
    proof {
        let a = alignment as int;
        let m = mismatch as int;
        if m != 0 {
            assert((a - m) % a == a - m) by {
                vstd::arithmetic::div_mod::lemma_small_mod((a - m) as nat, a as nat);
            }
        } else {
            assert(a % a == 0) by {
                vstd::arithmetic::div_mod::lemma_mod_self_0(a);
            }
        }
    }
    if mismatch == 0 {
        Ok(())
    } else {
        data.parse_padding(alignment - mismatch)
    }
}

/// Returns the highest ordinal that appears in a layout, or zero.
fn get_max_ordinal(fields: &Vec<(String, MojomWireType)>) -> (r: Ordinal)
    ensures
        r == max_ordinal(layout_model(fields@), fields@.len() as int),
{
    proof {
        lemma_layout_model(fields@);
    }
    let mut max_so_far: Ordinal = 0;
    let mut i: usize = 0;
    while i < fields.len()
        invariant
            0 <= i <= fields@.len(),
            layout_model(fields@).len() == fields@.len(),
            forall|j: int|
                0 <= j < fields@.len() ==> #[trigger] layout_model(fields@)[j] == (fields@[j].0@, fields@[j].1@),
            max_so_far == max_ordinal(layout_model(fields@), i as int),
        decreases fields@.len() - i,
    {
        match &fields[i].1 {
            MojomWireType::Leaf { ordinal, .. } => if *ordinal > max_so_far {
                max_so_far = *ordinal;
            },
            MojomWireType::Pointer { ordinal, .. } => if *ordinal > max_so_far {
                max_so_far = *ordinal;
            },
            MojomWireType::Bitfield { ordinals } => {
                let ghost ords = ordinals@;
                let ghost m0 = max_so_far as int;
                let mut idx: usize = 0;
                while idx < 8 && ordinals[idx].is_some()
                    invariant
                        0 <= idx <= 8,
                        ords == ordinals@,
                        ords.len() == 8,
                        forall|m: int| 0 <= m < idx ==> ords[m] is Some,
                        max_so_far == slots_max(ords, idx as int, m0),
                    decreases 8 - idx,
                {
                    let ordinal = ordinals[idx].unwrap();
                    if ordinal > max_so_far {
                        max_so_far = ordinal;
                    }
                    idx = idx + 1;
                }
                proof {
                    lemma_first_empty_slot(ords, 0);
                    if idx < 8 {
                        lemma_first_empty_slot_at(ords, 0, idx as int);
                    }
                    assert(used_slots(ords) == idx);
                }
            },
        }
        i = i + 1;
    }
    max_so_far
}

/// Checks that every ordinal below the layout's entry count is carried by
/// some element, and returns that count.
fn dense_entry_count(fields: &Vec<(String, MojomWireType)>, max: usize) -> (r: Option<usize>)
    requires
        max == max_ordinal(layout_model(fields@), fields@.len() as int),
        max < usize::MAX,
    ensures
        r matches Some(c) ==> c == entry_count(layout_model(fields@)) && layout_dense(layout_model(fields@)),
        r is None ==> !layout_dense(layout_model(fields@)),
{
    let ghost layout = layout_model(fields@);
    let ghost n = fields@.len() as int;
    proof {
        lemma_layout_model(fields@);
        lemma_max_ordinal_bound(layout, n);
    }
    let mut marks: Vec<bool> = Vec::new();
    let mut j: usize = 0;
    while j <= max
        invariant
            max < usize::MAX,
            0 <= j <= max + 1,
            marks@.len() == j,
            forall|o: int| 0 <= o < j ==> !(#[trigger] marks@[o]),
        decreases max + 1 - j,
    {
        marks.push(false);
        j = j + 1;
    }
    let mut any = false;
    let mut i: usize = 0;
    while i < fields.len()
        invariant
            0 <= i <= n,
            n == fields@.len(),
            layout == layout_model(fields@),
            layout.len() == n,
            forall|k: int| 0 <= k < n ==> #[trigger] layout[k] == (fields@[k].0@, fields@[k].1@),
            forall|k: int| 0 <= k < n ==> ordinals_at_most(#[trigger] layout[k].1, max as int),
            marks@.len() == max + 1,
            forall|o: int| 0 <= o <= max ==> #[trigger] marks@[o] == layout_carries(layout, i as int, o),
            any == carries_any(layout, i as int),
        decreases n - i,
    {
        proof {
            assert(ordinals_at_most(layout[i as int].1, max as int));
        }
        match &fields[i].1 {
            MojomWireType::Leaf { ordinal, .. } => {
                marks.set(*ordinal, true);
                any = true;
            },
            MojomWireType::Pointer { ordinal, .. } => {
                marks.set(*ordinal, true);
                any = true;
            },
            MojomWireType::Bitfield { ordinals } => {
                let ghost ords = ordinals@;
                proof {
                    lemma_first_empty_slot(ords, 0);
                }
                let mut idx: usize = 0;
                while idx < 8 && ordinals[idx].is_some()
                    invariant
                        0 <= idx <= 8,
                        ords == ordinals@,
                        ords.len() == 8,
                        forall|m: int| 0 <= m < idx ==> ords[m] is Some,
                        first_empty_slot(ords, 0) matches Some(k) ==> idx <= k,
                        forall|k: int| 0 <= k < used_slots(ords) ==> (#[trigger] ords[k])->Some_0 <= max,
                        marks@.len() == max + 1,
                        forall|o: int|
                            0 <= o <= max ==> #[trigger] marks@[o] == (layout_carries(layout, i as int, o)
                                || slot_carries(ords, idx as int, o)),
                        any == (carries_any(layout, i as int) || idx > 0),
                    decreases 8 - idx,
                {
                    let ordinal = ordinals[idx].unwrap();
                    proof {
                        lemma_first_empty_slot(ords, 0);
                        if first_empty_slot(ords, 0) is Some {
                            assert(first_empty_slot(ords, 0)->0 != idx);
                        }
                        assert(idx < used_slots(ords));
                    }
                    marks.set(ordinal, true);
                    any = true;
                    idx = idx + 1;
                }
                proof {
                    lemma_first_empty_slot(ords, 0);
                    if idx < 8 {
                        lemma_first_empty_slot_at(ords, 0, idx as int);
                    }
                    assert(used_slots(ords) == idx);
                }
            },
        }
        i = i + 1;
    }
    let count = if any {
        max + 1
    } else {
        0
    };
    let mut o: usize = 0;
    while o < count
        invariant
            0 <= o <= count,
            count == entry_count(layout),
            layout == layout_model(fields@),
            layout.len() == n,
            n == fields@.len(),
            count <= max + 1,
            marks@.len() == max + 1,
            forall|q: int| 0 <= q <= max ==> #[trigger] marks@[q] == layout_carries(layout, n, q),
            forall|q: int| 0 <= q < o ==> layout_carries(layout, n, q),
        decreases count - o,
    {
        if !marks[o] {
            assert(!layout_carries(layout, n, o as int));
            return None;
        }
        o = o + 1;
    }
    Some(count)
}

/// Relies on `String::from_utf8`: it succeeds exactly when the bytes are valid
/// UTF-8, and the string then holds the characters that they encode.
#[verifier::external_body]
fn string_from_utf8(bytes: Vec<u8>) -> (r: Option<String>)
    ensures
        r is Some <==> vstd::utf8::valid_utf8(bytes@),
        r matches Some(s) ==> s@ == vstd::utf8::decode_utf8(bytes@),
{
    String::from_utf8(bytes).ok()
}

/// Stores the booleans of a bitfield byte `b` under the ordinals of its used
/// slots.
fn store_bitfield(
    ret: &mut Vec<(String, MojomValue)>,
    ordinals: &[Option<Ordinal>; 8],
    name: &String,
    b: u8,
)
    requires
        forall|i: int|
            0 <= i < used_slots(ordinals@) ==> (#[trigger] ordinals@[i])->Some_0 < old(ret)@.len(),
    ensures
        final(ret)@.len() == old(ret)@.len(),
        field_values_model(final(ret)@) == bitfield_writes(
            field_values_model(old(ret)@),
            ordinals@,
            name@,
            b,
            used_slots(ordinals@),
        ),
{
    let ghost ords = ordinals@;
    proof {
        lemma_first_empty_slot(ords, 0);
    }
    let mut bits: u8 = b;
    let mut idx: usize = 0;
    assert(pow2(0) == 1);
    while idx < 8 && ordinals[idx].is_some()
        invariant
            0 <= idx <= 8,
            ords == ordinals@,
            ords.len() == 8,
            forall|m: int| 0 <= m < idx ==> ords[m] is Some,
            first_empty_slot(ords, 0) matches Some(k) ==> idx <= k,
            forall|i: int| 0 <= i < used_slots(ords) ==> (#[trigger] ords[i])->Some_0 < old(ret)@.len(),
            ret@.len() == old(ret)@.len(),
            bits as nat == b as nat / pow2(idx as nat),
            field_values_model(ret@) == bitfield_writes(field_values_model(old(ret)@), ords, name@, b, idx as int),
        decreases 8 - idx,
    {
        let ordinal = ordinals[idx].unwrap();
        proof {
            lemma_first_empty_slot(ords, 0);
            if first_empty_slot(ords, 0) is Some {
                let k = first_empty_slot(ords, 0)->0;
                assert(k != idx);
            }
            assert(idx < used_slots(ords));
        }
        let entry = (name.clone(), MojomValue::Bool(bits % 2 == 1));
        let ghost before = ret@;
        ret[ordinal] = entry;
        proof {
            assert(ret@ == before.update(ordinal as int, entry));
            lemma_field_values_update(before, ordinal as int, entry);
            lemma_pow2_mono(0, idx as nat);
            vstd::arithmetic::div_mod::lemma_div_denominator(b as int, pow2(idx as nat) as int, 2);
            assert(pow2(idx as nat + 1) == pow2(idx as nat) * 2);
        }
        bits = bits / 2;
        idx = idx + 1;
    }
    proof {
        lemma_first_empty_slot(ords, 0);
        if idx < 8 {
            lemma_first_empty_slot_at(ords, 0, idx as int);
        }
        assert(used_slots(ords) == idx);
    }
}

/// Reads the header and the inline elements of a struct block, and skips to
/// the end that the header gives. Returns the fields read so far and, for
/// each element, where its pointer says the target starts.
fn parse_struct_front(data: &mut ParserData, fields: &Vec<(String, MojomWireType)>) -> (r: Result<
    (Vec<(String, MojomValue)>, Vec<usize>),
    MojomError,
>)
    requires
        old(data).wf(),
    ensures
        final(data).wf(),
        final(data).bytes() == old(data).bytes(),
        match parse_front(old(data).bytes(), old(data).pos(), PointeeModel::Struct { fields: layout_model(fields@) }) {
            Ok((res, cur)) => r matches Ok((v, targets)) && field_values_model(v@) == res && final(data).pos() == cur
                && v@.len() == entry_count(layout_model(fields@))
                && targets@.len() == fields@.len() && forall|k: int|
                0 <= k < fields@.len() && fields@[k].1@ is Pointer ==> #[trigger] targets@[k]
                    == pointer_target(
                    old(data).bytes(),
                    old(data).pos(),
                    PointeeModel::Struct { fields: layout_model(fields@) },
                    k,
                ),
            Err(e) => r == Err::<(Vec<(String, MojomValue)>, Vec<usize>), MojomError>(e),
        },
{
    let ghost bytes = old(data).bytes();
    let ghost pos = old(data).pos();
    let ghost layout = layout_model(fields@);
    let ghost p = PointeeModel::Struct { fields: layout };
    let ghost n = fields@.len() as int;
    proof {
        lemma_layout_model(fields@);
        lemma_max_ordinal_bound(layout, n);
    }
    let initial = data.bytes_parsed();
    let size = match data.parse_uint(4) {
        Ok(s) => s,
        Err(e) => return Err(e),
    };
    // The version is not used: fields that a newer sender adds follow ours.
    let _version = match data.parse_uint(4) {
        Ok(v) => v,
        Err(e) => return Err(e),
    };
    proof {
        lemma_le_value_bound(bytes.subrange(pos, pos + 4));
        reveal_with_fuel(pow256, 5);
    }
    let max = get_max_ordinal(fields);
    if max == usize::MAX {
        return Err(MojomError::OrdinalOutOfRange);
    }
    // No entry may be left without an element that writes it.
    let count = match dense_entry_count(fields, max) {
        Some(c) => c,
        None => return Err(MojomError::OrdinalOutOfRange),
    };
    proof {
        lemma_entries_cover(layout);
    }
    // One entry per ordinal, each overwritten as its field is read.
    let mut ret: Vec<(String, MojomValue)> = Vec::new();
    let mut j: usize = 0;
    while j < count
        invariant
            count == entry_count(layout),
            0 <= j <= count,
            ret@.len() == j,
            forall|i: int| 0 <= i < j ==> (#[trigger] ret@[i]).0@ == Seq::<char>::empty() && ret@[i].1
                == MojomValue::Int8(0),
        decreases count - j,
    {
        ret.push((String::new(), MojomValue::Int8(0)));
        j = j + 1;
    }
    proof {
        lemma_field_values_model(ret@);
        assert(field_values_model(ret@) =~= initial_entries(p));
    }
    let mut targets: Vec<usize> = Vec::new();
    let mut i: usize = 0;
    while i < fields.len()
        invariant
            data.wf(),
            data.bytes() == bytes,
            bytes == old(data).bytes(),
            pos == old(data).pos(),
            pos + 8 <= bytes.len(),
            max < usize::MAX,
            initial == pos,
            p == (PointeeModel::Struct { fields: layout }),
            layout == layout_model(fields@),
            n == fields@.len(),
            layout.len() == n,
            forall|j: int| 0 <= j < n ==> #[trigger] layout[j] == (fields@[j].0@, fields@[j].1@),
            forall|j: int| 0 <= j < n ==> ordinals_at_most(#[trigger] layout[j].1, count - 1),
            max == max_ordinal(layout, n),
            layout_dense(layout),
            count == entry_count(layout),
            ret@.len() == count,
            0 <= i <= n,
            parse_inline(bytes, pos, p, i as int, initial_entries(p)) == Ok::<
                Seq<(Seq<char>, ValueModel)>,
                MojomError,
            >(field_values_model(ret@)),
            data.pos() == parse_item_end(pos, p, i as int),
            targets@.len() == i,
            forall|k: int|
                0 <= k < i && fields@[k].1@ is Pointer ==> #[trigger] targets@[k] == pointer_target(bytes, pos, p, k),
        decreases n - i,
    {
        let name = &fields[i].0;
        let w = &fields[i].1;
        let ghost res = field_values_model(ret@);
        let ghost st = parse_item_start(pos, p, i as int);
        proof {
            assert(block_item(p, i as int) == w@);
            assert(ordinals_at_most(w@, count - 1));
            lemma_parse_item_end_lower(pos, p, i as int);
        }
        match skip_to_alignment(data, w.alignment()) {
            Ok(()) => {},
            Err(e) => {
                proof {
                    assert(item_error(bytes, pos, p, i as int) == Some(e));
                    lemma_parse_inline_err(bytes, pos, p, i + 1, n, initial_entries(p));
                }
                return Err(e);
            },
        }
        match w {
            MojomWireType::Pointer { .. } => {
                let pointer_value = match data.parse_uint(8) {
                    Ok(v) => v,
                    Err(e) => {
                        proof {
                            lemma_parse_inline_err(bytes, pos, p, i + 1, n, initial_entries(p));
                        }
                        return Err(e);
                    },
                };
                let start = data.bytes_parsed() - 8;
                proof {
                    lemma_le_value_bound(bytes.subrange(st, st + 8));
                    reveal_with_fuel(pow256, 9);
                }
                if pointer_value > (data.len() - start) as u64 {
                    proof {
                        assert(item_error(bytes, pos, p, i as int) == Some(MojomError::PointerValueOutOfRange));
                        lemma_parse_inline_err(bytes, pos, p, i + 1, n, initial_entries(p));
                    }
                    return Err(MojomError::PointerValueOutOfRange);
                }
                targets.push(start - initial + pointer_value as usize);
                proof {
                    assert(start == st);
                    assert(item_error(bytes, pos, p, i as int) is None);
                    assert(item_effect(bytes, pos, p, res, i as int) == res);
                    assert(targets@[i as int] == pointer_target(bytes, pos, p, i as int));
                }
            },
            MojomWireType::Leaf { ordinal, leaf_type } => {
                let value = match parse_leaf_element(data, leaf_type) {
                    Ok(v) => v,
                    Err(e) => {
                        proof {
                            lemma_parse_inline_err(bytes, pos, p, i + 1, n, initial_entries(p));
                        }
                        return Err(e);
                    },
                };
                let entry = (name.clone(), value);
                let ghost before = ret@;
                ret[*ordinal] = entry;
                proof {
                    lemma_field_values_update(before, *ordinal as int, entry);
                    assert(item_error(bytes, pos, p, i as int) is None);
                    assert(item_name(p, i as int) == name@);
                    assert(item_effect(bytes, pos, p, res, i as int) == field_values_model(ret@));
                }
                targets.push(0);
            },
            MojomWireType::Bitfield { ordinals } => {
                let b = match data.parse_uint(1) {
                    Ok(v) => v,
                    Err(e) => {
                        proof {
                            lemma_parse_inline_err(bytes, pos, p, i + 1, n, initial_entries(p));
                        }
                        return Err(e);
                    },
                };
                proof {
                    lemma_le_value_bound(bytes.subrange(st, st + 1));
                    reveal_with_fuel(pow256, 2);
                    reveal_with_fuel(le_value, 2);
                    assert(bytes.subrange(st, st + 1).drop_first().len() == 0);
                }
                store_bitfield(&mut ret, ordinals, name, b as u8);
                proof {
                    assert(item_error(bytes, pos, p, i as int) is None);
                    assert(bytes[st] == b as u8);
                    assert(item_effect(bytes, pos, p, res, i as int) == field_values_model(ret@));
                }
                targets.push(0);
            },
        }
        i = i + 1;
    }
    proof {
        lemma_parse_item_end_lower(pos, p, n);
    }
    let consumed = data.bytes_parsed() - initial;
    if consumed as u64 > size {
        return Err(MojomError::HeaderSizeMismatch);
    }
    match data.parse_padding((size - consumed as u64) as usize) {
        Ok(()) => {},
        Err(e) => return Err(e),
    }
    Ok((ret, targets))
}

proof fn lemma_unnamed_push(v: Seq<MojomValue>, x: MojomValue)
    ensures
        unnamed(elements_model(v.push(x))) == unnamed(elements_model(v)).push((Seq::<char>::empty(), x@)),
{
    lemma_elements_model(v);
    lemma_elements_model(v.push(x));
    assert(unnamed(elements_model(v.push(x))) =~= unnamed(elements_model(v)).push((Seq::<char>::empty(), x@)));
}

proof fn lemma_unnamed_update(v: Seq<MojomValue>, k: int, x: MojomValue)
    requires
        0 <= k < v.len(),
    ensures
        unnamed(elements_model(v.update(k, x))) == unnamed(elements_model(v)).update(
            k,
            (Seq::<char>::empty(), x@),
        ),
{
    lemma_elements_model(v);
    lemma_elements_model(v.update(k, x));
    assert(unnamed(elements_model(v.update(k, x))) =~= unnamed(elements_model(v)).update(
        k,
        (Seq::<char>::empty(), x@),
    ));
}

/// Reads the header and the inline elements of an array block, and skips to
/// the end that the header gives. Returns the elements read so far (a
/// placeholder for each pointer) and where each pointer's target starts.
fn parse_array_front(
    data: &mut ParserData,
    element_type: &MojomWireType,
    array_type: PackedArrayType,
) -> (r: Result<(Vec<MojomValue>, Vec<usize>), MojomError>)
    requires
        old(data).wf(),
    ensures
        final(data).wf(),
        final(data).bytes() == old(data).bytes(),
        match parse_front(old(data).bytes(), old(data).pos(), array_pointee(element_type@, array_type)) {
            Ok((res, cur)) => r matches Ok((v, targets)) && unnamed(elements_model(v@)) == res
                && final(data).pos() == cur && v@.len() == item_count(
                old(data).bytes(),
                old(data).pos(),
                array_pointee(element_type@, array_type),
            ) && targets@.len() == v@.len() && (element_type@ is Pointer ==> forall|k: int|
                0 <= k < v@.len() ==> #[trigger] targets@[k] == pointer_target(
                    old(data).bytes(),
                    old(data).pos(),
                    array_pointee(element_type@, array_type),
                    k,
                )),
            Err(e) => r == Err::<(Vec<MojomValue>, Vec<usize>), MojomError>(e),
        },
{
    let ghost bytes = old(data).bytes();
    let ghost pos = old(data).pos();
    let ghost p = array_pointee(element_type@, array_type);
    let initial = data.bytes_parsed();
    let size = match data.parse_uint(4) {
        Ok(s) => s,
        Err(e) => return Err(e),
    };
    let count = match data.parse_uint(4) {
        Ok(c) => c,
        Err(e) => return Err(e),
    };
    proof {
        lemma_le_value_bound(bytes.subrange(pos, pos + 4));
        lemma_le_value_bound(bytes.subrange(pos + 4, pos + 8));
        reveal_with_fuel(pow256, 5);
    }
    let n = count as usize;
    match array_type {
        PackedArrayType::SizedArray(m) => if n != m {
            return Err(MojomError::TypeMismatch);
        },
        _ => {},
    }
    let mut elements: Vec<MojomValue> = Vec::new();
    let mut targets: Vec<usize> = Vec::new();
    proof {
        lemma_elements_model(elements@);
        assert(unnamed(elements_model(elements@)) =~= initial_entries(p));
    }
    let mut k: usize = 0;
    while k < n
        invariant
            data.wf(),
            data.bytes() == bytes,
            bytes == old(data).bytes(),
            pos == old(data).pos(),
            pos + 8 <= bytes.len(),
            initial == pos,
            p == array_pointee(element_type@, array_type),
            n == item_count(bytes, pos, p),
            array_type matches PackedArrayType::SizedArray(m) ==> n == m,
            0 <= k <= n,
            elements@.len() == k,
            parse_inline(bytes, pos, p, k as int, initial_entries(p)) == Ok::<
                Seq<(Seq<char>, ValueModel)>,
                MojomError,
            >(unnamed(elements_model(elements@))),
            data.pos() == parse_item_end(pos, p, k as int),
            targets@.len() == k,
            element_type@ is Pointer ==> forall|j: int|
                0 <= j < k ==> #[trigger] targets@[j] == pointer_target(bytes, pos, p, j),
        decreases n - k,
    {
        let ghost res = unnamed(elements_model(elements@));
        let ghost st = parse_item_start(pos, p, k as int);
        proof {
            lemma_parse_item_end_lower(pos, p, k as int);
        }
        match skip_to_alignment(data, element_type.alignment()) {
            Ok(()) => {},
            Err(e) => {
                proof {
                    assert(item_error(bytes, pos, p, k as int) == Some(e));
                    lemma_parse_inline_err(bytes, pos, p, k + 1, n as int, initial_entries(p));
                }
                return Err(e);
            },
        }
        match element_type {
            MojomWireType::Pointer { .. } => {
                let pointer_value = match data.parse_uint(8) {
                    Ok(v) => v,
                    Err(e) => {
                        proof {
                            lemma_parse_inline_err(bytes, pos, p, k + 1, n as int, initial_entries(p));
                        }
                        return Err(e);
                    },
                };
                let start = data.bytes_parsed() - 8;
                proof {
                    lemma_le_value_bound(bytes.subrange(st, st + 8));
                    reveal_with_fuel(pow256, 9);
                }
                if pointer_value > (data.len() - start) as u64 {
                    proof {
                        assert(item_error(bytes, pos, p, k as int) == Some(MojomError::PointerValueOutOfRange));
                        lemma_parse_inline_err(bytes, pos, p, k + 1, n as int, initial_entries(p));
                    }
                    return Err(MojomError::PointerValueOutOfRange);
                }
                let ghost before = elements@;
                elements.push(MojomValue::Int8(0));
                targets.push(start - initial + pointer_value as usize);
                proof {
                    lemma_unnamed_push(before, MojomValue::Int8(0));
                    assert(item_error(bytes, pos, p, k as int) is None);
                }
            },
            MojomWireType::Leaf { leaf_type, .. } => {
                let value = match parse_leaf_element(data, leaf_type) {
                    Ok(v) => v,
                    Err(e) => {
                        proof {
                            lemma_parse_inline_err(bytes, pos, p, k + 1, n as int, initial_entries(p));
                        }
                        return Err(e);
                    },
                };
                let ghost before = elements@;
                elements.push(value);
                targets.push(0);
                proof {
                    lemma_unnamed_push(before, value);
                    assert(item_error(bytes, pos, p, k as int) is None);
                }
            },
            MojomWireType::Bitfield { .. } => {
                let b = match data.parse_uint(1) {
                    Ok(v) => v,
                    Err(e) => {
                        proof {
                            lemma_parse_inline_err(bytes, pos, p, k + 1, n as int, initial_entries(p));
                        }
                        return Err(e);
                    },
                };
                proof {
                    lemma_le_value_bound(bytes.subrange(st, st + 1));
                    reveal_with_fuel(pow256, 2);
                    reveal_with_fuel(le_value, 2);
                    assert(bytes.subrange(st, st + 1).drop_first().len() == 0);
                    assert(bytes[st] == b as u8);
                    assert(pow2(0) == 1);
                }
                let value = MojomValue::Bool(b % 2 == 1);
                let ghost before = elements@;
                elements.push(value);
                targets.push(0);
                proof {
                    lemma_unnamed_push(before, value);
                    assert(item_error(bytes, pos, p, k as int) is None);
                }
            },
        }
        k = k + 1;
    }
    proof {
        lemma_parse_item_end_lower(pos, p, n as int);
    }
    let consumed = data.bytes_parsed() - initial;
    if consumed as u64 > size {
        return Err(MojomError::HeaderSizeMismatch);
    }
    match data.parse_padding((size - consumed as u64) as usize) {
        Ok(()) => {},
        Err(e) => return Err(e),
    }
    Ok((elements, targets))
}


pub proof fn lemma_parse_nested_no_pointers(
    bytes: Seq<u8>,
    pos: int,
    p: PointeeModel,
    k: int,
    cur: int,
    res: Seq<(Seq<char>, ValueModel)>,
)
    requires
        forall|j: int| 0 <= j < k ==> !(#[trigger] block_item(p, j) is Pointer),
    ensures
        parse_nested_pass(bytes, pos, p, k, cur, res) == Ok::<(Seq<(Seq<char>, ValueModel)>, int), MojomError>(
            (res, cur),
        ),
    decreases k,
{
    if k > 0 {
        lemma_parse_nested_no_pointers(bytes, pos, p, k - 1, cur, res);
        assert(!(block_item(p, k - 1) is Pointer));
    }
}

/// Parses a struct block at the cursor, laid out as `fields` says, and the
/// blocks that its pointers refer to. The result holds one entry per ordinal
/// up to the highest that the layout carries (none for a layout that carries
/// no field), each written by, and named after, a wire element that carries
/// it. A layout that leaves an ordinal below its highest to no element is
/// refused with `OrdinalOutOfRange`.
pub fn parse_struct(data: &mut ParserData, fields: &Vec<(String, MojomWireType)>) -> (r: Result<
    Vec<(String, MojomValue)>,
    MojomError,
>)
    requires
        old(data).wf(),
    ensures
        final(data).wf(),
        final(data).bytes() == old(data).bytes(),
        match parse_struct_spec(old(data).bytes(), old(data).pos(), layout_model(fields@)) {
            Ok((res, end)) => r matches Ok(v) && field_values_model(v@) == res && final(data).pos() == end,
            Err(e) => r == Err::<Vec<(String, MojomValue)>, MojomError>(e),
        },
        r matches Ok(v) ==> v@.len() == entry_count(layout_model(fields@)) && forall|o: int|
            0 <= o < v@.len() ==> #[trigger] layout_carries(layout_model(fields@), fields@.len() as int, o),
    decreases fields, 1int,
{
    let ghost bytes = old(data).bytes();
    let ghost pos = old(data).pos();
    let ghost layout = layout_model(fields@);
    let ghost p = PointeeModel::Struct { fields: layout };
    let ghost n = fields@.len() as int;
    proof {
        lemma_layout_model(fields@);
        lemma_entries_cover(layout);
    }
    let initial = data.bytes_parsed();
    let (mut ret, targets) = match parse_struct_front(data, fields) {
        Ok(front) => front,
        Err(e) => return Err(e),
    };
    let ghost res0 = field_values_model(ret@);
    let ghost cur0 = data.pos();
    // Nested blocks follow in element order, each where its pointer says.
    let mut i: usize = 0;
    while i < fields.len()
        invariant
            data.wf(),
            data.bytes() == bytes,
            bytes == old(data).bytes(),
            pos == old(data).pos(),
            initial == pos,
            p == (PointeeModel::Struct { fields: layout }),
            layout == layout_model(fields@),
            n == fields@.len(),
            layout.len() == n,
            forall|j: int| 0 <= j < n ==> #[trigger] layout[j] == (fields@[j].0@, fields@[j].1@),
            forall|j: int| 0 <= j < n ==> ordinals_at_most(#[trigger] layout[j].1, entry_count(layout) - 1),
            ret@.len() == entry_count(layout),
            parse_front(bytes, pos, p) == Ok::<(Seq<(Seq<char>, ValueModel)>, int), MojomError>((res0, cur0)),
            targets@.len() == n,
            forall|k: int|
                0 <= k < n && fields@[k].1@ is Pointer ==> #[trigger] targets@[k] == pointer_target(bytes, pos, p, k),
            0 <= i <= n,
            parse_nested_pass(bytes, pos, p, i as int, cur0, res0) == Ok::<
                (Seq<(Seq<char>, ValueModel)>, int),
                MojomError,
            >((field_values_model(ret@), data.pos())),
        decreases n - i,
    {
        match &fields[i].1 {
            MojomWireType::Pointer { ordinal, nested_data_type } => {
                proof {
                    assert(block_item(p, i as int) == fields@[i as int].1@);
                    assert(ordinals_at_most(layout[i as int].1, entry_count(layout) - 1));
                    lemma_parse_item_end_lower(pos, p, i as int);
                }
                let now = data.bytes_parsed();
                if now < initial || now - initial != targets[i] {
                    proof {
                        assert(parse_nested_pass(bytes, pos, p, i + 1, cur0, res0) == Err::<
                            (Seq<(Seq<char>, ValueModel)>, int),
                            MojomError,
                        >(MojomError::PointerOrderOrOffsetMismatch));
                        lemma_parse_nested_err(bytes, pos, p, i + 1, n, cur0, res0);
                    }
                    return Err(MojomError::PointerOrderOrOffsetMismatch);
                }
                let value = match parse_nested(data, nested_data_type) {
                    Ok(v) => v,
                    Err(e) => {
                        proof {
                            assert(item_pointee(p, i as int) == nested_data_type@);
                            assert(parse_nested_pass(bytes, pos, p, i + 1, cur0, res0) == Err::<
                                (Seq<(Seq<char>, ValueModel)>, int),
                                MojomError,
                            >(e));
                            lemma_parse_nested_err(bytes, pos, p, i + 1, n, cur0, res0);
                        }
                        return Err(e);
                    },
                };
                let entry = (fields[i].0.clone(), value);
                let ghost before = ret@;
                ret[*ordinal] = entry;
                proof {
                    lemma_field_values_update(before, *ordinal as int, entry);
                    assert(item_pointee(p, i as int) == nested_data_type@);
                    assert(item_name(p, i as int) == entry.0@);
                }
            },
            _ => {},
        }
        i = i + 1;
    }
    Ok(ret)
}

/// Parses an array block at the cursor whose elements pack as
/// `element_type`, and the blocks that its pointers refer to.
fn parse_array(data: &mut ParserData, element_type: &MojomWireType, array_type: PackedArrayType) -> (r:
    Result<MojomValue, MojomError>)
    requires
        old(data).wf(),
    ensures
        final(data).wf(),
        final(data).bytes() == old(data).bytes(),
        match parse_pointee(old(data).bytes(), old(data).pos(), array_pointee(element_type@, array_type)) {
            Ok((v, end)) => r matches Ok(x) && x@ == v && final(data).pos() == end,
            Err(e) => r == Err::<MojomValue, MojomError>(e),
        },
    decreases element_type, 1int,
{
    let ghost bytes = old(data).bytes();
    let ghost pos = old(data).pos();
    let ghost p = array_pointee(element_type@, array_type);
    let initial = data.bytes_parsed();
    let (mut elements, targets) = match parse_array_front(data, element_type, array_type) {
        Ok(front) => front,
        Err(e) => return Err(e),
    };
    let ghost res0 = unnamed(elements_model(elements@));
    let ghost cur0 = data.pos();
    let n = elements.len();
    match element_type {
        MojomWireType::Pointer { ordinal, nested_data_type } => {
            // Nested blocks follow in element order, each where its pointer says.
            let mut k: usize = 0;
            while k < n
                invariant
                    data.wf(),
                    data.bytes() == bytes,
                    bytes == old(data).bytes(),
                    pos == old(data).pos(),
                    initial == pos,
                    p == array_pointee(element_type@, array_type),
                    *element_type == (MojomWireType::Pointer {
                        ordinal: *ordinal,
                        nested_data_type: *nested_data_type,
                    }),
                    n == item_count(bytes, pos, p),
                    elements@.len() == n,
                    parse_front(bytes, pos, p) == Ok::<(Seq<(Seq<char>, ValueModel)>, int), MojomError>(
                        (res0, cur0),
                    ),
                    targets@.len() == n,
                    forall|j: int| 0 <= j < n ==> #[trigger] targets@[j] == pointer_target(bytes, pos, p, j),
                    0 <= k <= n,
                    parse_nested_pass(bytes, pos, p, k as int, cur0, res0) == Ok::<
                        (Seq<(Seq<char>, ValueModel)>, int),
                        MojomError,
                    >((unnamed(elements_model(elements@)), data.pos())),
                decreases n - k,
            {
                proof {
                    lemma_parse_item_end_lower(pos, p, k as int);
                }
                let now = data.bytes_parsed();
                if now < initial || now - initial != targets[k] {
                    proof {
                        assert(parse_nested_pass(bytes, pos, p, k + 1, cur0, res0) == Err::<
                            (Seq<(Seq<char>, ValueModel)>, int),
                            MojomError,
                        >(MojomError::PointerOrderOrOffsetMismatch));
                        lemma_parse_nested_err(bytes, pos, p, k + 1, n as int, cur0, res0);
                    }
                    return Err(MojomError::PointerOrderOrOffsetMismatch);
                }
                let value = match parse_nested(data, nested_data_type) {
                    Ok(v) => v,
                    Err(e) => {
                        proof {
                            assert(parse_nested_pass(bytes, pos, p, k + 1, cur0, res0) == Err::<
                                (Seq<(Seq<char>, ValueModel)>, int),
                                MojomError,
                            >(e));
                            lemma_parse_nested_err(bytes, pos, p, k + 1, n as int, cur0, res0);
                        }
                        return Err(e);
                    },
                };
                let ghost before = elements@;
                elements.set(k, value);
                proof {
                    lemma_unnamed_update(before, k as int, value);
                }
                k = k + 1;
            }
        },
        _ => {
            proof {
                lemma_parse_nested_no_pointers(bytes, pos, p, n as int, cur0, res0);
            }
        },
    }
    let ghost res = unnamed(elements_model(elements@));
    let ghost end = data.pos();
    proof {
        lemma_elements_model(elements@);
        assert(parse_pointee(bytes, pos, p) == match block_value(p, res) {
            Err(e) => Err(e),
            Ok(v) => Ok((v, end)),
        });
    }
    match array_type {
        PackedArrayType::String => {
            // A string's elements are its UTF-8 bytes.
            let mut text: Vec<u8> = Vec::new();
            let mut k: usize = 0;
            while k < n
                invariant
                    data.wf(),
                    data.bytes() == old(data).bytes(),
                    data.pos() == end,
                    parse_pointee(old(data).bytes(), old(data).pos(), p) == match block_value(p, res) {
                        Err(e) => Err(e),
                        Ok(v) => Ok((v, end)),
                    },
                    p == array_pointee(element_type@, array_type),
                    array_type is String,
                    0 <= k <= n,
                    n == elements@.len(),
                    res == unnamed(elements_model(elements@)),
                    elements_model(elements@).len() == n,
                    forall|j: int| 0 <= j < n ==> #[trigger] elements_model(elements@)[j] == elements@[j]@,
                    text@.len() == k,
                    forall|j: int| 0 <= j < k ==> is_byte(#[trigger] res[j].1) && text@[j] == res[j].1->Int_1 as u8,
                decreases n - k,
            {
                match &elements[k] {
                    MojomValue::UInt8(b) => text.push(*b),
                    _ => {
                        proof {
                            assert(!is_byte(res[k as int].1));
                        }
                        return Err(MojomError::TypeMismatch);
                    },
                }
                k = k + 1;
            }
            let ghost b = text@;
            assert(b =~= Seq::new(res.len(), |i: int| res[i].1->Int_1 as u8));
            match string_from_utf8(text) {
                Some(s) => Ok(MojomValue::String(s)),
                None => Err(MojomError::TypeMismatch),
            }
        },
        _ => {
            assert(elements_model(elements@) =~= Seq::new(res.len(), |i: int| res[i].1));
            Ok(MojomValue::Array(elements))
        },
    }
}

/// Parses the block that `pointee` describes, at the cursor.
fn parse_nested(data: &mut ParserData, pointee: &PackedStructuredType) -> (r: Result<MojomValue, MojomError>)
    requires
        old(data).wf(),
    ensures
        final(data).wf(),
        final(data).bytes() == old(data).bytes(),
        match parse_pointee(old(data).bytes(), old(data).pos(), pointee@) {
            Ok((v, end)) => r matches Ok(x) && x@ == v && final(data).pos() == end,
            Err(e) => r == Err::<MojomValue, MojomError>(e),
        },
    decreases pointee, 0int,
{
    match pointee {
        PackedStructuredType::Struct { packed_field_types } => match parse_struct(data, packed_field_types) {
            Ok(fields) => Ok(MojomValue::Struct(fields)),
            Err(e) => Err(e),
        },
        PackedStructuredType::Array { element_type, array_type } => parse_array(data, element_type, *array_type),
    }
}

} // verus!
