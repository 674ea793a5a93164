//! Byte-container accessors for a validated layout.
//!
//! Decoding reads each field's byte range out of the raw container and
//! converts it — little- or big-endian — into the field's value; the first
//! field that cannot be read or converted aborts the whole decode and names
//! its resolved range. Encoding exposes a lazy, position-ordered byte
//! sequence: a cursor walks from position 0 to the layout's final extent,
//! each position yields the next byte of the field covering it, and
//! positions no field covers yield zero, so padding is implicit.

use vstd::arithmetic::div_mod::lemma_div_denominator;
use vstd::arithmetic::div_mod::lemma_fundamental_div_mod;
use vstd::arithmetic::div_mod::lemma_multiply_divide_lt;
use vstd::arithmetic::power::pow;
use vstd::prelude::*;

use crate::layout::Field;
use crate::layout::Layout;
use crate::layout::adjacent_clear;
use crate::layout::layout_sorted;
use crate::layout::lemma_sorted_scan_disjoint;
use crate::layout::max_hi;
use crate::layout::no_adjacent_overlap;
use crate::range::ClosedRange;

verus! {

/// Which end of a field's byte range holds its least significant byte.
#[derive(Clone, Copy, Debug, PartialEq, Eq, Structural)]
pub enum ByteOrder {
    Le,
    Be,
}

/// Little-endian value of a byte string: the first byte is least significant.
pub open spec fn le_val(s: Seq<u8>) -> int
    decreases s.len(),
{
    if s.len() == 0 {
        0
    } else {
        s[0] + 256 * le_val(s.drop_first())
    }
}

/// Big-endian value of a byte string: the last byte is least significant.
pub open spec fn be_val(s: Seq<u8>) -> int
    decreases s.len(),
{
    if s.len() == 0 {
        0
    } else {
        be_val(s.drop_last()) * 256 + s.last()
    }
}

/// Byte `j` (by significance) of value `v`.
pub open spec fn val_byte(v: int, j: int) -> int
    recommends
        0 <= v,
        0 <= j,
{
    (v / pow(256, j as nat)) % 256
}

/// The byte a field emits at offset `off` of its `w`-byte range.
pub open spec fn unit_byte(v: int, w: int, off: int, order: ByteOrder) -> int {
    match order {
        ByteOrder::Le => val_byte(v, off),
        ByteOrder::Be => val_byte(v, w - 1 - off),
    }
}

/// The raw value a field reads from the container under the given order.
pub open spec fn spec_field_raw(bytes: Seq<u8>, f: Field, order: ByteOrder) -> int {
    let s = bytes.subrange(f.range.lo as int, f.range.hi + 1);
    match order {
        ByteOrder::Le => le_val(s),
        ByteOrder::Be => be_val(s),
    }
}

/// The field reads and converts cleanly: its range lies inside the
/// container, covers exactly its type's width, and the raw value fits the
/// type.
pub open spec fn field_decodes(bytes: Seq<u8>, f: Field, order: ByteOrder) -> bool {
    &&& f.range.hi < bytes.len()
    &&& f.range.width() == f.value_type.size_bytes()
    &&& spec_field_raw(bytes, f, order) <= f.value_type.max_value()
}

pub open spec fn decodes_prefix(bytes: Seq<u8>, fields: Seq<Field>, order: ByteOrder, n: int) -> bool {
    forall|k: int| 0 <= k < n ==> #[trigger] field_decodes(bytes, fields[k], order)
}

/// Every field's range covers exactly its type's byte width, so the encode
/// sequence never runs a field's bytes dry before its range ends.
pub open spec fn widths_match(fields: Seq<Field>) -> bool {
    forall|i: int|
        0 <= i < fields.len() ==> (#[trigger] fields[i]).range.width()
            == fields[i].value_type.size_bytes()
}

/// The first field in layout order whose range covers position `p`.
pub open spec fn first_covering(fields: Seq<Field>, p: int) -> Option<int>
    decreases fields.len(),
{
    if fields.len() == 0 {
        None
    } else if fields[0].range.spec_contains(p) {
        Some(0)
    } else {
        match first_covering(fields.drop_first(), p) {
            Some(i) => Some(i + 1),
            None => None,
        }
    }
}

/// One step of the lazy encode sequence at position `p`: the next byte of
/// the covering field, a zero for padding, or `None` when the covering
/// field's bytes are already exhausted (its range is wider than its type).
pub open spec fn encode_unit(fields: Seq<Field>, values: Seq<u64>, order: ByteOrder, p: int) -> Option<u8> {
    match first_covering(fields, p) {
        None => Some(0u8),
        Some(i) => {
            let f = fields[i];
            let off = p - f.range.lo;
            if off < f.value_type.size_bytes() {
                Some(unit_byte(values[i] as int, f.value_type.size_bytes(), off, order) as u8)
            } else {
                None
            }
        },
    }
}

/// The byte at position `p` of the encode sequence (for layouts whose
/// widths match, `encode_unit` is never `None` and this is its value).
pub open spec fn encode_byte(fields: Seq<Field>, values: Seq<u64>, order: ByteOrder, p: int) -> u8 {
    match encode_unit(fields, values, order, p) {
        Some(b) => b,
        None => 0u8,
    }
}

/// The whole encode sequence: one byte per position from 0 to the layout's
/// final extent.
pub open spec fn encode_seq(fields: Seq<Field>, values: Seq<u64>, order: ByteOrder) -> Seq<u8> {
    Seq::new((max_hi(fields) + 1) as nat, |p: int| encode_byte(fields, values, order, p))
}

proof fn lemma_pow256_values()
    ensures
        pow(256, 0) == 1,
        pow(256, 1) == 0x100,
        pow(256, 2) == 0x1_0000,
        pow(256, 3) == 0x100_0000,
        pow(256, 4) == 0x1_0000_0000,
        pow(256, 5) == 0x100_0000_0000,
        pow(256, 6) == 0x1_0000_0000_0000,
        pow(256, 7) == 0x100_0000_0000_0000,
        pow(256, 8) == 0x1_0000_0000_0000_0000,
{
    reveal_with_fuel(pow, 10);
}

proof fn lemma_le_val_bound(s: Seq<u8>)
    ensures
        0 <= le_val(s) < pow(256, s.len()),
    decreases s.len(),
{
    reveal_with_fuel(pow, 2);
    if s.len() > 0 {
        lemma_le_val_bound(s.drop_first());
        assert(pow(256, s.len()) == 256 * pow(256, (s.len() - 1) as nat));
    }
}

/// Reading the little-endian bytes of `v` back gives `v`.
proof fn lemma_le_val_of_bytes(v: int, w: nat)
    requires
        0 <= v < pow(256, w),
    ensures
        le_val(Seq::new(w, |j: int| val_byte(v, j) as u8)) == v,
    decreases w,
{
    reveal_with_fuel(pow, 2);
    let s = Seq::new(w, |j: int| val_byte(v, j) as u8);
    if w == 0 {
        assert(v == 0);
    } else {
        assert(pow(256, w) == 256 * pow(256, (w - 1) as nat));
        lemma_multiply_divide_lt(v, 256, pow(256, (w - 1) as nat));
        let v1 = v / 256;
        let s1 = Seq::new((w - 1) as nat, |j: int| val_byte(v1, j) as u8);
        assert forall|j: int| 0 <= j < w - 1 implies s.drop_first()[j] == s1[j] by {
            assert(s.drop_first()[j] == s[j + 1]);
            vstd::arithmetic::power::lemma_pow_positive(256, j as nat);
            lemma_div_denominator(v, 256, pow(256, j as nat));
            assert(pow(256, (j + 1) as nat) == 256 * pow(256, j as nat));
            assert(val_byte(v, j + 1) == val_byte(v1, j));
        }
        assert(s.drop_first() =~= s1);
        lemma_le_val_of_bytes(v1, (w - 1) as nat);
        assert(s[0] as int == val_byte(v, 0));
        assert(pow(256, 0) == 1);
        vstd::arithmetic::div_mod::lemma_div_basics(v);
        assert(val_byte(v, 0) == v % 256);
        lemma_fundamental_div_mod(v, 256);
        assert(le_val(s) == s[0] + 256 * le_val(s.drop_first()));
    }
}

/// Reading the big-endian bytes of `v` back gives `v`.
proof fn lemma_be_val_of_bytes(v: int, w: nat)
    requires
        0 <= v < pow(256, w),
    ensures
        be_val(Seq::new(w, |j: int| val_byte(v, w - 1 - j) as u8)) == v,
    decreases w,
{
    reveal_with_fuel(pow, 2);
    let s = Seq::new(w, |j: int| val_byte(v, w - 1 - j) as u8);
    if w == 0 {
        assert(v == 0);
    } else {
        assert(pow(256, w) == 256 * pow(256, (w - 1) as nat));
        lemma_multiply_divide_lt(v, 256, pow(256, (w - 1) as nat));
        let v1 = v / 256;
        let s1 = Seq::new((w - 1) as nat, |j: int| val_byte(v1, (w - 1) - 1 - j) as u8);
        assert forall|j: int| 0 <= j < w - 1 implies s.drop_last()[j] == s1[j] by {
            assert(s.drop_last()[j] == s[j]);
            vstd::arithmetic::power::lemma_pow_positive(256, (w - 2 - j) as nat);
            lemma_div_denominator(v, 256, pow(256, (w - 2 - j) as nat));
            assert(pow(256, (w - 1 - j) as nat) == 256 * pow(256, (w - 2 - j) as nat));
            assert(val_byte(v, w - 1 - j) == val_byte(v1, w - 2 - j));
        }
        assert(s.drop_last() =~= s1);
        lemma_be_val_of_bytes(v1, (w - 1) as nat);
        assert(s.last() as int == val_byte(v, 0));
        assert(pow(256, 0) == 1);
        vstd::arithmetic::div_mod::lemma_div_basics(v);
        assert(val_byte(v, 0) == v % 256);
        lemma_fundamental_div_mod(v, 256);
        assert(be_val(s) == be_val(s.drop_last()) * 256 + s.last());
    }
}

/// `first_covering` finds the least covering field, if any.
pub proof fn lemma_first_covering_props(fields: Seq<Field>, p: int)
    ensures
        match first_covering(fields, p) {
            None => forall|j: int|
                0 <= j < fields.len() ==> !(#[trigger] fields[j]).range.spec_contains(p),
            Some(i) => 0 <= i < fields.len() && fields[i].range.spec_contains(p) && forall|j: int|
                0 <= j < i ==> !(#[trigger] fields[j]).range.spec_contains(p),
        },
    decreases fields.len(),
{
    if fields.len() > 0 && !fields[0].range.spec_contains(p) {
        lemma_first_covering_props(fields.drop_first(), p);
        assert forall|j: int| 1 <= j < fields.len() implies fields.drop_first()[j - 1]
            == fields[j] by {}
    }
}

/// In a well-formed layout, the field covering a position is unique, so
/// `first_covering` returns exactly the covering field.
pub proof fn lemma_first_covering_unique(fields: Seq<Field>, p: int, i: int)
    requires
        layout_sorted(fields),
        no_adjacent_overlap(fields),
        0 <= i < fields.len(),
        fields[i].range.spec_contains(p),
    ensures
        first_covering(fields, p) == Some(i),
{
    lemma_first_covering_props(fields, p);
    match first_covering(fields, p) {
        None => {
            assert(false);
        },
        Some(i0) => {
            if i0 != i {
                lemma_sorted_scan_disjoint(fields, i, i0, p);
            }
        },
    }
}

/// Positions covered by no field always encode as zero — and decoding never
/// reads them, so padding costs nothing and constrains nothing.
pub proof fn lemma_padding_yields_zero(
    fields: Seq<Field>,
    values: Seq<u64>,
    order: ByteOrder,
    p: int,
)
    requires
        forall|i: int| 0 <= i < fields.len() ==> !(#[trigger] fields[i]).range.spec_contains(p),
    ensures
        encode_unit(fields, values, order, p) == Some(0u8),
{
    lemma_first_covering_props(fields, p);
    match first_covering(fields, p) {
        Some(i) => {
            assert(fields[i].range.spec_contains(p));
        },
        None => {},
    }
}

/// Decode inverts encode: for any well-formed layout whose range widths
/// match their types and whose values fit their types, every field decodes
/// from the encode sequence, and decodes back to exactly its value. Padding
/// positions may or may not exist; they are never read back.
pub proof fn lemma_encode_decode_inverse(fields: Seq<Field>, values: Seq<u64>, order: ByteOrder)
    requires
        layout_sorted(fields),
        no_adjacent_overlap(fields),
        widths_match(fields),
        values.len() == fields.len(),
        forall|i: int|
            0 <= i < fields.len() ==> values[i] <= (#[trigger] fields[i]).value_type.max_value(),
    ensures
        forall|i: int|
            0 <= i < fields.len() ==> #[trigger] field_decodes(
                encode_seq(fields, values, order),
                fields[i],
                order,
            ),
        forall|i: int|
            0 <= i < fields.len() ==> spec_field_raw(
                encode_seq(fields, values, order),
                #[trigger] fields[i],
                order,
            ) == values[i],
{
    let enc = encode_seq(fields, values, order);
    lemma_pow256_values();
    assert forall|i: int|
        #![trigger fields[i]]
        0 <= i < fields.len() implies field_decodes(enc, fields[i], order) && spec_field_raw(
        enc,
        fields[i],
        order,
    ) == values[i] by {
        let f = fields[i];
        let w = f.value_type.size_bytes();
        let v = values[i] as int;
        assert(f.range.width() == w);
        assert(1 <= w <= 8);
        assert(f.range.lo + w - 1 == f.range.hi);
        crate::layout::lemma_max_hi_dominates(fields, i);
        assert(enc.len() == max_hi(fields) + 1);
        assert(f.range.hi < enc.len());
        let s = enc.subrange(f.range.lo as int, f.range.hi + 1);
        assert(v < pow(256, w as nat)) by {
            assert(f.value_type.max_value() < pow(256, f.value_type.size_bytes() as nat));
        }
        match order {
            ByteOrder::Le => {
                let target = Seq::new(w as nat, |j: int| val_byte(v, j) as u8);
                assert forall|j: int| 0 <= j < w implies s[j] == target[j] by {
                    let p = f.range.lo + j;
                    assert(f.range.spec_contains(p));
                    lemma_first_covering_unique(fields, p, i);
                    assert(s[j] == enc[p]);
                    assert(encode_byte(fields, values, order, p) == unit_byte(v, w, j, order) as u8);
                }
                assert(s =~= target);
                lemma_le_val_of_bytes(v, w as nat);
            },
            ByteOrder::Be => {
                let target = Seq::new(w as nat, |j: int| val_byte(v, w - 1 - j) as u8);
                assert forall|j: int| 0 <= j < w implies s[j] == target[j] by {
                    let p = f.range.lo + j;
                    assert(f.range.spec_contains(p));
                    lemma_first_covering_unique(fields, p, i);
                    assert(s[j] == enc[p]);
                    assert(encode_byte(fields, values, order, p) == unit_byte(v, w, j, order) as u8);
                }
                assert(s =~= target);
                lemma_be_val_of_bytes(v, w as nat);
            },
        }
    }
}

fn pow256(e: usize) -> (r: u64)
    requires
        e <= 7,
    ensures
        r as int == pow(256, e as nat),
{
    proof {
        lemma_pow256_values();
    }
    let mut r: u64 = 1;
    let mut k: usize = 0;
    while k < e
        invariant
            0 <= k <= e <= 7,
            r as int == pow(256, k as nat),
        decreases e - k,
    {
        proof {
            lemma_pow256_values();
            vstd::arithmetic::power::lemma_pow_adds(256, k as nat, 1);
            vstd::arithmetic::power::lemma_pow1(256);
            vstd::arithmetic::power::lemma_pow_increases(256, k as nat, 6);
        }
        r = r * 256;
        k = k + 1;
    }
    r
}

/// Reads the `w`-byte raw value starting at `lo`, under the given order.
fn read_raw(input: &Vec<u8>, lo: usize, w: usize, order: ByteOrder) -> (r: u64)
    requires
        lo + w <= input@.len(),
        1 <= w <= 8,
    ensures
        r as int == match order {
            ByteOrder::Le => le_val(input@.subrange(lo as int, lo + w)),
            ByteOrder::Be => be_val(input@.subrange(lo as int, lo + w)),
        },
{
    proof {
        lemma_pow256_values();
    }
    let input_len = input.len();
    let ghost s = input@.subrange(lo as int, lo + w);
    let mut acc: u64 = 0;
    match order {
        ByteOrder::Le => {
            let mut k: usize = w;
            while k > 0
                invariant
                    0 <= k <= w <= 8,
                    lo + w <= input@.len(),
                    input@.len() == input_len,
                    s == input@.subrange(lo as int, lo + w),
                    acc as int == le_val(s.skip(k as int)),
                    (acc as int) < pow(256, (w - k) as nat),
                decreases k,
            {
                k = k - 1;
                proof {
                    lemma_pow256_values();
                    assert(s.skip(k as int).drop_first() =~= s.skip(k + 1));
                    assert(s.skip(k as int)[0] == s[k as int]);
                    assert(s[k as int] == input@[lo + k]);
                    lemma_le_val_bound(s.skip(k + 1));
                    vstd::arithmetic::power::lemma_pow_increases(256, (w - k - 1) as nat, 7);
                    assert(pow(256, (w - k) as nat) == 256 * pow(256, (w - k - 1) as nat)) by {
                        vstd::arithmetic::power::lemma_pow_adds(256, 1, (w - k - 1) as nat);
                        vstd::arithmetic::power::lemma_pow1(256);
                    }
                }
                acc = acc * 256 + input[lo + k] as u64;
            }
            proof {
                assert(s.skip(0) =~= s);
            }
        },
        ByteOrder::Be => {
            let mut k: usize = 0;
            while k < w
                invariant
                    0 <= k <= w <= 8,
                    lo + w <= input@.len(),
                    input@.len() == input_len,
                    s == input@.subrange(lo as int, lo + w),
                    acc as int == be_val(s.take(k as int)),
                    (acc as int) < pow(256, k as nat),
                decreases w - k,
            {
                proof {
                    lemma_pow256_values();
                    assert(s.take(k + 1).drop_last() =~= s.take(k as int));
                    assert(s.take(k + 1).last() == s[k as int]);
                    assert(s[k as int] == input@[lo + k]);
                    vstd::arithmetic::power::lemma_pow_increases(256, k as nat, 7);
                    assert(pow(256, (k + 1) as nat) == 256 * pow(256, k as nat)) by {
                        vstd::arithmetic::power::lemma_pow_adds(256, 1, k as nat);
                        vstd::arithmetic::power::lemma_pow1(256);
                    }
                }
                acc = acc * 256 + input[lo + k] as u64;
                k = k + 1;
            }
            proof {
                assert(s.take(w as int) =~= s);
            }
        },
    }
    acc
}

/// Decodes a byte container into the layout's field values, in layout order.
///
/// Succeeds exactly when every field's range lies inside the container,
/// covers its type's width, and holds a raw value its type accepts; the
/// values are then the fields' raw values under the given byte order. The
/// first failing field aborts the decode, which returns that field's
/// resolved range and no partial record.
pub fn decode_bytes(layout: &Layout, input: &Vec<u8>, order: ByteOrder) -> (r: Result<
    Vec<u64>,
    ClosedRange,
>)
    ensures
        r is Ok <==> decodes_prefix(input@, layout.fields@, order, layout.fields@.len() as int),
        r matches Ok(vals) ==> vals@.len() == layout.fields@.len() && forall|i: int|
            0 <= i < layout.fields@.len() ==> #[trigger] vals@[i] as int == spec_field_raw(
                input@,
                layout.fields@[i],
                order,
            ),
        r matches Err(e) ==> exists|i: int|
            0 <= i < layout.fields@.len() && e == (#[trigger] layout.fields@[i]).range
                && !field_decodes(input@, layout.fields@[i], order) && decodes_prefix(
                input@,
                layout.fields@,
                order,
                i,
            ),
{
    let n = layout.fields.len();
    let mut vals: Vec<u64> = Vec::new();
    let mut i: usize = 0;
    while i < n
        invariant
            n == layout.fields@.len(),
            0 <= i <= n,
            vals@.len() == i,
            decodes_prefix(input@, layout.fields@, order, i as int),
            forall|k: int|
                0 <= k < i ==> #[trigger] vals@[k] as int == spec_field_raw(
                    input@,
                    layout.fields@[k],
                    order,
                ),
        decreases n - i,
    {
        let f = layout.fields[i];
        let size = f.value_type.byte_size();
        if f.range.lo > f.range.hi || f.range.hi >= input.len() || f.range.hi - f.range.lo + 1
            != size {
            proof {
                assert(!field_decodes(input@, layout.fields@[i as int], order));
            }
            return Err(f.range);
        }
        let raw = read_raw(input, f.range.lo, size, order);
        if raw > f.value_type.max_raw() {
            proof {
                assert(input@.subrange(f.range.lo as int, f.range.lo + size) =~= input@.subrange(
                    f.range.lo as int,
                    f.range.hi + 1,
                ));
                assert(!field_decodes(input@, layout.fields@[i as int], order));
            }
            return Err(f.range);
        }
        proof {
            assert(input@.subrange(f.range.lo as int, f.range.lo + size) =~= input@.subrange(
                f.range.lo as int,
                f.range.hi + 1,
            ));
            assert(field_decodes(input@, layout.fields@[i as int], order));
        }
        vals.push(raw);
        i = i + 1;
    }
    Ok(vals)
}

/// Looks up the first field in layout order covering position `p`.
pub(crate) fn find_covering(fields: &Vec<Field>, p: usize) -> (r: Option<usize>)
    ensures
        match r {
            Some(i) => i < fields@.len() && first_covering(fields@, p as int) == Some(i as int),
            None => first_covering(fields@, p as int) is None,
        },
{
    let n = fields.len();
    let mut i: usize = 0;
    while i < n
        invariant
            n == fields@.len(),
            0 <= i <= n,
            forall|k: int| 0 <= k < i ==> !(#[trigger] fields@[k]).range.spec_contains(p as int),
        decreases n - i,
    {
        if fields[i].range.contains(p) {
            proof {
                lemma_first_covering_props(fields@, p as int);
                match first_covering(fields@, p as int) {
                    Some(i0) => {
                        if i0 < i as int {
                            assert(!fields@[i0].range.spec_contains(p as int));
                        } else if i0 > i as int {
                            assert(!fields@[i as int].range.spec_contains(p as int));
                        }
                    },
                    None => {
                        assert(!fields@[i as int].range.spec_contains(p as int));
                    },
                }
            }
            return Some(i);
        }
        i = i + 1;
    }
    proof {
        lemma_first_covering_props(fields@, p as int);
        match first_covering(fields@, p as int) {
            Some(i0) => {
                assert(!fields@[i0].range.spec_contains(p as int));
            },
            None => {},
        }
    }
    None
}

/// The byte the encode sequence yields at position `p` for a layout whose
/// range widths match their types.
fn encode_byte_at(layout: &Layout, values: &Vec<u64>, order: ByteOrder, p: usize) -> (b: u8)
    requires
        widths_match(layout.fields@),
        values@.len() == layout.fields@.len(),
    ensures
        b == encode_byte(layout.fields@, values@, order, p as int),
        encode_unit(layout.fields@, values@, order, p as int) == Some(b),
{
    match find_covering(&layout.fields, p) {
        None => 0,
        Some(i) => {
            let f = layout.fields[i];
            let w = f.value_type.byte_size();
            proof {
                lemma_first_covering_props(layout.fields@, p as int);
                assert(f.range.spec_contains(p as int));
                assert(f.range.width() == w);
            }
            let off = p - f.range.lo;
            proof {
                assert(off < w);
            }
            let j = match order {
                ByteOrder::Le => off,
                ByteOrder::Be => w - 1 - off,
            };
            let p256 = pow256(j);
            proof {
                vstd::arithmetic::power::lemma_pow_positive(256, j as nat);
            }
            let raw = (values[i] / p256) % 256;
            proof {
                assert(raw as int == val_byte(values@[i as int] as int, j as int));
                assert(raw < 256);
            }
            raw as u8
        },
    }
}

/// Materializes the whole encode sequence: the record's bytes from position
/// 0 to the layout's final extent, with zero bytes at padding positions.
pub fn encode_to_vec(layout: &Layout, values: &Vec<u64>, order: ByteOrder) -> (out: Vec<u8>)
    requires
        layout.wf(),
        widths_match(layout.fields@),
        values@.len() == layout.fields@.len(),
    ensures
        out@ == encode_seq(layout.fields@, values@, order),
{
    let mut out: Vec<u8> = Vec::new();
    if layout.fields.len() == 0 {
        proof {
            assert(encode_seq(layout.fields@, values@, order) =~= out@);
        }
        return out;
    }
    let mut p: usize = 0;
    loop
        invariant_except_break
            layout.wf(),
            widths_match(layout.fields@),
            values@.len() == layout.fields@.len(),
            layout.fields@.len() > 0,
            layout.max_end as int == max_hi(layout.fields@),
            0 <= p <= layout.max_end,
            out@.len() == p,
            forall|q: int|
                0 <= q < p ==> #[trigger] out@[q] == encode_byte(layout.fields@, values@, order, q),
        ensures
            out@.len() == layout.max_end + 1,
            forall|q: int|
                0 <= q < out@.len() ==> #[trigger] out@[q] == encode_byte(
                    layout.fields@,
                    values@,
                    order,
                    q,
                ),
        decreases layout.max_end - p,
    {
        let b = encode_byte_at(layout, values, order, p);
        out.push(b);
        if p == layout.max_end {
            break;
        }
        p = p + 1;
    }
    proof {
        assert(out@ =~= encode_seq(layout.fields@, values@, order));
    }
    out
}

/// The lazy encode sequence as an explicit state machine: a cursor walks the
/// positions once; each step yields the byte at the cursor. The sequence is
/// single-pass and not restartable — encode again by constructing a fresh
/// one.
pub struct ByteEncoder {
    pub layout: Layout,
    pub values: Vec<u64>,
    pub order: ByteOrder,
    pub cursor: usize,
    pub done: bool,
}

impl ByteEncoder {
    pub open spec fn wf(self) -> bool {
        &&& widths_match(self.layout.fields@)
        &&& self.values@.len() == self.layout.fields@.len()
        &&& self.layout.wf()
        &&& (!self.done ==> self.cursor as int <= max_hi(self.layout.fields@))
        &&& (self.layout.fields@.len() == 0 ==> self.done)
    }

    /// Starts a fresh sequence at position 0.
    pub fn new(layout: Layout, values: Vec<u64>, order: ByteOrder) -> (r: ByteEncoder)
        requires
            layout.wf(),
            widths_match(layout.fields@),
            values@.len() == layout.fields@.len(),
        ensures
            r.wf(),
            r.layout == layout,
            r.values == values,
            r.order == order,
            r.cursor == 0,
            r.done == (layout.fields@.len() == 0),
    {
        let done = layout.fields.len() == 0;
        proof {
            if layout.fields@.len() > 0 {
                crate::layout::lemma_max_hi_dominates(layout.fields@, 0);
            }
        }
        ByteEncoder { layout, values, order, cursor: 0, done }
    }

    /// Yields the byte at the cursor and advances, or `None` once the cursor
    /// has passed the layout's final extent.
    pub fn next(&mut self) -> (r: Option<u8>)
        requires
            old(self).wf(),
        ensures
            final(self).wf(),
            final(self).layout == old(self).layout,
            final(self).values == old(self).values,
            final(self).order == old(self).order,
            old(self).done ==> r is None && *final(self) == *old(self),
            !old(self).done ==> r == Some(
                encode_byte(
                    old(self).layout.fields@,
                    old(self).values@,
                    old(self).order,
                    old(self).cursor as int,
                ),
            ),
            !old(self).done && old(self).cursor as int == max_hi(old(self).layout.fields@)
                ==> final(self).done && final(self).cursor == old(self).cursor,
            !old(self).done && (old(self).cursor as int) < max_hi(old(self).layout.fields@)
                ==> !final(self).done && final(self).cursor as int == old(self).cursor + 1,
    {
        if self.done {
            return None;
        }
        let b = encode_byte_at(&self.layout, &self.values, self.order, self.cursor);
        if self.cursor == self.layout.max_end {
            self.done = true;
        } else {
            self.cursor = self.cursor + 1;
        }
        Some(b)
    }
}

} // verus!
