//! Bit-container accessors for a validated layout.
//!
//! A bit-addressed record lives in a scalar container of up to 64 bits;
//! each field reads the bit range `[lo, hi]` as an integer — bit `lo` least
//! significant — and converts it into its value type, which rejects values
//! past the type's maximum. The mirror-image encode side exposes the same
//! lazy, position-ordered sequence as the byte codec, one bit per position,
//! with zero bits at positions no field covers.

use vstd::arithmetic::power2::lemma2_to64;
use vstd::arithmetic::power2::lemma2_to64_rest;
use vstd::arithmetic::power2::lemma_pow2_adds;
use vstd::arithmetic::power2::lemma_pow2_pos;
use vstd::arithmetic::power2::pow2;
use vstd::prelude::*;

use crate::byte_codec::first_covering;
use crate::layout::Field;
use crate::layout::Layout;
use crate::layout::max_hi;
use crate::range::ClosedRange;

verus! {

/// Bit `j` (by significance) of value `v`.
pub open spec fn bit_of(v: int, j: int) -> int
    recommends
        0 <= v,
        0 <= j,
{
    (v / pow2(j as nat) as int) % 2
}

/// The raw value a field reads from bits `[lo, hi]` of the container
/// (0 when the interval is empty).
pub open spec fn spec_bit_raw(c: u64, r: ClosedRange) -> int {
    (c as int / pow2(r.lo as nat) as int) % pow2(r.width() as nat) as int
}

/// The field reads and converts cleanly from a `nbits`-bit container: its
/// range ends inside the container and the raw value fits the type.
pub open spec fn field_decodes_bits(c: u64, nbits: int, f: Field) -> bool {
    &&& f.range.hi < nbits
    &&& spec_bit_raw(c, f.range) <= f.value_type.max_value()
}

pub open spec fn bits_decode_prefix(c: u64, nbits: int, fields: Seq<Field>, n: int) -> bool {
    forall|k: int| 0 <= k < n ==> #[trigger] field_decodes_bits(c, nbits, fields[k])
}

/// Every field's range covers exactly its type's bit width, so the encode
/// sequence never runs a field's bits dry before its range ends.
pub open spec fn bit_widths_match(fields: Seq<Field>) -> bool {
    forall|i: int|
        0 <= i < fields.len() ==> (#[trigger] fields[i]).range.width()
            == fields[i].value_type.bit_width()
}

/// One step of the lazy bit-encode sequence at position `p`: the next bit
/// of the covering field, a zero bit for padding, or `None` when the
/// covering field's bits are already exhausted.
pub open spec fn encode_bit_unit(fields: Seq<Field>, values: Seq<u64>, p: int) -> Option<u8> {
    match first_covering(fields, p) {
        None => Some(0u8),
        Some(i) => {
            let f = fields[i];
            let off = p - f.range.lo;
            if off < f.value_type.bit_width() {
                Some(bit_of(values[i] as int, off) as u8)
            } else {
                None
            }
        },
    }
}

/// The bit at position `p` of the encode sequence.
pub open spec fn encode_bit(fields: Seq<Field>, values: Seq<u64>, p: int) -> u8 {
    match encode_bit_unit(fields, values, p) {
        Some(b) => b,
        None => 0u8,
    }
}

/// The whole bit-encode sequence: one bit (as 0 or 1) per position from 0
/// to the layout's final extent.
pub open spec fn encode_bits_seq(fields: Seq<Field>, values: Seq<u64>) -> Seq<u8> {
    Seq::new((max_hi(fields) + 1) as nat, |p: int| encode_bit(fields, values, p))
}

/// Positions covered by no field always encode as a zero bit.
pub proof fn lemma_bit_padding_yields_zero(fields: Seq<Field>, values: Seq<u64>, p: int)
    requires
        forall|i: int| 0 <= i < fields.len() ==> !(#[trigger] fields[i]).range.spec_contains(p),
    ensures
        encode_bit_unit(fields, values, p) == Some(0u8),
{
    crate::byte_codec::lemma_first_covering_props(fields, p);
    match first_covering(fields, p) {
        Some(i) => {
            assert(fields[i].range.spec_contains(p));
        },
        None => {},
    }
}

fn pow2_u64(e: usize) -> (r: u64)
    requires
        e <= 63,
    ensures
        r as int == pow2(e as nat),
{
    proof {
        lemma2_to64();
        lemma2_to64_rest();
    }
    let mut r: u64 = 1;
    let mut k: usize = 0;
    while k < e
        invariant
            0 <= k <= e <= 63,
            r as int == pow2(k as nat),
        decreases e - k,
    {
        proof {
            lemma2_to64();
            lemma2_to64_rest();
            lemma_pow2_adds(k as nat, 1);
            if k < 63 {
                vstd::arithmetic::power2::lemma_pow2_strictly_increases(k as nat, 63);
            }
        }
        r = r * 2;
        k = k + 1;
    }
    r
}

/// Reads the raw value of bits `[lo, hi]` of the container: zero when the
/// interval is empty, the bits shifted down and masked otherwise.
fn read_bits(c: u64, lo: usize, hi: usize) -> (r: u64)
    requires
        hi < 64,
    ensures
        r as int == spec_bit_raw(c, ClosedRange { lo, hi }),
{
    let ghost rg = ClosedRange { lo, hi };
    if lo > hi {
        proof {
            assert(rg.width() == 0);
            assert(pow2(0) == 1) by {
                lemma2_to64();
            }
            lemma_pow2_pos(lo as nat);
            assert(spec_bit_raw(c, rg) == 0) by {
                vstd::arithmetic::div_mod::lemma_mod_self_0(1);
                assert((c as int / pow2(lo as nat) as int) % 1 == 0) by {
                    vstd::arithmetic::div_mod::lemma_small_mod(0, 1);
                    vstd::arithmetic::div_mod::lemma_fundamental_div_mod(
                        c as int / pow2(lo as nat) as int,
                        1,
                    );
                }
            }
        }
        return 0u64;
    }
    let d = pow2_u64(lo);
    proof {
        lemma_pow2_pos(lo as nat);
    }
    let shifted = c / d;
    let w = hi - lo + 1;
    if w >= 64 {
        proof {
            assert(w == 64 && lo == 0 && hi == 63);
            assert(pow2(0) == 1) by {
                lemma2_to64();
            }
            vstd::arithmetic::div_mod::lemma_div_basics(c as int);
            assert(pow2(64) == 0x1_0000_0000_0000_0000) by {
                lemma2_to64_rest();
            }
            vstd::arithmetic::div_mod::lemma_small_mod(c as nat, pow2(64));
        }
        shifted
    } else {
        let m = pow2_u64(w);
        proof {
            lemma_pow2_pos(w as nat);
        }
        shifted % m
    }
}

/// Decodes a bit container of `nbits` bits into the layout's field values,
/// in layout order.
///
/// Succeeds exactly when every field's range ends inside the container and
/// holds a raw value its type accepts. The first failing field aborts the
/// decode, which returns that field's resolved range and no partial record.
pub fn decode_bits(layout: &Layout, container: u64, nbits: usize) -> (r: Result<
    Vec<u64>,
    ClosedRange,
>)
    requires
        nbits <= 64,
    ensures
        r is Ok <==> bits_decode_prefix(
            container,
            nbits as int,
            layout.fields@,
            layout.fields@.len() as int,
        ),
        r matches Ok(vals) ==> vals@.len() == layout.fields@.len() && forall|i: int|
            0 <= i < layout.fields@.len() ==> #[trigger] vals@[i] as int == spec_bit_raw(
                container,
                layout.fields@[i].range,
            ),
        r matches Err(e) ==> exists|i: int|
            0 <= i < layout.fields@.len() && e == (#[trigger] layout.fields@[i]).range
                && !field_decodes_bits(container, nbits as int, layout.fields@[i])
                && bits_decode_prefix(container, nbits as int, layout.fields@, i),
{
    let n = layout.fields.len();
    let mut vals: Vec<u64> = Vec::new();
    let mut i: usize = 0;
    while i < n
        invariant
            n == layout.fields@.len(),
            nbits <= 64,
            0 <= i <= n,
            vals@.len() == i,
            bits_decode_prefix(container, nbits as int, layout.fields@, i as int),
            forall|k: int|
                0 <= k < i ==> #[trigger] vals@[k] as int == spec_bit_raw(
                    container,
                    layout.fields@[k].range,
                ),
        decreases n - i,
    {
        let f = layout.fields[i];
        if f.range.hi >= nbits {
            proof {
                assert(!field_decodes_bits(container, nbits as int, layout.fields@[i as int]));
            }
            return Err(f.range);
        }
        let raw = read_bits(container, f.range.lo, f.range.hi);
        if raw > f.value_type.max_raw() {
            proof {
                assert(!field_decodes_bits(container, nbits as int, layout.fields@[i as int]));
            }
            return Err(f.range);
        }
        proof {
            assert(field_decodes_bits(container, nbits as int, layout.fields@[i as int]));
        }
        vals.push(raw);
        i = i + 1;
    }
    Ok(vals)
}

/// The bit the encode sequence yields at position `p` for a layout whose
/// range widths match their types' bit widths.
fn encode_bit_at(layout: &Layout, values: &Vec<u64>, p: usize) -> (b: u8)
    requires
        bit_widths_match(layout.fields@),
        values@.len() == layout.fields@.len(),
    ensures
        b == encode_bit(layout.fields@, values@, p as int),
        encode_bit_unit(layout.fields@, values@, p as int) == Some(b),
        b <= 1,
{
    match crate::byte_codec::find_covering(&layout.fields, p) {
        None => 0,
        Some(i) => {
            let f = layout.fields[i];
            let w = f.value_type.bit_size();
            proof {
                crate::byte_codec::lemma_first_covering_props(layout.fields@, p as int);
                assert(f.range.spec_contains(p as int));
                assert(f.range.width() == w);
            }
            let off = p - f.range.lo;
            proof {
                assert(off < w <= 64);
            }
            let p2 = pow2_u64(off);
            proof {
                lemma_pow2_pos(off as nat);
            }
            let bit = (values[i] / p2) % 2;
            proof {
                assert(bit as int == bit_of(values@[i as int] as int, off as int));
            }
            bit as u8
        },
    }
}

/// Materializes the whole bit-encode sequence: the record's bits, each 0 or
/// 1, from position 0 to the layout's final extent, with zero bits at
/// padding positions.
pub fn encode_bits_to_vec(layout: &Layout, values: &Vec<u64>) -> (out: Vec<u8>)
    requires
        layout.wf(),
        bit_widths_match(layout.fields@),
        values@.len() == layout.fields@.len(),
    ensures
        out@ == encode_bits_seq(layout.fields@, values@),
        forall|q: int| 0 <= q < out@.len() ==> #[trigger] out@[q] <= 1,
{
    let mut out: Vec<u8> = Vec::new();
    if layout.fields.len() == 0 {
        proof {
            assert(encode_bits_seq(layout.fields@, values@) =~= out@);
        }
        return out;
    }
    let mut p: usize = 0;
    loop
        invariant_except_break
            layout.wf(),
            bit_widths_match(layout.fields@),
            values@.len() == layout.fields@.len(),
            layout.fields@.len() > 0,
            layout.max_end as int == max_hi(layout.fields@),
            0 <= p <= layout.max_end,
            out@.len() == p,
            forall|q: int|
                0 <= q < p ==> #[trigger] out@[q] == encode_bit(layout.fields@, values@, q)
                    && out@[q] <= 1,
        ensures
            out@.len() == layout.max_end + 1,
            forall|q: int|
                0 <= q < out@.len() ==> #[trigger] out@[q] == encode_bit(layout.fields@, values@, q)
                    && out@[q] <= 1,
        decreases layout.max_end - p,
    {
        let b = encode_bit_at(layout, values, p);
        out.push(b);
        if p == layout.max_end {
            break;
        }
        p = p + 1;
    }
    proof {
        assert(out@ =~= encode_bits_seq(layout.fields@, values@));
    }
    out
}

/// The lazy bit-encode sequence as an explicit state machine, the
/// bit-container twin of the byte encoder: single-pass, not restartable.
pub struct BitEncoder {
    pub layout: Layout,
    pub values: Vec<u64>,
    pub cursor: usize,
    pub done: bool,
}

impl BitEncoder {
    pub open spec fn wf(self) -> bool {
        &&& bit_widths_match(self.layout.fields@)
        &&& self.values@.len() == self.layout.fields@.len()
        &&& self.layout.wf()
        &&& (!self.done ==> self.cursor as int <= max_hi(self.layout.fields@))
        &&& (self.layout.fields@.len() == 0 ==> self.done)
    }

    /// Starts a fresh sequence at position 0.
    pub fn new(layout: Layout, values: Vec<u64>) -> (r: BitEncoder)
        requires
            layout.wf(),
            bit_widths_match(layout.fields@),
            values@.len() == layout.fields@.len(),
        ensures
            r.wf(),
            r.layout == layout,
            r.values == values,
            r.cursor == 0,
            r.done == (layout.fields@.len() == 0),
    {
        let done = layout.fields.len() == 0;
        proof {
            if layout.fields@.len() > 0 {
                crate::layout::lemma_max_hi_dominates(layout.fields@, 0);
            }
        }
        BitEncoder { layout, values, cursor: 0, done }
    }

    /// Yields the bit at the cursor and advances, or `None` once the cursor
    /// has passed the layout's final extent.
    pub fn next(&mut self) -> (r: Option<u8>)
        requires
            old(self).wf(),
        ensures
            final(self).wf(),
            final(self).layout == old(self).layout,
            final(self).values == old(self).values,
            old(self).done ==> r is None && *final(self) == *old(self),
            !old(self).done ==> r == Some(
                encode_bit(old(self).layout.fields@, old(self).values@, old(self).cursor as int),
            ),
            !old(self).done && old(self).cursor as int == max_hi(old(self).layout.fields@)
                ==> final(self).done && final(self).cursor == old(self).cursor,
            !old(self).done && (old(self).cursor as int) < max_hi(old(self).layout.fields@)
                ==> !final(self).done && final(self).cursor as int == old(self).cursor + 1,
    {
        if self.done {
            return None;
        }
        let b = encode_bit_at(&self.layout, &self.values, self.cursor);
        if self.cursor == self.layout.max_end {
            self.done = true;
        } else {
            self.cursor = self.cursor + 1;
        }
        Some(b)
    }
}

/// Value of a bit string (each element 0 or 1), least significant first:
/// packing the encode sequence with it fills a scalar container.
pub open spec fn bits_val(s: Seq<u8>) -> int
    decreases s.len(),
{
    if s.len() == 0 {
        0
    } else {
        s[0] + 2 * bits_val(s.drop_first())
    }
}

pub open spec fn all_bits(s: Seq<u8>) -> bool {
    forall|q: int| 0 <= q < s.len() ==> #[trigger] s[q] <= 1
}

proof fn lemma_bits_val_bound(s: Seq<u8>)
    requires
        all_bits(s),
    ensures
        0 <= bits_val(s) < pow2(s.len()),
    decreases s.len(),
{
    assert(pow2(0) == 1) by {
        lemma2_to64();
    }
    if s.len() > 0 {
        assert forall|q: int| 0 <= q < s.drop_first().len() implies #[trigger] s.drop_first()[q]
            <= 1 by {
            assert(s.drop_first()[q] == s[q + 1]);
        }
        lemma_bits_val_bound(s.drop_first());
        lemma_pow2_adds(1, (s.len() - 1) as nat);
        assert(pow2(1) == 2) by {
            lemma2_to64();
        }
        assert(s[0] <= 1);
    }
}

/// Splitting a bit string splits its value: low part plus shifted high part.
proof fn lemma_bits_val_split(s: Seq<u8>, k: int)
    requires
        0 <= k <= s.len(),
    ensures
        bits_val(s) == bits_val(s.take(k)) + pow2(k as nat) * bits_val(s.skip(k)),
    decreases k,
{
    assert(pow2(0) == 1) by {
        lemma2_to64();
    }
    if k == 0 {
        assert(s.take(0) =~= Seq::<u8>::empty());
        assert(s.skip(0) =~= s);
        vstd::arithmetic::mul::lemma_mul_basics(bits_val(s));
        assert(bits_val(s.take(0)) == 0);
    } else {
        let df = s.drop_first();
        lemma_bits_val_split(df, k - 1);
        assert(df.take(k - 1) =~= s.take(k).drop_first());
        assert(df.skip(k - 1) =~= s.skip(k));
        assert(bits_val(s) == s[0] + 2 * bits_val(df));
        assert(bits_val(s.take(k)) == s.take(k)[0] + 2 * bits_val(s.take(k).drop_first()));
        assert(s.take(k)[0] == s[0]);
        assert(pow2(k as nat) == 2 * pow2((k - 1) as nat)) by {
            lemma_pow2_adds(1, (k - 1) as nat);
            lemma2_to64();
        }
        assert(2 * (bits_val(df.take(k - 1)) + pow2((k - 1) as nat) * bits_val(df.skip(k - 1)))
            == 2 * bits_val(df.take(k - 1)) + (2 * pow2((k - 1) as nat)) * bits_val(
            df.skip(k - 1),
        )) by {
            vstd::arithmetic::mul::lemma_mul_is_distributive_add(
                2,
                bits_val(df.take(k - 1)),
                pow2((k - 1) as nat) * bits_val(df.skip(k - 1)),
            );
            vstd::arithmetic::mul::lemma_mul_is_associative(
                2,
                pow2((k - 1) as nat) as int,
                bits_val(df.skip(k - 1)),
            );
        }
        assert(bits_val(df) == bits_val(df.take(k - 1)) + pow2((k - 1) as nat) * bits_val(
            df.skip(k - 1),
        ));
        assert(bits_val(s.take(k).drop_first()) == bits_val(df.take(k - 1)));
        assert(bits_val(s.skip(k)) == bits_val(df.skip(k - 1)));
        assert(bits_val(s) == s[0] + 2 * bits_val(df.take(k - 1)) + (2 * pow2(
            (k - 1) as nat,
        )) * bits_val(df.skip(k - 1)));
        assert((2 * pow2((k - 1) as nat)) * bits_val(df.skip(k - 1)) == pow2(k as nat) * bits_val(
            s.skip(k),
        ));
    }
}

/// Dividing and masking a packed bit string reads back exactly the bits of
/// the window `[lo, lo + w)`.
proof fn lemma_bits_val_extract(s: Seq<u8>, lo: int, w: int)
    requires
        all_bits(s),
        0 <= lo,
        0 <= w,
        lo + w <= s.len(),
    ensures
        (bits_val(s) / pow2(lo as nat) as int) % pow2(w as nat) as int == bits_val(
            s.subrange(lo, lo + w),
        ),
{
    lemma_pow2_pos(lo as nat);
    lemma_pow2_pos(w as nat);
    let a = bits_val(s.take(lo));
    let b = bits_val(s.skip(lo));
    lemma_bits_val_split(s, lo);
    assert forall|q: int| 0 <= q < s.take(lo).len() implies #[trigger] s.take(lo)[q] <= 1 by {
        assert(s.take(lo)[q] == s[q]);
    }
    lemma_bits_val_bound(s.take(lo));
    assert(bits_val(s) == b * pow2(lo as nat) + a) by {
        vstd::arithmetic::mul::lemma_mul_is_commutative(pow2(lo as nat) as int, b);
    }
    vstd::arithmetic::div_mod::lemma_fundamental_div_mod_converse_div(
        bits_val(s),
        pow2(lo as nat) as int,
        b,
        a,
    );
    // now mask the low `w` bits of the shifted-down value
    let t = s.skip(lo);
    let a2 = bits_val(t.take(w));
    let b2 = bits_val(t.skip(w));
    assert forall|q: int| 0 <= q < t.len() implies #[trigger] t[q] <= 1 by {
        assert(t[q] == s[lo + q]);
    }
    lemma_bits_val_split(t, w);
    assert forall|q: int| 0 <= q < t.take(w).len() implies #[trigger] t.take(w)[q] <= 1 by {
        assert(t.take(w)[q] == t[q]);
    }
    lemma_bits_val_bound(t.take(w));
    assert(b == b2 * pow2(w as nat) + a2) by {
        vstd::arithmetic::mul::lemma_mul_is_commutative(pow2(w as nat) as int, b2);
    }
    vstd::arithmetic::div_mod::lemma_fundamental_div_mod_converse_mod(
        b,
        pow2(w as nat) as int,
        b2,
        a2,
    );
    assert(t.take(w) =~= s.subrange(lo, lo + w));
}

/// Reading the bits of `v` back, least significant first, gives `v`.
proof fn lemma_bits_val_of_bits(v: int, w: nat)
    requires
        0 <= v < pow2(w),
    ensures
        bits_val(Seq::new(w, |j: int| bit_of(v, j) as u8)) == v,
    decreases w,
{
    assert(pow2(0) == 1) by {
        lemma2_to64();
    }
    let s = Seq::new(w, |j: int| bit_of(v, j) as u8);
    if w == 0 {
        assert(v == 0);
    } else {
        assert(pow2(w) == 2 * pow2((w - 1) as nat)) by {
            lemma_pow2_adds(1, (w - 1) as nat);
            lemma2_to64();
        }
        vstd::arithmetic::div_mod::lemma_multiply_divide_lt(v, 2, pow2((w - 1) as nat) as int);
        let v1 = v / 2;
        let s1 = Seq::new((w - 1) as nat, |j: int| bit_of(v1, j) as u8);
        assert forall|j: int| 0 <= j < w - 1 implies s.drop_first()[j] == s1[j] by {
            assert(s.drop_first()[j] == s[j + 1]);
            lemma_pow2_pos(j as nat);
            vstd::arithmetic::div_mod::lemma_div_denominator(v, 2, pow2(j as nat) as int);
            assert(pow2((j + 1) as nat) == 2 * pow2(j as nat)) by {
                lemma_pow2_adds(1, j as nat);
                lemma2_to64();
            }
            assert(bit_of(v, j + 1) == bit_of(v1, j));
        }
        assert(s.drop_first() =~= s1);
        lemma_bits_val_of_bits(v1, (w - 1) as nat);
        vstd::arithmetic::div_mod::lemma_div_basics(v);
        assert(s[0] as int == bit_of(v, 0));
        assert(bit_of(v, 0) == v % 2);
        vstd::arithmetic::div_mod::lemma_fundamental_div_mod(v, 2);
        assert(bits_val(s) == s[0] + 2 * bits_val(s.drop_first()));
    }
}

/// Decode inverts the bit encode: for a well-formed layout fitting one
/// scalar container, whose range widths match their types' bit widths and
/// whose values fit their types, packing the encode sequence into a
/// container lets every field decode back to exactly its value.
pub proof fn lemma_bit_encode_decode_inverse(fields: Seq<Field>, values: Seq<u64>)
    requires
        crate::layout::layout_sorted(fields),
        crate::layout::no_adjacent_overlap(fields),
        bit_widths_match(fields),
        values.len() == fields.len(),
        max_hi(fields) < 64,
        forall|i: int|
            0 <= i < fields.len() ==> values[i] <= (#[trigger] fields[i]).value_type.max_value(),
    ensures
        0 <= bits_val(encode_bits_seq(fields, values)) < pow2(64),
        forall|i: int|
            #![trigger fields[i]]
            0 <= i < fields.len() ==> {
                let c = bits_val(encode_bits_seq(fields, values)) as u64;
                field_decodes_bits(c, max_hi(fields) + 1, fields[i]) && spec_bit_raw(
                    c,
                    fields[i].range,
                ) == values[i]
            },
{
    let enc = encode_bits_seq(fields, values);
    lemma2_to64();
    lemma2_to64_rest();
    assert forall|q: int| 0 <= q < enc.len() implies #[trigger] enc[q] <= 1 by {
        match first_covering(fields, q) {
            None => {},
            Some(i) => {
                let f = fields[i];
                if q - f.range.lo < f.value_type.bit_width() {
                    lemma_pow2_pos((q - f.range.lo) as nat);
                }
            },
        }
    }
    lemma_bits_val_bound(enc);
    assert(enc.len() <= 64);
    if enc.len() < 64 {
        vstd::arithmetic::power2::lemma_pow2_strictly_increases(enc.len(), 64);
    }
    let c_int = bits_val(enc);
    let c = c_int as u64;
    assert(c as int == c_int);
    assert forall|i: int|
        #![trigger fields[i]]
        0 <= i < fields.len() implies field_decodes_bits(c, max_hi(fields) + 1, fields[i])
        && spec_bit_raw(c, fields[i].range) == values[i] by {
        let f = fields[i];
        let w = f.value_type.bit_width();
        let v = values[i] as int;
        assert(f.range.width() == w);
        assert(1 <= w <= 64);
        assert(f.range.lo + w - 1 == f.range.hi);
        crate::layout::lemma_max_hi_dominates(fields, i);
        let target = Seq::new(w as nat, |j: int| bit_of(v, j) as u8);
        assert forall|j: int| 0 <= j < w implies enc.subrange(
            f.range.lo as int,
            f.range.hi + 1,
        )[j] == target[j] by {
            let p = f.range.lo + j;
            assert(f.range.spec_contains(p));
            crate::byte_codec::lemma_first_covering_unique(fields, p, i);
            assert(enc[p] == encode_bit(fields, values, p));
        }
        assert(enc.subrange(f.range.lo as int, f.range.hi + 1) =~= target);
        lemma_bits_val_extract(enc, f.range.lo as int, w);
        assert(v < pow2(w as nat)) by {
            assert(f.value_type.max_value() < pow2(f.value_type.bit_width() as nat));
        }
        lemma_bits_val_of_bits(v, w as nat);
        assert(spec_bit_raw(c, f.range) == bits_val(target));
    }
}

/// Packs a bit sequence (each element 0 or 1, least significant first) into
/// a scalar container.
pub fn pack_bits(bits: &Vec<u8>) -> (r: u64)
    requires
        bits@.len() <= 64,
        all_bits(bits@),
    ensures
        r as int == bits_val(bits@),
{
    proof {
        lemma2_to64();
        lemma2_to64_rest();
    }
    let mut acc: u64 = 0;
    let mut k: usize = bits.len();
    while k > 0
        invariant
            0 <= k <= bits@.len() <= 64,
            all_bits(bits@),
            acc as int == bits_val(bits@.skip(k as int)),
            (acc as int) < pow2((bits@.len() - k) as nat),
        decreases k,
    {
        k = k - 1;
        proof {
            lemma2_to64();
            lemma2_to64_rest();
            assert(bits@.skip(k as int).drop_first() =~= bits@.skip(k + 1));
            assert(bits@.skip(k as int)[0] == bits@[k as int]);
            assert forall|q: int| 0 <= q < bits@.skip(k + 1).len() implies #[trigger] bits@.skip(
                k + 1,
            )[q] <= 1 by {
                assert(bits@.skip(k + 1)[q] == bits@[k + 1 + q]);
            }
            lemma_bits_val_bound(bits@.skip(k + 1));
            if ((bits@.len() - k - 1) as nat) < 63 {
                vstd::arithmetic::power2::lemma_pow2_strictly_increases(
                    (bits@.len() - k - 1) as nat,
                    63,
                );
            }
            assert(pow2((bits@.len() - k) as nat) == 2 * pow2((bits@.len() - k - 1) as nat)) by {
                lemma_pow2_adds(1, (bits@.len() - k - 1) as nat);
            }
        }
        acc = acc * 2 + bits[k] as u64;
    }
    proof {
        assert(bits@.skip(0) =~= bits@);
    }
    acc
}

} // verus!
