//! Position expressions and their normal form.
//!
//! A position expression is the textual form found in a schema: a bare
//! integer literal `N`, a closed range `lo..=hi`, or a half-open range
//! `lo..hi`, with both endpoints integer literals. A literal is written in
//! decimal, or in hexadecimal, octal or binary under a `0x`/`0o`/`0b`
//! prefix, with underscores allowed between digits. The parser normalizes
//! every accepted form into a canonical closed interval; anything else — a
//! non-literal or missing endpoint, an unbounded upper end, or a value
//! outside the position type — is a hard error.

use vstd::prelude::*;

verus! {

/// An inclusive interval `[lo, hi]` of container positions (byte or bit
/// indices). An interval with `hi < lo` covers no position at all.
#[derive(Clone, Copy, Debug, PartialEq, Eq, Structural)]
pub struct ClosedRange {
    pub lo: usize,
    pub hi: usize,
}

impl ClosedRange {
    /// True when position `p` lies inside the interval.
    pub open spec fn spec_contains(self, p: int) -> bool {
        self.lo <= p <= self.hi
    }

    /// Number of positions the interval covers.
    pub open spec fn width(self) -> int {
        if self.lo <= self.hi {
            self.hi - self.lo + 1
        } else {
            0
        }
    }

    pub fn contains(self, p: usize) -> (r: bool)
        ensures
            r == self.spec_contains(p as int),
    {
        self.lo <= p && p <= self.hi
    }
}

/// Why a position expression was rejected.
#[derive(Clone, Copy, Debug, PartialEq, Eq, Structural)]
pub enum RangeParseError {
    /// Not a literal or a range between literals.
    Malformed,
    /// A range without an upper endpoint, such as `2..`.
    Unbounded,
    /// The expression is well-formed but a normalized bound falls outside
    /// the machine's position type.
    OutOfRange,
}

pub open spec fn is_digit(b: u8) -> bool {
    48 <= b && b <= 57
}

/// A character that can serve as a digit in some base: `0`-`9`, `a`-`f`,
/// `A`-`F`.
pub open spec fn is_digit_char(b: u8) -> bool {
    is_digit(b) || (97 <= b && b <= 102) || (65 <= b && b <= 70)
}

/// Numeric value of a digit character (0 on anything else).
pub open spec fn digit_value(b: u8) -> int {
    if 48 <= b && b <= 57 {
        b - 48
    } else if 97 <= b && b <= 102 {
        b - 87
    } else if 65 <= b && b <= 70 {
        b - 55
    } else {
        0
    }
}

/// The character is a digit of the given base.
pub open spec fn is_base_digit(b: u8, base: int) -> bool {
    is_digit_char(b) && digit_value(b) < base
}

/// A character that may appear inside an integer-literal token: digit
/// characters, the underscore, and the base-prefix letters `x`/`X`/`o`/`O`
/// (`b`/`B` are digit characters already).
pub open spec fn is_literal_char(b: u8) -> bool {
    is_digit_char(b) || b == 95 || b == 120 || b == 88 || b == 111 || b == 79
}

/// Length of the longest literal-token prefix.
pub open spec fn lit_token_len(s: Seq<u8>) -> int
    decreases s.len(),
{
    if s.len() == 0 {
        0
    } else if !is_literal_char(s[0]) {
        0
    } else {
        1 + lit_token_len(s.drop_first())
    }
}

/// Every character is an underscore or a digit of the base.
pub open spec fn digits_ok(s: Seq<u8>, base: int) -> bool {
    forall|j: int| 0 <= j < s.len() ==> (#[trigger] s[j] == 95 || is_base_digit(s[j], base))
}

/// At least one character is a digit rather than an underscore.
pub open spec fn has_digit(s: Seq<u8>) -> bool {
    exists|j: int| 0 <= j < s.len() && #[trigger] s[j] != 95
}

/// Value of a digit-and-underscore string in the given base, most
/// significant digit first; underscores are skipped.
pub open spec fn lit_val(s: Seq<u8>, base: int) -> int
    decreases s.len(),
{
    if s.len() == 0 {
        0
    } else if s.last() == 95 {
        lit_val(s.drop_last(), base)
    } else {
        lit_val(s.drop_last(), base) * base + digit_value(s.last())
    }
}

/// The value of one integer literal, if the text is one: decimal digits,
/// or `0x`/`0o`/`0b` (either case) followed by digits of that base, with
/// underscores allowed between digits and at least one digit present.
/// Type-suffixed literals are not part of this grammar: a suffix names a
/// host type, which is the front end's concern, not a position.
pub open spec fn spec_parse_literal(s: Seq<u8>) -> Option<int> {
    if s.len() >= 2 && s[0] == 48 && (s[1] == 120 || s[1] == 88) {
        let t = s.skip(2);
        if digits_ok(t, 16) && has_digit(t) {
            Some(lit_val(t, 16))
        } else {
            None
        }
    } else if s.len() >= 2 && s[0] == 48 && (s[1] == 111 || s[1] == 79) {
        let t = s.skip(2);
        if digits_ok(t, 8) && has_digit(t) {
            Some(lit_val(t, 8))
        } else {
            None
        }
    } else if s.len() >= 2 && s[0] == 48 && (s[1] == 98 || s[1] == 66) {
        let t = s.skip(2);
        if digits_ok(t, 2) && has_digit(t) {
            Some(lit_val(t, 2))
        } else {
            None
        }
    } else {
        if s.len() >= 1 && is_digit(s[0]) && digits_ok(s, 10) {
            Some(lit_val(s, 10))
        } else {
            None
        }
    }
}

/// The normal form of a position expression, if it has one: a bare literal
/// `N` denotes `[N, N]`; `lo..=hi` denotes `[lo, hi]`; `lo..hi` denotes
/// `[lo, hi - 1]`. Both endpoints must be integer literals; an absent one
/// is not defaulted but rejected. The bounds are unrestricted integers
/// here; fitting the position type is checked apart.
#[verifier::opaque]
pub open spec fn spec_parse_range(s: Seq<u8>) -> Option<(int, int)> {
    let k = lit_token_len(s);
    if k == s.len() {
        match spec_parse_literal(s) {
            Some(v) => Some((v, v)),
            None => None,
        }
    } else if k >= 1 && k + 1 < s.len() && s[k] == 46 && s[k + 1] == 46 {
        match spec_parse_literal(s.take(k)) {
            None => None,
            Some(lo) => {
                let rest = s.skip(k + 2);
                if rest.len() >= 1 && rest[0] == 61 {
                    match spec_parse_literal(rest.drop_first()) {
                        Some(hi) => Some((lo, hi)),
                        None => None,
                    }
                } else {
                    match spec_parse_literal(rest) {
                        Some(hi) => Some((lo, hi - 1)),
                        None => None,
                    }
                }
            },
        }
    } else {
        None
    }
}

/// The expression is a range with no upper endpoint at all, such as `2..`.
#[verifier::opaque]
pub open spec fn spec_unbounded_range(s: Seq<u8>) -> bool {
    let k = lit_token_len(s);
    k >= 1 && spec_parse_literal(s.take(k)) is Some && k + 2 == s.len() && s[k] == 46 && s[k + 1]
        == 46
}

/// Both normalized bounds can be carried by the position type.
pub open spec fn fits_usize(p: (int, int)) -> bool {
    0 <= p.0 <= usize::MAX && 0 <= p.1 <= usize::MAX
}

/// Both normalized bounds can be carried by the classifier's scalar type.
pub open spec fn fits_u64(p: (int, int)) -> bool {
    0 <= p.0 <= u64::MAX && 0 <= p.1 <= u64::MAX
}

/// The expression is a single literal token, not a range.
pub open spec fn spec_is_bare_literal(s: Seq<u8>) -> bool {
    s.len() >= 1 && lit_token_len(s) == s.len()
}

/// A literal's value, saturated just above `u64::MAX` so that overflow is
/// still observable: exact whenever the value is at most `u64::MAX + 1`.
pub open spec fn clamp_val(n: int) -> int {
    if n <= u64::MAX + 1 {
        n
    } else {
        u64::MAX + 2
    }
}

pub(crate) proof fn lemma_lit_val_nonneg(s: Seq<u8>, base: int)
    requires
        base >= 0,
    ensures
        lit_val(s, base) >= 0,
    decreases s.len(),
{
    if s.len() > 0 {
        lemma_lit_val_nonneg(s.drop_last(), base);
        if s.last() != 95 {
            vstd::arithmetic::mul::lemma_mul_nonnegative(lit_val(s.drop_last(), base), base);
        }
    }
}

pub(crate) proof fn lemma_lit_token_len_is(s: Seq<u8>, k: int)
    requires
        0 <= k <= s.len(),
        forall|j: int| 0 <= j < k ==> is_literal_char(#[trigger] s[j]),
        k < s.len() ==> !is_literal_char(s[k]),
    ensures
        lit_token_len(s) == k,
    decreases s.len(),
{
    if s.len() == 0 {
    } else if k == 0 {
    } else {
        assert(is_literal_char(s[0]));
        lemma_lit_token_len_is(s.drop_first(), k - 1);
    }
}

fn is_literal_char_exec(b: u8) -> (r: bool)
    ensures
        r == is_literal_char(b),
{
    (48 <= b && b <= 57) || (97 <= b && b <= 102) || (65 <= b && b <= 70) || b == 95 || b == 120
        || b == 88 || b == 111 || b == 79
}

/// Finds the end of the literal token starting at `from`.
pub(crate) fn scan_token(s: &Vec<u8>, from: usize) -> (end: usize)
    requires
        from <= s@.len(),
    ensures
        from <= end <= s@.len(),
        forall|j: int| from <= j < end ==> is_literal_char(#[trigger] s@[j]),
        end < s@.len() ==> !is_literal_char(s@[end as int]),
{
    let mut i: usize = from;
    while i < s.len() && is_literal_char_exec(s[i])
        invariant
            from <= i <= s@.len(),
            forall|j: int| from <= j < i ==> is_literal_char(#[trigger] s@[j]),
        decreases s@.len() - i,
    {
        i = i + 1;
    }
    i
}

/// Parses the literal in `s[from..end]`, yielding whether it is one and its
/// (saturated) value: exact whenever the value is at most `u64::MAX + 1`.
pub(crate) fn parse_literal(s: &Vec<u8>, from: usize, end: usize) -> (r: (bool, u128))
    requires
        from <= end <= s@.len(),
    ensures
        r.0 == (spec_parse_literal(s@.subrange(from as int, end as int)) is Some),
        r.0 ==> (spec_parse_literal(s@.subrange(from as int, end as int)) matches Some(v)
            && r.1 as int == clamp_val(v)),
{
    let ghost t = s@.subrange(from as int, end as int);
    let base: u128;
    let ds: usize;
    if end - from >= 2 && s[from] == 48 && (s[from + 1] == 120 || s[from + 1] == 88) {
        base = 16;
        ds = from + 2;
    } else if end - from >= 2 && s[from] == 48 && (s[from + 1] == 111 || s[from + 1] == 79) {
        base = 8;
        ds = from + 2;
    } else if end - from >= 2 && s[from] == 48 && (s[from + 1] == 98 || s[from + 1] == 66) {
        base = 2;
        ds = from + 2;
    } else {
        if end == from || !(48 <= s[from] && s[from] <= 57) {
            return (false, 0);
        }
        base = 10;
        ds = from;
    }
    let ghost digits = s@.subrange(ds as int, end as int);
    proof {
        if ds > from {
            assert(digits =~= t.skip(2));
        } else {
            assert(digits =~= t);
            assert(digits[0] == s@[from as int]);
            assert(digits[0] != 95);
            assert(has_digit(digits));
        }
        assert(s@.subrange(ds as int, ds as int) =~= Seq::<u8>::empty());
        assert(spec_parse_literal(t) == (if digits_ok(digits, base as int) && has_digit(digits) {
            Some(lit_val(digits, base as int))
        } else {
            Option::<int>::None
        }));
    }
    let mut val: u128 = 0;
    let mut saw_digit = false;
    let mut i: usize = ds;
    while i < end
        invariant
            from <= ds <= i <= end <= s@.len(),
            2 <= base <= 16,
            digits == s@.subrange(ds as int, end as int),
            spec_parse_literal(s@.subrange(from as int, end as int)) == (if digits_ok(
                digits,
                base as int,
            ) && has_digit(digits) {
                Some(lit_val(digits, base as int))
            } else {
                Option::<int>::None
            }),
            digits_ok(s@.subrange(ds as int, i as int), base as int),
            saw_digit == has_digit(s@.subrange(ds as int, i as int)),
            val as int == clamp_val(lit_val(s@.subrange(ds as int, i as int), base as int)),
            val <= u64::MAX as u128 + 2,
        decreases end - i,
    {
        let c = s[i];
        let ghost prefix = s@.subrange(ds as int, i as int);
        let ghost dv = lit_val(prefix, base as int);
        proof {
            lemma_lit_val_nonneg(prefix, base as int);
            assert(s@.subrange(ds as int, i + 1).drop_last() =~= prefix);
            assert(s@.subrange(ds as int, i + 1).last() == s@[i as int]);
        }
        if c == 95 {
            proof {
                assert(lit_val(s@.subrange(ds as int, i + 1), base as int) == dv);
                assert forall|j: int| 0 <= j < i + 1 - ds implies (#[trigger] s@.subrange(
                    ds as int,
                    i + 1,
                )[j] == 95 || is_base_digit(s@.subrange(ds as int, i + 1)[j], base as int)) by {
                    if j < i - ds {
                        assert(prefix[j] == s@.subrange(ds as int, i + 1)[j]);
                    }
                }
            }
            i = i + 1;
            continue;
        }
        let d: u128;
        if 48 <= c && c <= 57 {
            d = (c - 48) as u128;
        } else if 97 <= c && c <= 102 {
            d = (c - 87) as u128;
        } else if 65 <= c && c <= 70 {
            d = (c - 55) as u128;
        } else {
            proof {
                assert(digits[i - ds] == s@[i as int]);
                assert(!(digits[i - ds] == 95 || is_base_digit(digits[i - ds], base as int)));
                assert(!digits_ok(digits, base as int));
            }
            return (false, 0);
        }
        if d >= base {
            proof {
                assert(digits[i - ds] == s@[i as int]);
                assert(digit_value(s@[i as int]) == d);
                assert(!(digits[i - ds] == 95 || is_base_digit(digits[i - ds], base as int)));
                assert(!digits_ok(digits, base as int));
            }
            return (false, 0);
        }
        proof {
            assert((val as int) * (base as int) <= (u64::MAX as int + 2) * 16) by (nonlinear_arith)
                requires
                    0 <= val as int <= u64::MAX as int + 2,
                    0 <= base as int <= 16,
            ;
        }
        let mut nv: u128 = val * base + d;
        if nv > u64::MAX as u128 + 1 {
            nv = u64::MAX as u128 + 2;
        }
        proof {
            let dv2 = lit_val(s@.subrange(ds as int, i + 1), base as int);
            assert(d as int == digit_value(s@[i as int]));
            assert(dv2 == dv * (base as int) + digit_value(s@[i as int]));
            if dv > u64::MAX + 1 {
                assert(val as int == u64::MAX + 2);
                assert(dv * (base as int) >= dv) by (nonlinear_arith)
                    requires
                        dv >= 0,
                        base >= 2,
                ;
                assert(nv as int == clamp_val(dv2));
            } else {
                assert(val as int == dv);
                assert(nv as int == clamp_val(dv2));
            }
            assert forall|j: int| 0 <= j < i + 1 - ds implies (#[trigger] s@.subrange(
                ds as int,
                i + 1,
            )[j] == 95 || is_base_digit(s@.subrange(ds as int, i + 1)[j], base as int)) by {
                if j < i - ds {
                    assert(prefix[j] == s@.subrange(ds as int, i + 1)[j]);
                }
            }
            assert(s@.subrange(ds as int, i + 1)[i - ds] != 95);
        }
        val = nv;
        saw_digit = true;
        i = i + 1;
    }
    proof {
        assert(s@.subrange(ds as int, i as int) =~= digits);
    }
    if !saw_digit {
        return (false, 0);
    }
    (true, val)
}

/// Parses a position expression into its canonical closed interval.
///
/// Accepts exactly the grammar of [`spec_parse_range`] with both normalized
/// bounds fitting the position type; every rejected input is classified: an
/// upper endpoint missing entirely is [`RangeParseError::Unbounded`], a bound
/// past the position type (including a half-open upper endpoint of 0) is
/// [`RangeParseError::OutOfRange`], anything else — a non-literal endpoint,
/// an empty expression, stray characters — is [`RangeParseError::Malformed`].
pub fn parse_range(expr: &Vec<u8>) -> (r: Result<ClosedRange, RangeParseError>)
    ensures
        r matches Ok(cr) ==> spec_parse_range(expr@) == Some((cr.lo as int, cr.hi as int)),
        r is Ok <==> (spec_parse_range(expr@) matches Some(p) && fits_usize(p)),
        (r matches Err(e) && e == RangeParseError::Unbounded) <==> (spec_parse_range(expr@) is None
            && spec_unbounded_range(expr@)),
        (r matches Err(e) && e == RangeParseError::Malformed) <==> (spec_parse_range(expr@) is None
            && !spec_unbounded_range(expr@)),
        (r matches Err(e) && e == RangeParseError::OutOfRange) <==> (spec_parse_range(expr@)
            matches Some(p) && !fits_usize(p)),
{
    proof {
        reveal(spec_parse_range);
        reveal(spec_unbounded_range);
    }
    let n = expr.len();
    let t: u128 = usize::MAX as u128;
    let k = scan_token(expr, 0);
    proof {
        lemma_lit_token_len_is(expr@, k as int);
    }
    let (lo_ok, lo_val) = parse_literal(expr, 0, k);
    proof {
        assert(expr@.subrange(0, k as int) =~= expr@.take(k as int));
        if lo_ok && k == 0 {
            assert(expr@.take(0) =~= Seq::<u8>::empty());
        }
    }
    if k == n {
        proof {
            assert(expr@.take(k as int) =~= expr@);
        }
        if !lo_ok {
            return Err(RangeParseError::Malformed);
        }
        if lo_val > t {
            return Err(RangeParseError::OutOfRange);
        }
        let v = lo_val as usize;
        return Ok(ClosedRange { lo: v, hi: v });
    }
    if !lo_ok {
        // no literal in front of whatever follows: not a range either
        return Err(RangeParseError::Malformed);
    }
    if k + 1 >= n || expr[k] != 46 || expr[k + 1] != 46 {
        return Err(RangeParseError::Malformed);
    }
    let j = k + 2;
    if j == n {
        return Err(RangeParseError::Unbounded);
    }
    let ghost rest = expr@.skip(k + 2);
    proof {
        assert(rest[0] == expr@[j as int]);
    }
    let closed = expr[j] == 61;
    let j2 = if closed {
        j + 1
    } else {
        j
    };
    let (hi_ok, hi_val) = parse_literal(expr, j2, n);
    let ghost hs = expr@.skip(j2 as int);
    proof {
        if closed {
            assert(hs =~= rest.drop_first());
        } else {
            assert(hs =~= rest);
        }
        assert(expr@.subrange(j2 as int, n as int) =~= hs);
    }
    if !hi_ok {
        return Err(RangeParseError::Malformed);
    }
    if lo_val > t {
        return Err(RangeParseError::OutOfRange);
    }
    if closed {
        if hi_val > t {
            return Err(RangeParseError::OutOfRange);
        }
        Ok(ClosedRange { lo: lo_val as usize, hi: hi_val as usize })
    } else {
        if hi_val == 0 {
            // the half-open upper endpoint 0 has no inclusive form
            return Err(RangeParseError::OutOfRange);
        }
        if hi_val - 1 > t {
            return Err(RangeParseError::OutOfRange);
        }
        Ok(ClosedRange { lo: lo_val as usize, hi: (hi_val - 1) as usize })
    }
}

} // verus!
