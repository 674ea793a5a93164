//! The restriction compiler: from per-variant allow-lists to a classifier.
//!
//! An enumeration schema lists variants in declaration order, each with an
//! ordered allow-list of scalar literals and closed scalar ranges. The
//! compiler flattens them into one ordered entry list — each variant's
//! entries stay contiguous and in their declared order — and rejects any
//! variant whose allow-list is empty. The classifier evaluates the entries
//! in that fixed order: the first entry matching a raw scalar selects its
//! variant, and a scalar matching no entry is rejected with the scalar
//! itself, unchanged. Overlapping allow-lists are legal; declaration order
//! alone breaks the tie.

use vstd::prelude::*;

use crate::range::RangeParseError;
use crate::range::fits_u64;
use crate::range::lemma_lit_token_len_is;
use crate::range::parse_literal;
use crate::range::scan_token;
use crate::range::spec_is_bare_literal;
use crate::range::spec_parse_range;
use crate::range::spec_unbounded_range;

verus! {

/// One allow-list entry: a single scalar or a closed scalar range.
#[derive(Clone, Copy, Debug, PartialEq, Eq, Structural)]
pub enum AllowEntry {
    Literal(u64),
    Range(u64, u64),
}

/// The raw scalar `v` is accepted by the entry.
pub open spec fn entry_matches(e: AllowEntry, v: u64) -> bool {
    match e {
        AllowEntry::Literal(x) => v == x,
        AllowEntry::Range(lo, hi) => lo <= v <= hi,
    }
}

/// A variant as declared: an identifier, its ordered allow-list, and
/// whether it carries a payload (payload sourcing is the backend's concern;
/// selection works the same either way).
pub struct VariantDecl {
    pub name: String,
    pub allow: Vec<AllowEntry>,
    pub has_payload: bool,
}

/// One compiled classifier entry: an allow-list entry and the index of the
/// variant it selects.
#[derive(Clone, Copy, Debug, PartialEq, Eq, Structural)]
pub struct ClassEntry {
    pub entry: AllowEntry,
    pub variant: usize,
}

/// Why an enumeration schema yields no classifier.
#[derive(Clone, Copy, Debug, PartialEq, Eq, Structural)]
pub enum ClassifyError {
    /// The variant's allow-list is empty: it could never be selected.
    EmptyAllowList { variant: usize },
}

/// The compiled classifier: every variant's allow-list entries, flattened
/// in declaration order.
#[derive(Debug)]
pub struct Classifier {
    pub entries: Vec<ClassEntry>,
}

/// The flattened entry list from variant `k` on.
pub open spec fn flat_from(vs: Seq<VariantDecl>, k: int) -> Seq<ClassEntry>
    decreases vs.len() - k,
{
    if k < 0 || k >= vs.len() {
        Seq::empty()
    } else {
        vs[k].allow@.map_values(|e: AllowEntry| ClassEntry { entry: e, variant: k as usize })
            + flat_from(vs, k + 1)
    }
}

/// The first entry, in flattened order, accepting `v`.
pub open spec fn first_match(es: Seq<ClassEntry>, v: u64) -> Option<int>
    decreases es.len(),
{
    if es.len() == 0 {
        None
    } else if entry_matches(es[0].entry, v) {
        Some(0)
    } else {
        match first_match(es.drop_first(), v) {
            Some(i) => Some(i + 1),
            None => None,
        }
    }
}

/// `first_match` finds the least accepting entry, if any.
proof fn lemma_first_match_props(es: Seq<ClassEntry>, v: u64)
    ensures
        match first_match(es, v) {
            None => forall|j: int|
                0 <= j < es.len() ==> !entry_matches((#[trigger] es[j]).entry, v),
            Some(i) => 0 <= i < es.len() && entry_matches(es[i].entry, v) && forall|j: int|
                0 <= j < i ==> !entry_matches((#[trigger] es[j]).entry, v),
        },
    decreases es.len(),
{
    if es.len() > 0 && !entry_matches(es[0].entry, v) {
        lemma_first_match_props(es.drop_first(), v);
        assert forall|j: int| 1 <= j < es.len() implies es.drop_first()[j - 1] == es[j] by {}
    }
}

/// Flattens the variants' allow-lists into a classifier, in declaration
/// order. Fails exactly when some variant's allow-list is empty, naming the
/// first such variant.
pub fn compile_classifier(variants: &Vec<VariantDecl>) -> (r: Result<Classifier, ClassifyError>)
    ensures
        r is Ok <==> (forall|k: int|
            0 <= k < variants@.len() ==> (#[trigger] variants@[k]).allow@.len() > 0),
        r matches Ok(c) ==> c.entries@ == flat_from(variants@, 0),
        r matches Err(e) ==> match e {
            ClassifyError::EmptyAllowList { variant } => {
                &&& variant < variants@.len()
                &&& variants@[variant as int].allow@.len() == 0
                &&& forall|m: int|
                    0 <= m < variant ==> (#[trigger] variants@[m]).allow@.len() > 0
            },
        },
{
    let n = variants.len();
    let mut entries: Vec<ClassEntry> = Vec::new();
    let mut k: usize = 0;
    while k < n
        invariant
            n == variants@.len(),
            0 <= k <= n,
            forall|m: int| 0 <= m < k ==> (#[trigger] variants@[m]).allow@.len() > 0,
            entries@ + flat_from(variants@, k as int) == flat_from(variants@, 0),
        decreases n - k,
    {
        let len_k = variants[k].allow.len();
        if len_k == 0 {
            return Err(ClassifyError::EmptyAllowList { variant: k });
        }
        let ghost before = entries@;
        let ghost mapped = variants@[k as int].allow@.map_values(
            |e: AllowEntry| ClassEntry { entry: e, variant: k },
        );
        let mut m: usize = 0;
        while m < len_k
            invariant
                n == variants@.len(),
                k < n,
                len_k == variants@[k as int].allow@.len(),
                0 <= m <= len_k,
                mapped == variants@[k as int].allow@.map_values(
                    |e: AllowEntry| ClassEntry { entry: e, variant: k },
                ),
                entries@ == before + mapped.take(m as int),
            decreases len_k - m,
        {
            let e = variants[k].allow[m];
            entries.push(ClassEntry { entry: e, variant: k });
            proof {
                assert(mapped.take(m + 1) =~= mapped.take(m as int).push(
                    ClassEntry { entry: variants@[k as int].allow@[m as int], variant: k },
                ));
                assert(entries@ =~= before + mapped.take(m + 1));
            }
            m = m + 1;
        }
        proof {
            assert(mapped.take(len_k as int) =~= mapped);
            assert(flat_from(variants@, k as int) == mapped + flat_from(variants@, k + 1));
            assert(entries@ + flat_from(variants@, k + 1) =~= before + flat_from(
                variants@,
                k as int,
            ));
            assert(entries@ + flat_from(variants@, k + 1) == flat_from(variants@, 0));
        }
        k = k + 1;
    }
    proof {
        assert(flat_from(variants@, n as int) =~= Seq::<ClassEntry>::empty());
        assert(entries@ =~= entries@ + flat_from(variants@, n as int));
    }
    Ok(Classifier { entries })
}

/// Classifies a raw scalar with the deterministic first-match policy: the
/// variant of the first entry, in declaration order, whose literal equals
/// the scalar or whose range contains it. A scalar no entry accepts is
/// rejected, carrying the scalar back unchanged.
pub fn classify(c: &Classifier, raw: u64) -> (r: Result<usize, u64>)
    ensures
        r == match first_match(c.entries@, raw) {
            Some(j) => Ok::<usize, u64>(c.entries@[j].variant),
            None => Err::<usize, u64>(raw),
        },
        r is Err <==> (forall|j: int|
            0 <= j < c.entries@.len() ==> !entry_matches((#[trigger] c.entries@[j]).entry, raw)),
        r matches Err(w) ==> w == raw,
{
    let n = c.entries.len();
    let mut j: usize = 0;
    while j < n
        invariant
            n == c.entries@.len(),
            0 <= j <= n,
            forall|m: int| 0 <= m < j ==> !entry_matches((#[trigger] c.entries@[m]).entry, raw),
        decreases n - j,
    {
        let ce = c.entries[j];
        let hit = match ce.entry {
            AllowEntry::Literal(x) => raw == x,
            AllowEntry::Range(lo, hi) => lo <= raw && raw <= hi,
        };
        if hit {
            proof {
                lemma_first_match_props(c.entries@, raw);
                match first_match(c.entries@, raw) {
                    Some(j0) => {
                        if j0 < j as int {
                            assert(!entry_matches(c.entries@[j0].entry, raw));
                        } else if j0 > j as int {
                            assert(!entry_matches(c.entries@[j as int].entry, raw));
                        }
                    },
                    None => {
                        assert(!entry_matches(c.entries@[j as int].entry, raw));
                    },
                }
            }
            return Ok(ce.variant);
        }
        j = j + 1;
    }
    proof {
        lemma_first_match_props(c.entries@, raw);
        match first_match(c.entries@, raw) {
            Some(j0) => {
                assert(!entry_matches(c.entries@[j0].entry, raw));
            },
            None => {},
        }
    }
    Err(raw)
}

/// Parses one allow-list entry: a bare literal `N` stays a literal entry,
/// `lo..=hi` and `lo..hi` become closed scalar ranges, normalized as the
/// position grammar normalizes them — including hexadecimal, octal and
/// binary literals and digit-group underscores. Rejections are classified
/// exactly as [`crate::range::parse_range`] classifies them, with bounds
/// checked against the classifier's scalar type instead of the position
/// type.
pub fn parse_allow_entry(expr: &Vec<u8>) -> (r: Result<AllowEntry, RangeParseError>)
    ensures
        r matches Ok(e) ==> match e {
            AllowEntry::Literal(v) => spec_is_bare_literal(expr@) && spec_parse_range(expr@)
                == Some((v as int, v as int)),
            AllowEntry::Range(lo, hi) => !spec_is_bare_literal(expr@) && spec_parse_range(expr@)
                == Some((lo as int, hi as int)),
        },
        r is Ok <==> (spec_parse_range(expr@) matches Some(p) && fits_u64(p)),
        (r matches Err(e) && e == RangeParseError::Unbounded) <==> (spec_parse_range(expr@) is None
            && spec_unbounded_range(expr@)),
        (r matches Err(e) && e == RangeParseError::Malformed) <==> (spec_parse_range(expr@) is None
            && !spec_unbounded_range(expr@)),
        (r matches Err(e) && e == RangeParseError::OutOfRange) <==> (spec_parse_range(expr@)
            matches Some(p) && !fits_u64(p)),
{
    proof {
        reveal(spec_parse_range);
        reveal(spec_unbounded_range);
    }
    let n = expr.len();
    let t: u128 = u64::MAX as u128;
    let k = scan_token(expr, 0);
    proof {
        lemma_lit_token_len_is(expr@, k as int);
    }
    let (lo_ok, lo_val) = parse_literal(expr, 0, k);
    proof {
        assert(expr@.subrange(0, k as int) =~= expr@.take(k as int));
        if lo_ok && k == 0 {
            assert(expr@.take(0) =~= Seq::<u8>::empty());
        }
    }
    if k == n {
        proof {
            assert(expr@.take(k as int) =~= expr@);
        }
        if !lo_ok {
            return Err(RangeParseError::Malformed);
        }
        if lo_val > t {
            return Err(RangeParseError::OutOfRange);
        }
        return Ok(AllowEntry::Literal(lo_val as u64));
    }
    if !lo_ok {
        // no literal in front of whatever follows: not a range either
        return Err(RangeParseError::Malformed);
    }
    if k + 1 >= n || expr[k] != 46 || expr[k + 1] != 46 {
        return Err(RangeParseError::Malformed);
    }
    let j = k + 2;
    if j == n {
        return Err(RangeParseError::Unbounded);
    }
    let ghost rest = expr@.skip(k + 2);
    proof {
        assert(rest[0] == expr@[j as int]);
    }
    let closed = expr[j] == 61;
    let j2 = if closed {
        j + 1
    } else {
        j
    };
    let (hi_ok, hi_val) = parse_literal(expr, j2, n);
    let ghost hs = expr@.skip(j2 as int);
    proof {
        if closed {
            assert(hs =~= rest.drop_first());
        } else {
            assert(hs =~= rest);
        }
        assert(expr@.subrange(j2 as int, n as int) =~= hs);
    }
    if !hi_ok {
        return Err(RangeParseError::Malformed);
    }
    if lo_val > t {
        return Err(RangeParseError::OutOfRange);
    }
    if closed {
        if hi_val > t {
            return Err(RangeParseError::OutOfRange);
        }
        Ok(AllowEntry::Range(lo_val as u64, hi_val as u64))
    } else {
        if hi_val == 0 {
            // the half-open upper endpoint 0 has no inclusive form
            return Err(RangeParseError::OutOfRange);
        }
        if hi_val - 1 > t {
            return Err(RangeParseError::OutOfRange);
        }
        Ok(AllowEntry::Range(lo_val as u64, (hi_val - 1) as u64))
    }
}

} // verus!
