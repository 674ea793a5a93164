//! Layout resolution and validation for record schemas.
//!
//! Every field of a record schema carries an optional textual position
//! expression and a value type. The layout compiler resolves each field to a
//! canonical closed range — from its expression, or in packed mode from a
//! running cursor and the field's byte width — then orders the fields by
//! their resolved start and rejects any two fields whose ranges collide.
//! A schema that fails any of these steps yields no layout at all.

use vstd::prelude::*;

use crate::range::ClosedRange;
use crate::range::RangeParseError;
use crate::range::fits_usize;
use crate::range::parse_range;
use crate::range::spec_parse_range;

verus! {

/// The value type a field decodes into. It fixes the field's byte width in
/// packed mode and the greatest raw value a conversion accepts.
#[derive(Clone, Copy, Debug, PartialEq, Eq, Structural)]
pub enum ValueType {
    Bool,
    U8,
    U16,
    U32,
    U64,
}

impl ValueType {
    /// Byte width used by packed layout resolution and byte-container codecs.
    pub open spec fn size_bytes(self) -> int {
        match self {
            ValueType::Bool => 1,
            ValueType::U8 => 1,
            ValueType::U16 => 2,
            ValueType::U32 => 4,
            ValueType::U64 => 8,
        }
    }

    /// Bit width used by bit-container codecs.
    pub open spec fn bit_width(self) -> int {
        match self {
            ValueType::Bool => 1,
            ValueType::U8 => 8,
            ValueType::U16 => 16,
            ValueType::U32 => 32,
            ValueType::U64 => 64,
        }
    }

    /// Greatest raw value a conversion into this type accepts.
    pub open spec fn max_value(self) -> int {
        match self {
            ValueType::Bool => 1,
            ValueType::U8 => 0xff,
            ValueType::U16 => 0xffff,
            ValueType::U32 => 0xffff_ffff,
            ValueType::U64 => 0xffff_ffff_ffff_ffff,
        }
    }

    pub fn byte_size(self) -> (n: usize)
        ensures
            n == self.size_bytes(),
            1 <= n <= 8,
    {
        match self {
            ValueType::Bool => 1,
            ValueType::U8 => 1,
            ValueType::U16 => 2,
            ValueType::U32 => 4,
            ValueType::U64 => 8,
        }
    }

    pub fn bit_size(self) -> (n: usize)
        ensures
            n == self.bit_width(),
    {
        match self {
            ValueType::Bool => 1,
            ValueType::U8 => 8,
            ValueType::U16 => 16,
            ValueType::U32 => 32,
            ValueType::U64 => 64,
        }
    }

    pub fn max_raw(self) -> (m: u64)
        ensures
            m == self.max_value(),
    {
        match self {
            ValueType::Bool => 1,
            ValueType::U8 => 0xff,
            ValueType::U16 => 0xffff,
            ValueType::U32 => 0xffff_ffff,
            ValueType::U64 => 0xffff_ffff_ffff_ffff,
        }
    }
}

/// A field as declared in the schema: an identifier, an optional textual
/// position expression, and the field's value type.
pub struct FieldDecl {
    pub name: String,
    /// The declared position, textually; `None` means no declaration, which
    /// packed mode resolves from the running cursor and explicit mode rejects.
    pub pos: Option<Vec<u8>>,
    pub value_type: ValueType,
}

/// A field with its position resolved. `src` is the index of the declaration
/// this field came from, which ties the sorted layout back to the named,
/// declaration-ordered schema.
#[derive(Clone, Copy, Debug, PartialEq, Eq, Structural)]
pub struct Field {
    pub src: usize,
    pub range: ClosedRange,
    pub value_type: ValueType,
}

/// How field positions are resolved.
#[derive(Clone, Copy, Debug, PartialEq, Eq, Structural)]
pub enum LayoutMode {
    /// Every field must carry a position declaration.
    Explicit,
    /// Fields without a declaration follow the previous field's end; a
    /// declaration overrides the cursor, which resumes after that field.
    Packed,
}

/// Why a schema yields no layout.
#[derive(Clone, Copy, Debug, PartialEq, Eq, Structural)]
pub enum LayoutError {
    /// Explicit mode: the field carries no position declaration.
    MissingPosition { field: usize },
    /// The field's position cannot be resolved: its expression is rejected,
    /// or the resolved position falls outside the machine's position type.
    BadPosition { field: usize, cause: RangeParseError },
    /// Two resolved ranges collide; carries the later of the two.
    Overlap { range: ClosedRange },
}

/// The resolved position of one declaration, before machine-range checks:
/// `None` when the declaration is missing (explicit mode) or does not parse.
pub open spec fn math_range(d: FieldDecl, mode: LayoutMode, cur: int) -> Option<(int, int)> {
    match d.pos {
        Some(e) => spec_parse_range(e@),
        None => if mode is Packed {
            Some((cur, cur + d.value_type.size_bytes() - 1))
        } else {
            None
        },
    }
}

/// The packed-mode cursor in front of field `i`: 0 at the start, and one past
/// the previous field's resolved end after that.
pub open spec fn cursor_at(decls: Seq<FieldDecl>, mode: LayoutMode, i: int) -> int
    decreases i,
{
    if i <= 0 {
        0
    } else {
        match math_range(decls[i - 1], mode, cursor_at(decls, mode, i - 1)) {
            Some(p) => p.1 + 1,
            None => 0,
        }
    }
}

pub open spec fn range_at(decls: Seq<FieldDecl>, mode: LayoutMode, i: int) -> Option<(int, int)> {
    math_range(decls[i], mode, cursor_at(decls, mode, i))
}

/// Field `i` resolves: its position exists, parses, and fits the machine.
pub open spec fn resolves_at(decls: Seq<FieldDecl>, mode: LayoutMode, i: int) -> bool {
    range_at(decls, mode, i) matches Some(p) && fits_usize(p)
}

/// The resolved range of field `i` (meaningful when `resolves_at` holds).
pub open spec fn resolved_pair(decls: Seq<FieldDecl>, mode: LayoutMode, i: int) -> (int, int) {
    match range_at(decls, mode, i) {
        Some(p) => p,
        None => (0, 0),
    }
}

pub open spec fn resolves_prefix(decls: Seq<FieldDecl>, mode: LayoutMode, n: int) -> bool {
    forall|k: int| 0 <= k < n ==> #[trigger] resolves_at(decls, mode, k)
}

pub open spec fn all_resolve(decls: Seq<FieldDecl>, mode: LayoutMode) -> bool {
    resolves_prefix(decls, mode, decls.len() as int)
}

/// Position order on resolved ranges: by start, then by end.
pub open spec fn key_le(a: (int, int), b: (int, int)) -> bool {
    a.0 < b.0 || (a.0 == b.0 && a.1 <= b.1)
}

/// Taken in position order, the later range starts inside the earlier one,
/// or the two start at the same position: equal starts are always overlap.
/// This is the rule the layout scan enforces; for nonempty ranges it is the
/// same as sharing at least one position.
pub open spec fn ranges_collide(a: (int, int), b: (int, int)) -> bool {
    key_le(a, b) && (b.0 <= a.1 || a.0 == b.0)
}

/// Some two distinct fields of the schema resolve to colliding ranges.
pub open spec fn has_collision(decls: Seq<FieldDecl>, mode: LayoutMode) -> bool {
    exists|i: int, j: int|
        0 <= i < decls.len() && 0 <= j < decls.len() && i != j && #[trigger] ranges_collide(
            resolved_pair(decls, mode, i),
            resolved_pair(decls, mode, j),
        )
}

/// Two closed intervals, both nonempty, have at least one position in common.
pub open spec fn ranges_share_position(a: (int, int), b: (int, int)) -> bool {
    a.0 <= a.1 && b.0 <= b.1 && a.0 <= b.1 && b.0 <= a.1
}

pub open spec fn field_key(f: Field) -> (int, int) {
    (f.range.lo as int, f.range.hi as int)
}

pub open spec fn field_le(a: Field, b: Field) -> bool {
    key_le(field_key(a), field_key(b))
}

/// The resolved field `f` faithfully renders declaration `f.src`.
pub open spec fn field_matches(decls: Seq<FieldDecl>, mode: LayoutMode, f: Field) -> bool {
    &&& 0 <= f.src < decls.len()
    &&& f.value_type == decls[f.src as int].value_type
    &&& resolves_at(decls, mode, f.src as int)
    &&& field_key(f) == resolved_pair(decls, mode, f.src as int)
}

pub open spec fn src_present(fields: Seq<Field>, i: int) -> bool {
    exists|j: int| 0 <= j < fields.len() && #[trigger] fields[j].src == i
}

/// `fields` is exactly the resolution of `decls`: one field per declaration,
/// each resolved, no declaration dropped or duplicated.
pub open spec fn is_resolution_of(fields: Seq<Field>, decls: Seq<FieldDecl>, mode: LayoutMode) -> bool {
    &&& fields.len() == decls.len()
    &&& forall|j: int| 0 <= j < fields.len() ==> field_matches(decls, mode, #[trigger] fields[j])
    &&& forall|j1: int, j2: int|
        #![trigger fields[j1], fields[j2]]
        0 <= j1 < j2 < fields.len() ==> fields[j1].src != fields[j2].src
    &&& forall|i: int| 0 <= i < decls.len() ==> #[trigger] src_present(fields, i)
}

pub open spec fn layout_sorted(fields: Seq<Field>) -> bool {
    forall|j1: int, j2: int|
        #![trigger fields[j1], fields[j2]]
        0 <= j1 < j2 < fields.len() ==> field_le(fields[j1], fields[j2])
}

/// The field at `t` neither reaches the start of the field just after it
/// nor shares that start.
pub open spec fn adjacent_clear(fields: Seq<Field>, t: int) -> bool {
    !fields[t].range.spec_contains(fields[t + 1].range.lo as int) && fields[t].range.lo
        != fields[t + 1].range.lo
}

/// The adjacent-pair scan over the sorted fields: no field starts inside the
/// range of the field just before it, nor exactly at its start.
pub open spec fn no_adjacent_overlap(fields: Seq<Field>) -> bool {
    forall|t: int| 0 <= t && t + 1 < fields.len() ==> #[trigger] adjacent_clear(fields, t)
}

/// Greatest resolved end over the fields; -1 when there are none.
pub open spec fn max_hi(fields: Seq<Field>) -> int
    decreases fields.len(),
{
    if fields.len() == 0 {
        -1
    } else {
        let m = max_hi(fields.drop_last());
        if fields.last().range.hi > m {
            fields.last().range.hi as int
        } else {
            m
        }
    }
}

/// A validated layout: fields in position order, pairwise collision-free,
/// with the record's final extent.
#[derive(Debug)]
pub struct Layout {
    pub fields: Vec<Field>,
    /// Greatest resolved end over all fields; 0 when there are none.
    pub max_end: usize,
}

impl Layout {
    pub open spec fn wf(self) -> bool {
        &&& layout_sorted(self.fields@)
        &&& no_adjacent_overlap(self.fields@)
        &&& self.max_end as int == if self.fields@.len() == 0 {
            0
        } else {
            max_hi(self.fields@)
        }
    }

    /// Last position of the encode sequence; -1 when there are no fields.
    pub open spec fn extent(self) -> int {
        max_hi(self.fields@)
    }
}

/// In a sorted, scan-clean field sequence no two distinct fields share a
/// container position.
pub proof fn lemma_sorted_scan_disjoint(fields: Seq<Field>, p: int, q: int, t: int)
    requires
        layout_sorted(fields),
        no_adjacent_overlap(fields),
        0 <= p < fields.len(),
        0 <= q < fields.len(),
        p != q,
        fields[p].range.spec_contains(t),
    ensures
        !fields[q].range.spec_contains(t),
{
    if fields[q].range.spec_contains(t) {
        let a = if p < q { p } else { q };
        let b = if p < q { q } else { p };
        assert(field_le(fields[a], fields[a + 1]));
        if a + 1 < b {
            assert(field_le(fields[a + 1], fields[b]));
        }
        assert(fields[a + 1].range.lo <= fields[b].range.lo);
        assert(fields[b].range.lo <= t <= fields[a].range.hi);
        assert(adjacent_clear(fields, a));
        assert(fields[a].range.spec_contains(fields[a + 1].range.lo as int));
    }
}

/// Disjoint schemas compile: when every field resolves, every resolved range
/// is nonempty, and no two resolved ranges share a position, the layout scan
/// finds no collision — so `compile_layout` succeeds and returns the fields
/// sorted by start with their resolved ranges unchanged.
pub proof fn lemma_disjoint_fields_accepted(decls: Seq<FieldDecl>, mode: LayoutMode)
    requires
        all_resolve(decls, mode),
        forall|i: int|
            0 <= i < decls.len() ==> (#[trigger] resolved_pair(decls, mode, i)).0 <= resolved_pair(
                decls,
                mode,
                i,
            ).1,
        forall|i: int, j: int|
            #![trigger resolved_pair(decls, mode, i), resolved_pair(decls, mode, j)]
            0 <= i < decls.len() && 0 <= j < decls.len() && i != j ==> !ranges_share_position(
                resolved_pair(decls, mode, i),
                resolved_pair(decls, mode, j),
            ),
    ensures
        !has_collision(decls, mode),
{
    assert forall|i: int, j: int|
        0 <= i < decls.len() && 0 <= j < decls.len() && i != j implies !(
    #[trigger] ranges_collide(resolved_pair(decls, mode, i), resolved_pair(decls, mode, j))) by {
        let a = resolved_pair(decls, mode, i);
        let b = resolved_pair(decls, mode, j);
        if ranges_collide(a, b) {
            // b starts inside a, and b is nonempty: they share position b.0
            assert(ranges_share_position(a, b));
        }
    }
}

/// Overlapping schemas are rejected: two distinct fields whose resolved
/// ranges share a position force a collision, so `compile_layout` fails with
/// an `Overlap` error naming one of the colliding ranges.
pub proof fn lemma_shared_position_collides(
    decls: Seq<FieldDecl>,
    mode: LayoutMode,
    i: int,
    j: int,
    t: int,
)
    requires
        0 <= i < decls.len(),
        0 <= j < decls.len(),
        i != j,
        resolved_pair(decls, mode, i).0 <= t <= resolved_pair(decls, mode, i).1,
        resolved_pair(decls, mode, j).0 <= t <= resolved_pair(decls, mode, j).1,
    ensures
        has_collision(decls, mode),
{
    let a = resolved_pair(decls, mode, i);
    let b = resolved_pair(decls, mode, j);
    if key_le(a, b) {
        assert(ranges_collide(a, b));
    } else {
        assert(key_le(b, a));
        assert(ranges_collide(b, a));
    }
}

/// A sorted, scan-clean resolution means the schema has no collision at all.
proof fn lemma_scan_clean_no_collision(fields: Seq<Field>, decls: Seq<FieldDecl>, mode: LayoutMode)
    requires
        is_resolution_of(fields, decls, mode),
        layout_sorted(fields),
        no_adjacent_overlap(fields),
    ensures
        !has_collision(decls, mode),
{
    assert forall|i: int, j: int|
        0 <= i < decls.len() && 0 <= j < decls.len() && i != j implies !(
    #[trigger] ranges_collide(resolved_pair(decls, mode, i), resolved_pair(decls, mode, j))) by {
        if ranges_collide(resolved_pair(decls, mode, i), resolved_pair(decls, mode, j)) {
            assert(src_present(fields, i));
            assert(src_present(fields, j));
            let p = choose|p: int| 0 <= p < fields.len() && #[trigger] fields[p].src == i;
            let q = choose|q: int| 0 <= q < fields.len() && #[trigger] fields[q].src == j;
            assert(field_matches(decls, mode, fields[p]));
            assert(field_matches(decls, mode, fields[q]));
            let ki = field_key(fields[p]);
            let kj = field_key(fields[q]);
            assert(p != q);
            if p < q {
                // the field right after p starts inside p's range, or at
                // p's own start
                if p + 1 < q {
                    assert(field_le(fields[p + 1], fields[q]));
                }
                assert(field_le(fields[p], fields[p + 1]));
                assert(fields[p].range.lo <= fields[p + 1].range.lo);
                assert(adjacent_clear(fields, p));
                if kj.0 <= ki.1 {
                    assert(fields[p + 1].range.lo <= kj.0 <= ki.1);
                    assert(fields[p].range.spec_contains(fields[p + 1].range.lo as int));
                } else {
                    assert(ki.0 == kj.0);
                    assert(fields[p + 1].range.lo == ki.0);
                }
            } else {
                // q < p: the keys are equal, so the field right after q
                // starts exactly at q's (shared) start
                assert(field_le(fields[q], fields[p]));
                assert(ki == kj);
                if q + 1 < p {
                    assert(field_le(fields[q + 1], fields[p]));
                }
                assert(field_le(fields[q], fields[q + 1]));
                assert(fields[q + 1].range.lo == kj.0);
                assert(adjacent_clear(fields, q));
            }
        }
    }
}

/// `max_hi` dominates every field's end.
pub proof fn lemma_max_hi_dominates(fields: Seq<Field>, j: int)
    requires
        0 <= j < fields.len(),
    ensures
        fields[j].range.hi <= max_hi(fields),
    decreases fields.len(),
{
    if j + 1 < fields.len() {
        assert(fields.drop_last()[j] == fields[j]);
        lemma_max_hi_dominates(fields.drop_last(), j);
    }
}

fn field_le_exec(a: Field, b: Field) -> (r: bool)
    ensures
        r == field_le(a, b),
{
    a.range.lo < b.range.lo || (a.range.lo == b.range.lo && a.range.hi <= b.range.hi)
}

/// The layout error `e` tells the truth of the schema: a missing or
/// unresolvable position names the first offending field with its exact
/// cause, and an overlap names the later range of a colliding pair.
pub open spec fn layout_error_explains(decls: Seq<FieldDecl>, mode: LayoutMode, e: LayoutError) -> bool {
    match e {
        LayoutError::MissingPosition { field } => {
            &&& mode is Explicit
            &&& field < decls.len()
            &&& resolves_prefix(decls, mode, field as int)
            &&& decls[field as int].pos is None
        },
        LayoutError::BadPosition { field, cause } => {
            &&& field < decls.len()
            &&& resolves_prefix(decls, mode, field as int)
            &&& !resolves_at(decls, mode, field as int)
            &&& (decls[field as int].pos is None ==> mode is Packed && cause
                == RangeParseError::OutOfRange)
            &&& (decls[field as int].pos matches Some(ex) ==> {
                let sp = spec_parse_range(ex@);
                match cause {
                    RangeParseError::OutOfRange => sp matches Some(pp) && !fits_usize(pp),
                    RangeParseError::Unbounded => sp is None && crate::range::spec_unbounded_range(
                        ex@,
                    ),
                    RangeParseError::Malformed => sp is None && !crate::range::spec_unbounded_range(
                        ex@,
                    ),
                }
            })
        },
        LayoutError::Overlap { range } => {
            &&& all_resolve(decls, mode)
            &&& has_collision(decls, mode)
            &&& exists|i: int, j: int|
                0 <= i < decls.len() && 0 <= j < decls.len() && i != j && #[trigger] ranges_collide(
                    resolved_pair(decls, mode, i),
                    resolved_pair(decls, mode, j),
                ) && (range.lo as int, range.hi as int) == resolved_pair(decls, mode, j)
        },
    }
}

/// Resolves the schema's field positions, sorts the fields by resolved start
/// and checks the sorted sequence for collisions.
///
/// Succeeds exactly on schemas whose every field resolves and whose resolved
/// ranges are collision-free; the result then lists every declaration's
/// field, in position order, under the schema's final extent. Each rejection
/// carries the first offending field (resolution errors) or the later of two
/// colliding ranges (overlap errors).
#[verifier::rlimit(60)]
pub fn compile_layout(decls: &Vec<FieldDecl>, mode: LayoutMode) -> (r: Result<Layout, LayoutError>)
    ensures
        r is Ok <==> (all_resolve(decls@, mode) && !has_collision(decls@, mode)),
        r matches Ok(layout) ==> layout.wf() && is_resolution_of(layout.fields@, decls@, mode),
        r matches Err(e) ==> layout_error_explains(decls@, mode, e),
{
    let n = decls.len();
    let mut fields: Vec<Field> = Vec::new();
    let mut cursor: usize = 0;
    let mut cursor_over: bool = false;
    let mut i: usize = 0;
    while i < n
        invariant
            n == decls@.len(),
            0 <= i <= n,
            resolves_prefix(decls@, mode, i as int),
            if cursor_over {
                cursor_at(decls@, mode, i as int) > usize::MAX
            } else {
                cursor_at(decls@, mode, i as int) == cursor as int
            },
            fields@.len() == i,
            forall|j: int|
                0 <= j < fields@.len() ==> field_matches(decls@, mode, #[trigger] fields@[j])
                    && fields@[j].src < i,
            forall|j1: int, j2: int|
                #![trigger fields@[j1], fields@[j2]]
                0 <= j1 < j2 < fields@.len() ==> fields@[j1].src != fields@[j2].src,
            forall|k: int| 0 <= k < i ==> #[trigger] src_present(fields@, k),
            layout_sorted(fields@),
        decreases n - i,
    {
        let ghost cur_spec = cursor_at(decls@, mode, i as int);
        let vt = decls[i].value_type;
        let range_i: ClosedRange = match &decls[i].pos {
            Some(ex) => {
                match parse_range(ex) {
                    Ok(cr) => cr,
                    Err(cause) => {
                        proof {
                            assert(!resolves_at(decls@, mode, i as int));
                        }
                        return Err(LayoutError::BadPosition { field: i, cause });
                    },
                }
            },
            None => {
                match mode {
                    LayoutMode::Explicit => {
                        proof {
                            assert(!resolves_at(decls@, mode, i as int));
                        }
                        return Err(LayoutError::MissingPosition { field: i });
                    },
                    LayoutMode::Packed => {
                        let size = vt.byte_size();
                        if cursor_over || cursor > usize::MAX - (size - 1) {
                            proof {
                                assert(range_at(decls@, mode, i as int) == Some(
                                    (cur_spec, cur_spec + vt.size_bytes() - 1),
                                ));
                                assert(!resolves_at(decls@, mode, i as int));
                            }
                            return Err(
                                LayoutError::BadPosition {
                                    field: i,
                                    cause: RangeParseError::OutOfRange,
                                },
                            );
                        }
                        ClosedRange { lo: cursor, hi: cursor + (size - 1) }
                    },
                }
            },
        };
        proof {
            assert(range_at(decls@, mode, i as int) == Some(
                (range_i.lo as int, range_i.hi as int),
            ));
            assert(resolves_at(decls@, mode, i as int));
            assert(field_key(Field { src: i, range: range_i, value_type: vt }) == resolved_pair(
                decls@,
                mode,
                i as int,
            ));
            assert(cursor_at(decls@, mode, i as int + 1) == range_i.hi as int + 1);
        }
        let f = Field { src: i, range: range_i, value_type: vt };
        // advance the cursor past this field
        if range_i.hi == usize::MAX {
            cursor_over = true;
            cursor = 0;
        } else {
            cursor_over = false;
            cursor = range_i.hi + 1;
        }
        // insert the field at its position-ordered place
        let mut k: usize = fields.len();
        while k > 0 && !field_le_exec(fields[k - 1], f)
            invariant
                0 <= k <= fields@.len(),
                forall|m: int| k <= m < fields@.len() ==> field_le(f, #[trigger] fields@[m]),
                layout_sorted(fields@),
            decreases k,
        {
            k = k - 1;
        }
        proof {
            assert forall|m: int| 0 <= m < k implies field_le(#[trigger] fields@[m], f) by {
                if m < k - 1 {
                    assert(field_le(fields@[m], fields@[k - 1]));
                }
            }
        }
        let ghost old_fields = fields@;
        fields.insert(k, f);
        proof {
            old_fields.insert_ensures(k as int, f);
            assert forall|j: int|
                0 <= j < fields@.len() implies field_matches(decls@, mode, #[trigger] fields@[j])
                && fields@[j].src < i + 1 by {
                if j < k {
                    assert(fields@[j] == old_fields[j]);
                } else if j == k {
                    assert(fields@[j] == f);
                } else {
                    assert(fields@[j] == old_fields[j - 1]);
                }
            }
            assert forall|j1: int, j2: int|
                #![trigger fields@[j1], fields@[j2]]
                0 <= j1 < j2 < fields@.len() implies fields@[j1].src != fields@[j2].src by {
                let o1: int = if j1 < k {
                    j1
                } else {
                    j1 - 1
                };
                let o2: int = if j2 < k {
                    j2
                } else {
                    j2 - 1
                };
                if j1 == k {
                    assert(fields@[j2] == old_fields[o2] && old_fields[o2].src < i);
                } else if j2 == k {
                    assert(fields@[j1] == old_fields[o1] && old_fields[o1].src < i);
                } else {
                    assert(fields@[j1] == old_fields[o1]);
                    assert(fields@[j2] == old_fields[o2]);
                }
            }
            assert forall|kk: int| 0 <= kk < i + 1 implies #[trigger] src_present(fields@, kk) by {
                if kk == i {
                    assert(fields@[k as int].src == kk);
                } else {
                    assert(src_present(old_fields, kk));
                    let j = choose|j: int|
                        0 <= j < old_fields.len() && #[trigger] old_fields[j].src == kk;
                    if j < k {
                        assert(fields@[j].src == kk);
                    } else {
                        assert(fields@[j + 1].src == kk);
                    }
                }
            }
            assert forall|j1: int, j2: int|
                #![trigger fields@[j1], fields@[j2]]
                0 <= j1 < j2 < fields@.len() implies field_le(fields@[j1], fields@[j2]) by {
                let o1: int = if j1 < k {
                    j1
                } else {
                    j1 - 1
                };
                let o2: int = if j2 < k {
                    j2
                } else {
                    j2 - 1
                };
                if j1 == k {
                    assert(fields@[j2] == old_fields[o2]);
                } else if j2 == k {
                    assert(fields@[j1] == old_fields[o1]);
                } else {
                    assert(fields@[j1] == old_fields[o1]);
                    assert(fields@[j2] == old_fields[o2]);
                    if o1 == o2 {
                        assert(j1 < k && k < j2 && o2 == j2 - 1);
                        assert(field_le(fields@[j1], f));
                        assert(field_le(f, fields@[j2]));
                    }
                }
            }
        }
        i = i + 1;
    }
    // adjacent-pair collision scan over the sorted fields
    let mut t: usize = 0;
    while t + 1 < fields.len()
        invariant
            n == decls@.len(),
            all_resolve(decls@, mode),
            is_resolution_of(fields@, decls@, mode),
            layout_sorted(fields@),
            0 <= t,
            fields@.len() >= 1 ==> t <= fields@.len() - 1,
            fields@.len() == 0 ==> t == 0,
            forall|u: int|
                0 <= u && u + 1 <= t && u + 1 < fields@.len() ==> #[trigger] adjacent_clear(
                    fields@,
                    u,
                ),
        decreases fields@.len() - t,
    {
        let a = fields[t];
        let b = fields[t + 1];
        if a.range.contains(b.range.lo) || a.range.lo == b.range.lo {
            proof {
                assert(field_matches(decls@, mode, fields@[t as int]));
                assert(field_matches(decls@, mode, fields@[t + 1]));
                let i0 = fields@[t as int].src as int;
                let j0 = fields@[t + 1].src as int;
                assert(field_le(fields@[t as int], fields@[t + 1]));
                assert(ranges_collide(
                    resolved_pair(decls@, mode, i0),
                    resolved_pair(decls@, mode, j0),
                ));
            }
            return Err(LayoutError::Overlap { range: b.range });
        }
        proof {
            assert(adjacent_clear(fields@, t as int));
        }
        t = t + 1;
    }
    proof {
        lemma_scan_clean_no_collision(fields@, decls@, mode);
    }
    // the final extent of the record
    let mut m: usize = 0;
    let mut u: usize = 0;
    while u < fields.len()
        invariant
            0 <= u <= fields@.len(),
            u == 0 ==> m == 0,
            u > 0 ==> m as int == max_hi(fields@.take(u as int)),
        decreases fields@.len() - u,
    {
        proof {
            assert(fields@.take(u + 1).drop_last() =~= fields@.take(u as int));
            assert(fields@.take(u + 1).last() == fields@[u as int]);
            if u == 0 {
                assert(max_hi(fields@.take(0)) == -1);
                assert(max_hi(fields@.take(1)) == fields@[0].range.hi);
            } else {
                lemma_max_hi_dominates(fields@.take(u as int), 0);
                assert(max_hi(fields@.take(u + 1)) == if fields@[u as int].range.hi as int
                    > max_hi(fields@.take(u as int)) {
                    fields@[u as int].range.hi as int
                } else {
                    max_hi(fields@.take(u as int))
                });
            }
        }
        if fields[u].range.hi > m {
            m = fields[u].range.hi;
        }
        u = u + 1;
    }
    proof {
        assert(fields@.take(fields@.len() as int) =~= fields@);
        if fields@.len() > 0 {
            lemma_max_hi_dominates(fields@, 0);
        }
    }
    Ok(Layout { fields, max_end: m })
}

} // verus!
