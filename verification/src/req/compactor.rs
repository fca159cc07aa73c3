//! The relative compactor, which is the building block of the REQ sketch.
//!
//! Items are held as `u64` keys: the compactor only ever orders and moves its
//! items, so any item type with an order-preserving map onto `u64` can stand
//! behind them. Signed integers map through `keys::i64_key`; floating-point
//! items need a map of their bits, which is float code and not part of this
//! library.

use std::cmp::Ordering;
use vstd::prelude::*;

use crate::common::random::random_bit;
use crate::req::INIT_NUM_SECTIONS;
use crate::req::MIN_K;
use crate::req::MULTIPLIER;

verus! {

// ---------------------------------------------------------------------------
// Ordering and sorted sequences
// ---------------------------------------------------------------------------

/// `s` is in ascending order.
pub open spec fn ascending(s: Seq<u64>) -> bool {
    forall|i: int, j: int| 0 <= i <= j < s.len() ==> s[i] <= s[j]
}

/// The ordering of two keys, as `compare` returns it.
pub open spec fn order_of(a: u64, b: u64) -> Ordering {
    if a < b {
        Ordering::Less
    } else if a == b {
        Ordering::Equal
    } else {
        Ordering::Greater
    }
}

/// Compares two items by the natural order of their keys.
pub fn compare(a: &u64, b: &u64) -> (o: Ordering)
    ensures
        o == order_of(*a, *b),
        (o == Ordering::Less) == (*a < *b),
        (o == Ordering::Equal) == (*a == *b),
        (o == Ordering::Greater) == (*a > *b),
{
    if *a < *b {
        Ordering::Less
    } else if *a == *b {
        Ordering::Equal
    } else {
        Ordering::Greater
    }
}

/// The merge of `a` and `b`: repeatedly take the front of `a` while it is not
/// greater than the front of `b`, else the front of `b`; once one side runs
/// out, the rest of the other follows.
pub open spec fn merge_spec(a: Seq<u64>, b: Seq<u64>) -> Seq<u64>
    decreases a.len() + b.len(),
{
    if a.len() == 0 {
        b
    } else if b.len() == 0 {
        a
    } else if a[0] <= b[0] {
        seq![a[0]] + merge_spec(a.drop_first(), b)
    } else {
        seq![b[0]] + merge_spec(a, b.drop_first())
    }
}

/// Every element of a merge comes from one of its two inputs, and the merge
/// holds exactly the elements of both.
pub proof fn lemma_merge_multiset(a: Seq<u64>, b: Seq<u64>)
    ensures
        merge_spec(a, b).to_multiset() =~= a.to_multiset().add(b.to_multiset()),
        merge_spec(a, b).len() == a.len() + b.len(),
    decreases a.len() + b.len(),
{
    broadcast use vstd::seq_lib::group_to_multiset_ensures;
    broadcast use vstd::multiset::group_multiset_axioms;

    if a.len() == 0 {
        assert(a.to_multiset() =~= vstd::multiset::Multiset::empty());
    } else if b.len() == 0 {
        assert(b.to_multiset() =~= vstd::multiset::Multiset::empty());
    } else if a[0] <= b[0] {
        lemma_merge_multiset(a.drop_first(), b);
        vstd::seq_lib::lemma_multiset_commutative(seq![a[0]], merge_spec(a.drop_first(), b));
        vstd::seq_lib::lemma_multiset_commutative(seq![a[0]], a.drop_first());
        assert(seq![a[0]] + a.drop_first() =~= a);
    } else {
        lemma_merge_multiset(a, b.drop_first());
        vstd::seq_lib::lemma_multiset_commutative(seq![b[0]], merge_spec(a, b.drop_first()));
        vstd::seq_lib::lemma_multiset_commutative(seq![b[0]], b.drop_first());
        assert(seq![b[0]] + b.drop_first() =~= b);
    }
}

/// Every element of a merge is an element of one of its inputs.
proof fn lemma_merge_elements(a: Seq<u64>, b: Seq<u64>, k: int)
    requires
        0 <= k < merge_spec(a, b).len(),
    ensures
        a.contains(merge_spec(a, b)[k]) || b.contains(merge_spec(a, b)[k]),
{
    broadcast use vstd::seq_lib::group_to_multiset_ensures;

    lemma_merge_multiset(a, b);
    let m = merge_spec(a, b);
    assert(m.contains(m[k]));
    assert(m.to_multiset().count(m[k]) > 0);
}

/// Merging two ascending sequences gives an ascending sequence.
pub proof fn lemma_merge_sorted(a: Seq<u64>, b: Seq<u64>)
    requires
        ascending(a),
        ascending(b),
    ensures
        ascending(merge_spec(a, b)),
    decreases a.len() + b.len(),
{
    if a.len() == 0 || b.len() == 0 {
    } else {
        let (x, a2, b2) = if a[0] <= b[0] {
            (a[0], a.drop_first(), b)
        } else {
            (b[0], a, b.drop_first())
        };
        lemma_merge_sorted(a2, b2);
        lemma_merge_multiset(a2, b2);
        let rest = merge_spec(a2, b2);
        assert(merge_spec(a, b) == seq![x] + rest);
        assert forall|k: int| 0 <= k < rest.len() implies x <= #[trigger] rest[k] by {
            lemma_merge_elements(a2, b2, k);
            if a2.contains(rest[k]) {
                let i = choose|i: int| 0 <= i < a2.len() && a2[i] == rest[k];
                if a[0] <= b[0] {
                    assert(a2[i] == a[i + 1]);
                } else {
                    assert(a[0] <= a[i]);
                }
            } else {
                let i = choose|i: int| 0 <= i < b2.len() && b2[i] == rest[k];
                if a[0] <= b[0] {
                    assert(b[0] <= b[i]);
                } else {
                    assert(b2[i] == b[i + 1]);
                }
            }
        }
        let m = seq![x] + rest;
        assert forall|i: int, j: int| 0 <= i <= j < m.len() implies m[i] <= m[j] by {
            if i == 0 {
                if j > 0 {
                    assert(m[j] == rest[j - 1]);
                }
            } else {
                assert(m[i] == rest[i - 1]);
                assert(m[j] == rest[j - 1]);
            }
        }
    }
}

/// Merges two ascending sequences into one ascending sequence holding the
/// items of both; on ties the item of `a` comes first.
pub fn merge_sorted(a: Vec<u64>, b: Vec<u64>) -> (out: Vec<u64>)
    ensures
        out@ == merge_spec(a@, b@),
        out@.to_multiset() == a@.to_multiset().add(b@.to_multiset()),
        out@.len() == a@.len() + b@.len(),
        ascending(a@) && ascending(b@) ==> ascending(out@),
{
    proof {
        lemma_merge_multiset(a@, b@);
        if ascending(a@) && ascending(b@) {
            lemma_merge_sorted(a@, b@);
        }
    }
    let mut out: Vec<u64> = Vec::new();
    let mut i: usize = 0;
    let mut j: usize = 0;
    assert(a@.skip(0) =~= a@);
    assert(b@.skip(0) =~= b@);
    assert(out@ + merge_spec(a@, b@) =~= merge_spec(a@, b@));
    while i < a.len() || j < b.len()
        invariant
            0 <= i <= a.len(),
            0 <= j <= b.len(),
            out@ + merge_spec(a@.skip(i as int), b@.skip(j as int)) == merge_spec(a@, b@),
        decreases a.len() - i + b.len() - j,
    {
        let ghost sa = a@.skip(i as int);
        let ghost sb = b@.skip(j as int);
        let take_a = if i < a.len() && j < b.len() {
            a[i] <= b[j]
        } else {
            i < a.len()
        };
        if take_a {
            assert(sa.drop_first() =~= a@.skip(i + 1));
            if j < b.len() {
                assert(merge_spec(sa, sb) == seq![sa[0]] + merge_spec(sa.drop_first(), sb));
            } else {
                assert(sb.len() == 0);
                assert(merge_spec(sa, sb) == sa);
                assert(merge_spec(sa.drop_first(), sb) == sa.drop_first());
                assert(sa =~= seq![sa[0]] + sa.drop_first());
            }
            out.push(a[i]);
            i = i + 1;
        } else {
            assert(sb.drop_first() =~= b@.skip(j + 1));
            if i < a.len() {
                assert(merge_spec(sa, sb) == seq![sb[0]] + merge_spec(sa, sb.drop_first()));
            } else {
                assert(sa.len() == 0);
                assert(merge_spec(sa, sb) == sb);
                assert(merge_spec(sa, sb.drop_first()) == sb.drop_first());
                assert(sb =~= seq![sb[0]] + sb.drop_first());
            }
            out.push(b[j]);
            j = j + 1;
        }
        assert(out@ + merge_spec(a@.skip(i as int), b@.skip(j as int)) =~= merge_spec(a@, b@));
    }
    assert(a@.skip(i as int) =~= Seq::<u64>::empty());
    assert(b@.skip(j as int) =~= Seq::<u64>::empty());
    assert(out@ =~= merge_spec(a@, b@));
    out
}

/// Sorts `v` in place with `slice::sort_by` and `compare`. For the total order
/// that `compare` is, the documentation of `sort_by` gives what is stated: the
/// slice ends up in ascending order and holds the same items as before.
#[verifier::external_body]
fn sort_keys(v: &mut Vec<u64>)
    ensures
        ascending(final(v)@),
        final(v)@.to_multiset() == old(v)@.to_multiset(),
{
    v.sort_by(compare);
}

// ---------------------------------------------------------------------------
// The compactor and its model
// ---------------------------------------------------------------------------

/// A single level of the REQ sketch.
///
/// Each compactor holds items of one fixed weight `2^lg_weight`. When it fills
/// up, part of the buffer is compacted: the range is halved by keeping every
/// other item, and those survivors are promoted to the next level where they
/// count for twice as much.
///
/// The buffer is divided into `num_sections` sections, and a compaction only
/// ever consumes the sections furthest from the prioritized end of the rank
/// domain. As compactions accumulate the sections grow in number and shrink in
/// size: the section size after the `j`-th shrink is entry `j - 1` of the
/// compactor's section size schedule, which is fixed when the compactor is made.
#[derive(Debug, Clone)]
pub struct ReqCompactor {
    /// Items held by this compactor, in ascending order whenever `sorted` is true.
    items: Vec<u64>,
    /// Base-2 logarithm of the weight each item in this compactor carries.
    lg_weight: u8,
    /// High rank accuracy: prioritizes high ranks when true, low ranks when false.
    hra: bool,
    /// Deterministic half of the compaction coin flip.
    coin: bool,
    /// Whether `items` is known to be in ascending order.
    sorted: bool,
    /// Current section size.
    section_size: u32,
    /// Number of sections the buffer is divided into.
    num_sections: u8,
    /// Number of compactions performed, which drives the compaction schedule.
    state: u64,
    /// The section size that each successive shrink produces.
    section_size_schedule: Vec<u32>,
    /// How many shrinks have happened so far.
    shrinks: usize,
}

/// The abstract state of a compactor.
pub ghost struct CompactorModel {
    pub items: Seq<u64>,
    pub lg_weight: u8,
    pub hra: bool,
    pub coin: bool,
    pub sorted: bool,
    pub section_size: u32,
    pub num_sections: u8,
    pub state: u64,
    pub schedule: Seq<u32>,
    pub shrinks: nat,
}

impl View for ReqCompactor {
    type V = CompactorModel;

    closed spec fn view(&self) -> CompactorModel {
        CompactorModel {
            items: self.items@,
            lg_weight: self.lg_weight,
            hra: self.hra,
            coin: self.coin,
            sorted: self.sorted,
            section_size: self.section_size,
            num_sections: self.num_sections,
            state: self.state,
            schedule: self.section_size_schedule@,
            shrinks: self.shrinks as nat,
        }
    }
}

/// The invariant of a compactor: a set `sorted` flag means the items ascend;
/// the schedule reaches past every shrink that can still happen (its last
/// entry is below `MIN_K`, so no shrink ever consumes it); its sizes are even;
/// the shrinks so far consumed sizes of at least `MIN_K`, and after a shrink the
/// section size is the last size consumed.
pub open spec fn model_well_formed(m: CompactorModel) -> bool {
    &&& m.sorted ==> ascending(m.items)
    &&& m.shrinks < m.schedule.len()
    &&& m.schedule.last() < MIN_K
    &&& forall|j: int| 0 <= j < m.schedule.len() ==> #[trigger] m.schedule[j] % 2 == 0
    &&& forall|j: int| 0 <= j < m.shrinks ==> #[trigger] m.schedule[j] >= MIN_K
    &&& m.shrinks > 0 ==> m.section_size == m.schedule[m.shrinks - 1]
}

/// Once the sections have shrunk, the section size is even and at least `MIN_K`.
pub proof fn lemma_section_size_even(m: CompactorModel)
    requires
        model_well_formed(m),
        m.shrinks > 0,
    ensures
        m.section_size % 2 == 0,
        m.section_size >= MIN_K,
{
    assert(m.schedule[m.shrinks - 1] % 2 == 0);
    assert(m.schedule[m.shrinks - 1] >= MIN_K);
}

/// The nominal capacity `MULTIPLIER * num_sections * section_size`.
pub open spec fn nom_capacity_of(m: CompactorModel) -> int {
    MULTIPLIER * m.num_sections * m.section_size
}

/// The nominal capacity fits in a `u32`.
pub open spec fn capacity_fits(m: CompactorModel) -> bool {
    nom_capacity_of(m) <= u32::MAX
}

/// The threshold test of `ensure_enough_sections` can be evaluated: the shift
/// `1 << (num_sections - 1)` is in range and a next schedule entry exists.
pub open spec fn growth_checkable(m: CompactorModel) -> bool {
    &&& 1 <= m.num_sections <= 64
    &&& m.shrinks < m.schedule.len()
}

/// The sections grow: enough compactions have happened for the current number
/// of sections, and the next section size would still be at least `MIN_K`.
pub open spec fn grows(m: CompactorModel) -> bool {
    &&& m.state >= vstd::arithmetic::power2::pow2((m.num_sections - 1) as nat)
    &&& m.schedule[m.shrinks as int] >= MIN_K
}

/// The sections after one growth step: twice as many, of the next scheduled size.
pub open spec fn grown(m: CompactorModel) -> CompactorModel {
    CompactorModel {
        num_sections: (2 * m.num_sections) as u8,
        section_size: m.schedule[m.shrinks as int],
        shrinks: m.shrinks + 1,
        ..m
    }
}

/// The compactor after one call of `ensure_enough_sections`.
pub open spec fn after_growth_check(m: CompactorModel) -> CompactorModel {
    if grows(m) {
        grown(m)
    } else {
        m
    }
}

/// The compactor after `ensure_enough_sections` has been called until it
/// returns false, or `None` when some call on the way would have its threshold
/// shift out of range.
pub open spec fn settled(m: CompactorModel) -> Option<CompactorModel>
    decreases m.schedule.len() - m.shrinks,
{
    if !growth_checkable(m) {
        None
    } else if grows(m) {
        settled(grown(m))
    } else {
        Some(m)
    }
}

/// The total weight held: the item count times `2^lg_weight`.
pub open spec fn total_weight(m: CompactorModel) -> nat {
    m.items.len() * vstd::arithmetic::power2::pow2(m.lg_weight as nat)
}

/// `x` counts toward the weight of `v`: `x <= v` when inclusive, `x < v` otherwise.
pub open spec fn below(x: u64, v: u64, inclusive: bool) -> bool {
    if inclusive {
        x <= v
    } else {
        x < v
    }
}

/// The number of items of `s` that count toward the weight of `v`.
pub open spec fn count_below(s: Seq<u64>, v: u64, inclusive: bool) -> nat
    decreases s.len(),
{
    if s.len() == 0 {
        0
    } else {
        count_below(s.drop_last(), v, inclusive) + if below(s.last(), v, inclusive) {
            1nat
        } else {
            0nat
        }
    }
}

/// When the items below `v` are exactly the first `i`, there are `i` of them.
proof fn lemma_count_below_boundary(s: Seq<u64>, v: u64, inclusive: bool, i: int)
    requires
        0 <= i <= s.len(),
        forall|k: int| 0 <= k < i ==> below(#[trigger] s[k], v, inclusive),
        forall|k: int| i <= k < s.len() ==> !below(#[trigger] s[k], v, inclusive),
    ensures
        count_below(s, v, inclusive) == i,
    decreases s.len(),
{
    if s.len() > 0 {
        let t = s.drop_last();
        if i == s.len() {
            assert(below(s[s.len() - 1], v, inclusive));
            lemma_count_below_boundary(t, v, inclusive, i - 1);
        } else {
            assert(!below(s[s.len() - 1], v, inclusive));
            lemma_count_below_boundary(t, v, inclusive, i);
        }
    }
}

/// Removing one item takes it out of the count exactly when it counts.
proof fn lemma_count_below_remove(s: Seq<u64>, v: u64, inclusive: bool, i: int)
    requires
        0 <= i < s.len(),
    ensures
        count_below(s, v, inclusive) == count_below(s.remove(i), v, inclusive) + if below(
            s[i],
            v,
            inclusive,
        ) {
            1nat
        } else {
            0nat
        },
    decreases s.len(),
{
    if i == s.len() - 1 {
        assert(s.remove(i) =~= s.drop_last());
    } else {
        lemma_count_below_remove(s.drop_last(), v, inclusive, i);
        assert(s.drop_last().remove(i) =~= s.remove(i).drop_last());
        assert(s.remove(i).last() == s.last());
    }
}

/// The count of items below a value depends only on which items are held,
/// not on their order.
pub proof fn lemma_count_below_permutation(s: Seq<u64>, t: Seq<u64>, v: u64, inclusive: bool)
    requires
        s.to_multiset() == t.to_multiset(),
    ensures
        count_below(s, v, inclusive) == count_below(t, v, inclusive),
    decreases s.len(),
{
    broadcast use vstd::seq_lib::group_to_multiset_ensures;

    if s.len() == 0 {
        assert(t.len() == t.to_multiset().len());
        assert(s.len() == s.to_multiset().len());
    } else {
        let x = s.last();
        assert(s.contains(x));
        assert(t.to_multiset().count(x) > 0);
        assert(t.contains(x));
        let i = choose|i: int| 0 <= i < t.len() && t[i] == x;
        assert(s.remove(s.len() - 1) =~= s.drop_last());
        assert(t.remove(i).to_multiset() == t.to_multiset().remove(x));
        assert(s.drop_last().to_multiset() == s.to_multiset().remove(x));
        lemma_count_below_permutation(s.drop_last(), t.remove(i), v, inclusive);
        lemma_count_below_remove(t, v, inclusive, i);
    }
}

/// A larger value has at least as many items below it.
pub proof fn lemma_count_below_monotone(s: Seq<u64>, v1: u64, v2: u64, inclusive: bool)
    requires
        v1 <= v2,
    ensures
        count_below(s, v1, inclusive) <= count_below(s, v2, inclusive),
    decreases s.len(),
{
    if s.len() > 0 {
        lemma_count_below_monotone(s.drop_last(), v1, v2, inclusive);
    }
}

/// Counting inclusively counts at least as many items as counting exclusively.
pub proof fn lemma_count_below_exclusive_le_inclusive(s: Seq<u64>, v: u64)
    ensures
        count_below(s, v, false) <= count_below(s, v, true),
    decreases s.len(),
{
    if s.len() > 0 {
        lemma_count_below_exclusive_le_inclusive(s.drop_last(), v);
    }
}

/// The first part of the non-compacted prefix or suffix:
/// `nom_capacity / 2 + (num_sections - secs) * section_size`.
pub open spec fn non_compact_base(m: CompactorModel, secs: u32) -> int {
    nom_capacity_of(m) / 2 + (m.num_sections - secs) * m.section_size
}

/// `compute_compaction_range(secs)` is defined on `m`: the capacity fits, no
/// more sections than there are get compacted, and the items fill at least the
/// part that is kept.
pub open spec fn range_defined(m: CompactorModel, secs: u32) -> bool {
    &&& capacity_fits(m)
    &&& secs <= m.num_sections
    &&& non_compact_base(m, secs) <= (m.items.len() as u32)
}

/// The range that compacting `secs` sections consumes: the non-compacted part
/// is `non_compact_base`, rounded up so that the compacted part has an even
/// length; with high rank accuracy the compacted part is at the low end,
/// otherwise at the high end.
pub open spec fn compaction_range(m: CompactorModel, secs: u32) -> (u32, u32) {
    let n = m.items.len() as u32;
    let base = non_compact_base(m, secs);
    let nc = if (n - base) % 2 == 1 {
        base + 1
    } else {
        base
    };
    if m.hra {
        (0u32, (n - nc) as u32)
    } else {
        (nc as u32, n)
    }
}

/// The number of sections a compaction consumes: one more than the number of
/// trailing one bits of `state`, capped at `num_sections`.
pub open spec fn secs_to_compact(m: CompactorModel) -> u32 {
    let t = vstd::std_specs::bits::u64_trailing_zeros(!m.state) + 1;
    if t <= m.num_sections {
        t as u32
    } else {
        m.num_sections as u32
    }
}

/// The range that the next compaction of `m` consumes.
pub open spec fn next_compaction_range(m: CompactorModel) -> (u32, u32) {
    compaction_range(m, secs_to_compact(m))
}

/// A compactor that holds at least its nominal capacity, with sections of at
/// least two items, has a defined next compaction range of at least two items.
pub proof fn lemma_full_compactor_range(m: CompactorModel)
    requires
        capacity_fits(m),
        1 <= m.num_sections,
        m.section_size >= 2,
        m.items.len() <= u32::MAX,
        m.items.len() >= nom_capacity_of(m),
    ensures
        range_defined(m, secs_to_compact(m)),
        next_compaction_range(m).1 - next_compaction_range(m).0 >= 2,
{
    vstd::std_specs::bits::axiom_u64_trailing_zeros(!m.state);
    let secs = secs_to_compact(m);
    let ns = m.num_sections as int;
    let ss = m.section_size as int;
    assert(1 <= secs <= ns);
    assert(nom_capacity_of(m) == 2 * (ns * ss)) by (nonlinear_arith)
        requires
            nom_capacity_of(m) == MULTIPLIER * m.num_sections * m.section_size,
            MULTIPLIER == 2,
            ns == m.num_sections,
            ss == m.section_size,
    ;
    assert((ns - secs) * ss + secs * ss == ns * ss) by (nonlinear_arith);
    assert(secs * ss >= 2) by (nonlinear_arith)
        requires
            secs >= 1,
            ss >= 2,
    ;
    assert(m.items.len() as u32 == m.items.len());
    assert(non_compact_base(m, secs) + 2 <= m.items.len());
}

/// Every other item of `s`, starting at index `start`.
pub open spec fn every_other(s: Seq<u64>, start: nat) -> Seq<u64> {
    Seq::new(
        if start < s.len() {
            ((s.len() - start + 1) / 2) as nat
        } else {
            0
        },
        |k: int| s[start + 2 * k],
    )
}

/// The compaction coin after a compaction of `m` with generator state `rng`:
/// flipped when `state` is odd, a fresh random bit when it is even.
pub open spec fn next_coin(m: CompactorModel, rng: u64) -> bool {
    if m.state % 2 == 1 {
        !m.coin
    } else {
        crate::common::random::top_bit(crate::common::random::xorshift64(rng))
    }
}

/// The generator state after a compaction of `m`: advanced only when a fresh
/// random bit was drawn.
pub open spec fn next_rng(m: CompactorModel, rng: u64) -> u64 {
    if m.state % 2 == 1 {
        rng
    } else {
        crate::common::random::xorshift64(rng)
    }
}

/// The items a compaction of `m` promotes, given the coin it uses.
pub open spec fn promoted_items(m: CompactorModel, coin: bool) -> Seq<u64> {
    let (lo, hi) = next_compaction_range(m);
    every_other(m.items.subrange(lo as int, hi as int), if coin { 1 } else { 0 })
}

/// The compactor after a compaction of `m` with generator state `rng`: the
/// compacted range is gone, the coin and state have moved on, and the
/// sections have been checked for growth once.
pub open spec fn after_compaction(m: CompactorModel, rng: u64) -> CompactorModel {
    let (lo, hi) = next_compaction_range(m);
    after_growth_check(
        CompactorModel {
            items: m.items.subrange(0, lo as int) + m.items.subrange(hi as int, m.items.len() as int),
            coin: next_coin(m, rng),
            state: (m.state + 1) as u64,
            ..m
        },
    )
}

/// `compact` can run on `m` without any of its arithmetic or checks failing:
/// the threshold shift is in range, the capacities before and after fit and do
/// not shrink, the range is defined and at least two items long, and the state
/// can still count up.
pub open spec fn compactable(m: CompactorModel) -> bool {
    &&& growth_checkable(m)
    &&& range_defined(m, secs_to_compact(m))
    &&& next_compaction_range(m).1 - next_compaction_range(m).0 >= 2
    &&& m.state < u64::MAX
    &&& capacity_fits(after_compaction(m, 0))
    &&& nom_capacity_of(after_compaction(m, 0)) >= nom_capacity_of(m)
}

/// Cutting a range out of an ascending sequence leaves it ascending.
proof fn lemma_cut_ascending(s: Seq<u64>, lo: int, hi: int)
    requires
        ascending(s),
        0 <= lo <= hi <= s.len(),
    ensures
        ascending(s.subrange(0, lo) + s.subrange(hi, s.len() as int)),
{
    let t = s.subrange(0, lo) + s.subrange(hi, s.len() as int);
    assert forall|i: int, j: int| 0 <= i <= j < t.len() implies t[i] <= t[j] by {
        let si = if i < lo {
            i
        } else {
            i - lo + hi
        };
        let sj = if j < lo {
            j
        } else {
            j - lo + hi
        };
        assert(t[i] == s[si]);
        assert(t[j] == s[sj]);
    }
}

/// Every other item of an ascending sequence ascends, and of a sequence of
/// even length every other item is half of it, whichever of the first two
/// items it starts from.
proof fn lemma_every_other(s: Seq<u64>, start: nat)
    requires
        start <= 1,
    ensures
        ascending(s) ==> ascending(every_other(s, start)),
        s.len() % 2 == 0 ==> every_other(s, start).len() == s.len() / 2,
{
    let e = every_other(s, start);
    if ascending(s) {
        assert forall|i: int, j: int| 0 <= i <= j < e.len() implies e[i] <= e[j] by {
            assert(e[i] == s[start + 2 * i]);
            assert(e[j] == s[start + 2 * j]);
        }
    }
}

/// Once settled, the sections stay put: one more `ensure_enough_sections`
/// would be defined and would not grow them.
pub proof fn lemma_settled_is_stable(m: CompactorModel)
    requires
        settled(m) is Some,
    ensures
        growth_checkable(settled(m)->0),
        !grows(settled(m)->0),
    decreases m.schedule.len() - m.shrinks,
{
    if grows(m) {
        lemma_settled_is_stable(grown(m));
    }
}

/// Growing the sections touches nothing but the sections.
proof fn lemma_settled_keeps(m: CompactorModel)
    requires
        settled(m) is Some,
    ensures
        settled(m)->0 == (CompactorModel {
            num_sections: settled(m)->0.num_sections,
            section_size: settled(m)->0.section_size,
            shrinks: settled(m)->0.shrinks,
            ..m
        }),
        settled(m)->0.shrinks >= m.shrinks,
        settled(m)->0.shrinks == m.shrinks ==> settled(m)->0 == m,
    decreases m.schedule.len() - m.shrinks,
{
    if grows(m) {
        lemma_settled_keeps(grown(m));
    }
}

/// Takes `[low, high)` out of `items`, returning it; the items before and after
/// the range close up in order.
fn cut_range(items: &mut Vec<u64>, low: usize, high: usize) -> (removed: Vec<u64>)
    requires
        low <= high <= old(items)@.len(),
    ensures
        removed@ == old(items)@.subrange(low as int, high as int),
        final(items)@ == old(items)@.subrange(0, low as int) + old(items)@.subrange(
            high as int,
            old(items)@.len() as int,
        ),
{
    let ghost s = items@;
    let tail: Vec<u64> = items.split_off(high);
    let removed: Vec<u64> = items.split_off(low);
    let ghost head = items@;
    let mut t: usize = 0;
    while t < tail.len()
        invariant
            0 <= t <= tail@.len(),
            items@ == head + tail@.take(t as int),
        decreases tail@.len() - t,
    {
        items.push(tail[t]);
        t = t + 1;
        assert(items@ =~= head + tail@.take(t as int));
    }
    assert(tail@.take(t as int) =~= tail@);
    assert(removed@ =~= s.subrange(low as int, high as int));
    assert(items@ =~= s.subrange(0, low as int) + s.subrange(high as int, s.len() as int));
    removed
}

/// Every other item of `removed`, starting at index `start`, for an even
/// number of removed items.
fn take_every_other(removed: &Vec<u64>, start: u32) -> (promoted: Vec<u64>)
    requires
        start <= 1,
        removed@.len() % 2 == 0,
        removed@.len() <= u32::MAX,
    ensures
        promoted@ == every_other(removed@, start as nat),
        promoted@.len() == removed@.len() / 2,
        ascending(removed@) ==> ascending(promoted@),
{
    proof {
        lemma_every_other(removed@, start as nat);
    }
    let num: usize = removed.len() / 2;
    let mut promoted: Vec<u64> = Vec::new();
    let mut k: usize = 0;
    while k < num
        invariant
            start <= 1,
            removed@.len() % 2 == 0,
            removed@.len() <= u32::MAX,
            num == removed@.len() / 2,
            every_other(removed@, start as nat).len() == num,
            0 <= k <= num,
            promoted@ == every_other(removed@, start as nat).take(k as int),
        decreases num - k,
    {
        let idx: usize = start as usize + 2 * k;
        promoted.push(removed[idx]);
        k = k + 1;
        assert(promoted@ =~= every_other(removed@, start as nat).take(k as int));
    }
    assert(promoted@ =~= every_other(removed@, start as nat));
    promoted
}

/// Whether `v` is in ascending order.
fn is_ascending(v: &Vec<u64>) -> (b: bool)
    ensures
        b == ascending(v@),
{
    let len: usize = v.len();
    if len == 0 {
        return true;
    }
    let mut i: usize = 1;
    while i < len
        invariant
            len == v@.len(),
            1 <= i <= len,
            forall|a: int, b: int| 0 <= a <= b < i ==> v@[a] <= v@[b],
        decreases len - i,
    {
        if v[i - 1] > v[i] {
            return false;
        }
        assert forall|a: int, b: int| 0 <= a <= b < i + 1 implies v@[a] <= v@[b] by {
            if b == i && a < i {
                assert(v@[a] <= v@[i - 1]);
            }
        }
        i = i + 1;
    }
    true
}

// ---------------------------------------------------------------------------
// Laws stated over plain comparisons and arithmetic
// ---------------------------------------------------------------------------

/// `order_of` is the natural order of unsigned keys: `Less` exactly when the
/// first key is smaller, `Equal` exactly when they are equal, and `Greater`
/// exactly when the first is larger.
pub proof fn lemma_order_of_is_natural(a: u64, b: u64)
    ensures
        (order_of(a, b) == Ordering::Less) == (a < b),
        (order_of(a, b) == Ordering::Equal) == (a == b),
        (order_of(a, b) == Ordering::Greater) == (a > b),
{
}

/// The weight count is the number of items `<= v` (inclusive) or `< v`
/// (exclusive), whatever their order.
pub proof fn lemma_count_below_counts(s: Seq<u64>, v: u64)
    ensures
        count_below(s, v, true) == s.filter(|x: u64| x <= v).len(),
        count_below(s, v, false) == s.filter(|x: u64| x < v).len(),
    decreases s.len(),
{
    if s.len() > 0 {
        let t = s.drop_last();
        lemma_count_below_counts(t, v);
        assert(s =~= t.push(s.last()));
        t.lemma_filter_push(s.last(), |x: u64| x <= v);
        t.lemma_filter_push(s.last(), |x: u64| x < v);
    }
}

/// In ascending items the counted items are exactly the first ones: before the
/// count every item is `<= v` (inclusive) or `< v` (exclusive), from the count
/// on every item is `> v` (inclusive) or `>= v` (exclusive).
pub proof fn lemma_count_below_prefix(s: Seq<u64>, v: u64, inclusive: bool)
    requires
        ascending(s),
    ensures
        count_below(s, v, inclusive) <= s.len(),
        forall|i: int|
            0 <= i < count_below(s, v, inclusive) ==> if inclusive {
                #[trigger] s[i] <= v
            } else {
                s[i] < v
            },
        forall|i: int|
            count_below(s, v, inclusive) <= i < s.len() ==> if inclusive {
                #[trigger] s[i] > v
            } else {
                s[i] >= v
            },
    decreases s.len(),
{
    if s.len() > 0 {
        let t = s.drop_last();
        assert(ascending(t));
        lemma_count_below_prefix(t, v, inclusive);
        let c = count_below(t, v, inclusive);
        if below(s.last(), v, inclusive) {
            // Every earlier item is no larger than the last, so all count.
            assert forall|i: int| 0 <= i < t.len() implies below(#[trigger] t[i], v, inclusive) by {
                assert(t[i] == s[i]);
                assert(s[i] <= s[s.len() - 1]);
            }
            assert(c == t.len()) by {
                if c < t.len() {
                    assert(below(t[c as int], v, inclusive));
                }
            }
        }
        assert forall|i: int| 0 <= i < count_below(s, v, inclusive) implies (if inclusive {
            #[trigger] s[i] <= v
        } else {
            s[i] < v
        }) by {
            if i < t.len() {
                assert(s[i] == t[i]);
            }
        }
        assert forall|i: int| count_below(s, v, inclusive) <= i < s.len() implies (if inclusive {
            #[trigger] s[i] > v
        } else {
            s[i] >= v
        }) by {
            if i < t.len() {
                assert(s[i] == t[i]);
            }
        }
    }
}

/// The compaction range keeps exactly `num_sections * section_size +
/// (num_sections - secs) * section_size` items (half the nominal capacity plus
/// the sections not compacted), plus one more when the rest would be odd; it
/// takes the rest from the low end with high rank accuracy, else from the high
/// end.
pub proof fn lemma_compaction_range_keeps(m: CompactorModel, secs: u32)
    requires
        range_defined(m, secs),
    ensures
        ({
            let n = m.items.len() as u32 as int;
            let b = m.num_sections * m.section_size + (m.num_sections - secs) * m.section_size;
            let nc = b + (n - b) % 2;
            &&& m.hra ==> compaction_range(m, secs) == (0u32, (n - nc) as u32)
            &&& !m.hra ==> compaction_range(m, secs) == (nc as u32, n as u32)
        }),
{
    let ns = m.num_sections as int;
    let ss = m.section_size as int;
    assert(nom_capacity_of(m) == 2 * (ns * ss)) by (nonlinear_arith)
        requires
            nom_capacity_of(m) == MULTIPLIER * m.num_sections * m.section_size,
            MULTIPLIER == 2,
            ns == m.num_sections,
            ss == m.section_size,
    ;
}

/// The sections grow exactly when at least `2^(num_sections - 1)` compactions
/// have happened and the next scheduled size is at least `MIN_K`; growing
/// doubles the number of sections and takes the next scheduled size.
pub proof fn lemma_growth_threshold(m: CompactorModel)
    requires
        growth_checkable(m),
    ensures
        m.state < vstd::arithmetic::power2::pow2((m.num_sections - 1) as nat) ==> !grows(m),
        m.schedule[m.shrinks as int] < MIN_K ==> !grows(m),
        m.state >= vstd::arithmetic::power2::pow2((m.num_sections - 1) as nat) && m.schedule[m.shrinks as int]
            >= MIN_K ==> grows(m),
        grows(m) ==> after_growth_check(m).num_sections == 2 * m.num_sections,
        grows(m) ==> after_growth_check(m).section_size == m.schedule[m.shrinks as int],
        !grows(m) ==> after_growth_check(m) == m,
{
}

/// A compaction from an odd state negates the coin and leaves the generator
/// alone; from an even state the coin is the top bit of the generator state
/// after one xorshift64 step, and the generator takes that step.
pub proof fn lemma_compaction_coin(m: CompactorModel, rng: u64)
    ensures
        m.state % 2 == 1 ==> next_coin(m, rng) == !m.coin && next_rng(m, rng) == rng,
        m.state % 2 == 0 ==> next_rng(m, rng) == crate::common::random::xorshift64(rng) && next_coin(
            m,
            rng,
        ) == (next_rng(m, rng) >= 0x8000_0000_0000_0000u64),
        after_compaction(m, rng).coin == next_coin(m, rng),
{
    let x = crate::common::random::xorshift64(rng);
    assert((x >> 63u64) != 0 <==> x >= 0x8000_0000_0000_0000u64) by (bit_vector);
}

/// The promoted items are every other item of the compacted range, starting at
/// its first item when the coin is false and at its second when it is true.
pub proof fn lemma_promoted_items(m: CompactorModel, coin: bool)
    requires
        range_defined(m, secs_to_compact(m)),
    ensures
        promoted_items(m, coin).len() == (next_compaction_range(m).1 - next_compaction_range(m).0)
            / 2,
        forall|k: int|
            0 <= k < promoted_items(m, coin).len() ==> #[trigger] promoted_items(m, coin)[k]
                == m.items[next_compaction_range(m).0 + (if coin {
                1int
            } else {
                0int
            }) + 2 * k],
{
    let (lo, hi) = next_compaction_range(m);
    let r = m.items.subrange(lo as int, hi as int);
    let start: nat = if coin {
        1
    } else {
        0
    };
    lemma_every_other(r, start);
}

/// A compaction consumes one section more than the number of low one bits of
/// `state`, and never more than there are: its low `secs - 1` bits are ones,
/// and unless the cap applies, the next bit is a zero.
pub proof fn lemma_secs_to_compact(m: CompactorModel)
    requires
        1 <= m.num_sections <= 64,
    ensures
        1 <= secs_to_compact(m) <= m.num_sections,
        forall|j: u64| 0 <= j < secs_to_compact(m) - 1 ==> #[trigger] ((m.state >> j) & 1u64) == 1u64,
        secs_to_compact(m) < m.num_sections ==> (m.state >> ((secs_to_compact(m) - 1) as u64))
            & 1u64 == 0u64,
{
    let ns = !m.state;
    vstd::std_specs::bits::axiom_u64_trailing_zeros(ns);
    let tz = vstd::std_specs::bits::u64_trailing_zeros(ns);
    let st = m.state;
    assert forall|j: u64| 0 <= j < secs_to_compact(m) - 1 implies #[trigger] ((m.state >> j) & 1u64)
        == 1u64 by {
        assert((ns >> j) & 1u64 == 0u64);
        assert(j < 64 && ns == !st ==> ((ns >> j) & 1u64 == 0u64 <==> (st >> j) & 1u64 == 1u64))
            by (bit_vector);
    }
    if secs_to_compact(m) < m.num_sections {
        let k = (secs_to_compact(m) - 1) as u64;
        assert(k == tz);
        assert(k < 64);
        assert((ns >> k) & 1u64 == 1u64);
        assert(k < 64 && ns == !st ==> ((ns >> k) & 1u64 == 1u64 <==> (st >> k) & 1u64 == 0u64))
            by (bit_vector);
    }
}

impl ReqCompactor {
    /// The compactor's invariant, over its model.
    pub open spec fn well_formed(&self) -> bool {
        model_well_formed(self@)
    }

    /// Creates an empty compactor. `section_size_schedule[j]` is the section
    /// size after `j + 1` shrinks; the schedule ends with the first size below
    /// `MIN_K`.
    pub fn new(hra: bool, lg_weight: u8, section_size: u32, section_size_schedule: Vec<u32>) -> (c:
        Self)
        requires
            section_size_schedule@.len() >= 1,
            section_size_schedule@.last() < MIN_K,
            forall|j: int|
                0 <= j < section_size_schedule@.len() ==> #[trigger] section_size_schedule@[j] % 2
                    == 0,
        ensures
            c.well_formed(),
            c@ == (CompactorModel {
                items: Seq::empty(),
                lg_weight,
                hra,
                coin: false,
                sorted: true,
                section_size,
                num_sections: INIT_NUM_SECTIONS,
                state: 0,
                schedule: section_size_schedule@,
                shrinks: 0,
            }),
    {
        let c = ReqCompactor {
            items: Vec::new(),
            lg_weight,
            hra,
            coin: false,
            sorted: true,
            section_size,
            num_sections: INIT_NUM_SECTIONS,
            state: 0,
            section_size_schedule,
            shrinks: 0,
        };
        assert(c@.items =~= Seq::<u64>::empty());
        c
    }

    /// Returns the number of items this compactor holds before it needs compacting.
    pub fn nom_capacity(&self) -> (r: u32)
        requires
            capacity_fits(self@),
        ensures
            r == nom_capacity_of(self@),
    {
        proof {
            assert(MULTIPLIER * self.num_sections <= 2 * 255);
            assert(MULTIPLIER * self.num_sections * self.section_size <= u32::MAX);
        }
        MULTIPLIER * self.num_sections as u32 * self.section_size
    }

    /// Returns the retained items.
    pub fn items(&self) -> (r: &[u64])
        ensures
            r@ == self@.items,
    {
        self.items.as_slice()
    }

    /// Returns the number of items currently retained (the count truncated to 32 bits).
    pub fn num_items(&self) -> (r: u32)
        ensures
            r == self@.items.len() as u32,
    {
        #[verifier::truncate]
        (self.items.len() as u32)
    }

    /// Returns the base-2 logarithm of this compactor's item weight.
    pub fn lg_weight(&self) -> (r: u8)
        ensures
            r == self@.lg_weight,
    {
        self.lg_weight
    }

    /// Returns whether the items are known to be sorted.
    pub fn is_sorted(&self) -> (r: bool)
        ensures
            r == self@.sorted,
    {
        self.sorted
    }

    /// Returns the compaction schedule state.
    pub fn state(&self) -> (r: u64)
        ensures
            r == self@.state,
    {
        self.state
    }

    /// Returns the current section size.
    pub fn section_size(&self) -> (r: u32)
        ensures
            r == self@.section_size,
    {
        self.section_size
    }

    /// Returns the current number of sections.
    pub fn num_sections(&self) -> (r: u8)
        ensures
            r == self@.num_sections,
    {
        self.num_sections
    }

    /// Sorts the retained items if they are not already in order.
    pub fn sort(&mut self)
        requires
            old(self).well_formed(),
        ensures
            final(self).well_formed(),
            final(self)@.sorted,
            ascending(final(self)@.items),
            final(self)@.items.to_multiset() == old(self)@.items.to_multiset(),
            final(self)@.items.len() == old(self)@.items.len(),
            old(self)@.sorted ==> final(self)@.items == old(self)@.items,
            final(self)@ == (CompactorModel { items: final(self)@.items, sorted: true, ..old(self)@ }),
    {
        if !self.sorted {
            sort_keys(&mut self.items);
            self.sorted = true;
        }
        proof {
            broadcast use vstd::seq_lib::group_to_multiset_ensures;

            assert(self@.items.len() == self@.items.to_multiset().len());
            assert(old(self)@.items.len() == old(self)@.items.to_multiset().len());
        }
    }

    /// Adds an item to this compactor. A buffer of a single item is trivially
    /// sorted, so the `sorted` flag is only cleared once there are at least two.
    pub fn append(&mut self, item: u64)
        requires
            old(self).well_formed(),
        ensures
            final(self).well_formed(),
            final(self)@ == (CompactorModel {
                items: old(self)@.items.push(item),
                sorted: if old(self)@.items.len() + 1 > 1 { false } else { old(self)@.sorted },
                ..old(self)@
            }),
    {
        self.items.push(item);
        if self.items.len() > 1 {
            self.sorted = false;
        }
    }

    /// Doubles the number of sections and moves to the next scheduled section
    /// size when at least `2^(num_sections - 1)` compactions have happened and
    /// that size is still at least `MIN_K`; returns whether it did.
    pub fn ensure_enough_sections(&mut self) -> (grew: bool)
        requires
            old(self).well_formed(),
            growth_checkable(old(self)@),
        ensures
            final(self).well_formed(),
            grew == grows(old(self)@),
            final(self)@ == after_growth_check(old(self)@),
            old(self)@.section_size % 2 == 0 ==> final(self)@.section_size % 2 == 0,
            grew == (old(self)@.state >= vstd::arithmetic::power2::pow2(
                (old(self)@.num_sections - 1) as nat,
            ) && old(self)@.schedule[old(self)@.shrinks as int] >= MIN_K),
            grew ==> final(self)@.num_sections == 2 * old(self)@.num_sections
                && final(self)@.section_size == old(self)@.schedule[old(self)@.shrinks as int],
            !grew ==> final(self)@ == old(self)@,
    {
        proof {
            lemma_growth_threshold(self@);
        }
        let shift: u8 = self.num_sections - 1;
        proof {
            vstd::bits::lemma_u64_pow2_no_overflow(shift as nat);
            vstd::bits::lemma_u64_shl_is_mul(1u64, shift as u64);
        }
        let threshold: u64 = 1u64 << (shift as u64);
        let schedule_len: usize = self.section_size_schedule.len();
        let next_size: u32 = self.section_size_schedule[self.shrinks];
        if self.state >= threshold && next_size >= MIN_K as u32 {
            let ns: u8 = self.num_sections;
            assert(ns <= 64 ==> ns << 1u8 == 2 * ns) by (bit_vector);
            self.section_size = next_size;
            self.num_sections = ns << 1u8;
            assert(self.shrinks < schedule_len);
            self.shrinks = self.shrinks + 1;
            return true;
        }
        false
    }

    /// Computes the weight of an item: the number of retained items at most
    /// `item` (inclusive) or below it (exclusive), shifted left by `lg_weight`.
    /// Sorts the items first.
    pub fn compute_weight(&mut self, item: u64, inclusive: bool) -> (w: u64)
        requires
            old(self).well_formed(),
            old(self)@.lg_weight < 64,
        ensures
            final(self).well_formed(),
            final(self)@.sorted,
            ascending(final(self)@.items),
            final(self)@.items.to_multiset() == old(self)@.items.to_multiset(),
            final(self)@.items.len() == old(self)@.items.len(),
            old(self)@.sorted ==> final(self)@.items == old(self)@.items,
            final(self)@ == (CompactorModel { items: final(self)@.items, sorted: true, ..old(self)@ }),
            w == (count_below(final(self)@.items, item, inclusive) as u64) << (old(self)@.lg_weight as u64),
            count_below(final(self)@.items, item, inclusive) == count_below(
                old(self)@.items,
                item,
                inclusive,
            ),
            inclusive ==> count_below(final(self)@.items, item, inclusive) == old(
                self,
            )@.items.filter(|x: u64| x <= item).len(),
            !inclusive ==> count_below(final(self)@.items, item, inclusive) == old(
                self,
            )@.items.filter(|x: u64| x < item).len(),
            forall|i: int|
                0 <= i < count_below(final(self)@.items, item, inclusive) ==> if inclusive {
                    #[trigger] final(self)@.items[i] <= item
                } else {
                    final(self)@.items[i] < item
                },
            forall|i: int|
                count_below(final(self)@.items, item, inclusive) <= i < final(self)@.items.len()
                    ==> if inclusive {
                    #[trigger] final(self)@.items[i] > item
                } else {
                    final(self)@.items[i] >= item
                },
            count_below(final(self)@.items, item, inclusive) * vstd::arithmetic::power2::pow2(
                old(self)@.lg_weight as nat,
            ) <= u64::MAX ==> w == count_below(final(self)@.items, item, inclusive)
                * vstd::arithmetic::power2::pow2(old(self)@.lg_weight as nat),
    {
        self.sort();
        let len: usize = self.items.len();
        let mut lo: usize = 0;
        let mut hi: usize = len;
        while lo < hi
            invariant
                len == self.items@.len(),
                ascending(self.items@),
                0 <= lo <= hi <= len,
                forall|k: int| 0 <= k < lo ==> below(#[trigger] self.items@[k], item, inclusive),
                forall|k: int| hi <= k < len ==> !below(#[trigger] self.items@[k], item, inclusive),
            decreases hi - lo,
        {
            let mid: usize = lo + (hi - lo) / 2;
            let x: u64 = self.items[mid];
            let is_below: bool = if inclusive {
                x <= item
            } else {
                x < item
            };
            if is_below {
                assert forall|k: int| 0 <= k <= mid implies below(#[trigger] self.items@[k], item, inclusive) by {
                    assert(self.items@[k] <= self.items@[mid as int]);
                }
                lo = mid + 1;
            } else {
                assert forall|k: int| mid <= k < len implies !below(#[trigger] self.items@[k], item, inclusive) by {
                    assert(self.items@[mid as int] <= self.items@[k]);
                }
                hi = mid;
            }
        }
        proof {
            lemma_count_below_boundary(self.items@, item, inclusive, lo as int);
            lemma_count_below_permutation(self.items@, old(self)@.items, item, inclusive);
            lemma_count_below_counts(old(self)@.items, item);
            lemma_count_below_prefix(self.items@, item, inclusive);
        }
        let count: u64 = lo as u64;
        let shift: u64 = self.lg_weight as u64;
        proof {
            if count * vstd::arithmetic::power2::pow2(shift as nat) <= u64::MAX {
                vstd::bits::lemma_u64_shl_is_mul(count, shift);
            }
        }
        count << shift
    }

    /// Computes the range `[low, high)` of items that compacting
    /// `secs_to_compact` sections consumes.
    pub fn compute_compaction_range(&self, secs_to_compact: u32) -> (r: (u32, u32))
        requires
            range_defined(self@, secs_to_compact),
        ensures
            r == compaction_range(self@, secs_to_compact),
            r.0 <= r.1 <= self@.items.len() as u32,
            (r.1 - r.0) % 2 == 0,
            self@.hra ==> r.0 == 0,
            !self@.hra ==> r.1 == self@.items.len() as u32,
            ({
                let n = self@.items.len() as u32 as int;
                let b = self@.num_sections * self@.section_size + (self@.num_sections
                    - secs_to_compact) * self@.section_size;
                let nc = b + (n - b) % 2;
                &&& self@.hra ==> r == (0u32, (n - nc) as u32)
                &&& !self@.hra ==> r == (nc as u32, n as u32)
            }),
    {
        proof {
            lemma_compaction_range_keeps(self@, secs_to_compact);
        }
        let cap: u32 = self.nom_capacity();
        let kept_sections: u32 = self.num_sections as u32 - secs_to_compact;
        proof {
            let ns = self.num_sections as int;
            let ss = self.section_size as int;
            assert(kept_sections * ss <= ns * ss) by (nonlinear_arith)
                requires
                    kept_sections <= ns,
                    0 <= ss,
            ;
            assert(cap == 2 * (ns * ss)) by (nonlinear_arith)
                requires
                    cap == 2 * ns * ss,
            ;
        }
        let mut non_compact: u32 = cap / 2 + kept_sections * self.section_size;
        let n: u32 = self.num_items();
        if (n - non_compact) % 2 == 1 {
            non_compact = non_compact + 1;
        }
        if self.hra {
            (0, n - non_compact)
        } else {
            (non_compact, n)
        }
    }

    /// Compacts this compactor into `next`: removes the range that
    /// `compute_compaction_range` gives for the sections the state calls for,
    /// promotes every other removed item (starting at the first or second by the
    /// coin) into `next` by a sorted merge, counts the compaction and checks the
    /// sections for growth. The coin flips when the state is odd and is drawn
    /// from the generator `rng` when it is even. Returns half the number of
    /// removed items and how much the nominal capacity grew.
    pub fn compact(&mut self, next: &mut Self, rng: &mut u64) -> (r: (u32, u32))
        requires
            old(self).well_formed(),
            old(next).well_formed(),
            ascending(old(self)@.items),
            ascending(old(next)@.items),
            compactable(old(self)@),
        ensures
            final(self).well_formed(),
            final(next).well_formed(),
            final(self)@ == after_compaction(old(self)@, *old(rng)),
            *final(rng) == next_rng(old(self)@, *old(rng)),
            final(next)@ == (CompactorModel {
                items: merge_spec(
                    old(next)@.items,
                    promoted_items(old(self)@, next_coin(old(self)@, *old(rng))),
                ),
                sorted: true,
                ..old(next)@
            }),
            r.0 == (next_compaction_range(old(self)@).1 - next_compaction_range(old(self)@).0) / 2,
            r.1 == nom_capacity_of(final(self)@) - nom_capacity_of(old(self)@),
            final(self)@.items.len() + (next_compaction_range(old(self)@).1 - next_compaction_range(
                old(self)@,
            ).0) == old(self)@.items.len(),
            final(next)@.items.len() == old(next)@.items.len() + r.0,
            old(self)@.section_size % 2 == 0 ==> final(self)@.section_size % 2 == 0,
            old(self)@.state % 2 == 1 ==> final(self)@.coin == !old(self)@.coin && *final(rng)
                == *old(rng),
            old(self)@.state % 2 == 0 ==> final(self)@.coin == (*final(rng)
                >= 0x8000_0000_0000_0000u64),
            final(self)@.state == old(self)@.state + 1,
            old(next)@.lg_weight == old(self)@.lg_weight + 1 ==> total_weight(final(self)@)
                + total_weight(final(next)@) == total_weight(old(self)@) + total_weight(old(next)@),
    {
        let ghost m = self@;
        let ghost x = next@;
        let ghost rng0 = *rng;
        proof {
            lemma_compaction_coin(m, rng0);
        }
        let starting_nom_capacity: u32 = self.nom_capacity();
        let tz: u32 = (!self.state).trailing_zeros();
        proof {
            vstd::std_specs::bits::axiom_u64_trailing_zeros(!self.state);
        }
        let t: u32 = tz + 1;
        let secs: u32 = if t <= self.num_sections as u32 {
            t
        } else {
            self.num_sections as u32
        };
        let (low, high) = self.compute_compaction_range(secs);
        if self.state % 2 == 1 {
            self.coin = !self.coin;
        } else {
            self.coin = random_bit(rng);
        }
        let ghost coin = self.coin;
        let removed: Vec<u64> = cut_range(&mut self.items, low as usize, high as usize);
        let num: u32 = (high - low) / 2;
        let start: u32 = if self.coin {
            1
        } else {
            0
        };
        let promoted: Vec<u64> = take_every_other(&removed, start);
        assert(secs == secs_to_compact(m));
        assert((low, high) == next_compaction_range(m));
        assert(coin == next_coin(m, rng0));
        assert(promoted@ == promoted_items(m, coin));
        let mut old_next: Vec<u64> = Vec::new();
        std::mem::swap(&mut old_next, &mut next.items);
        next.items = merge_sorted(old_next, promoted);
        next.sorted = true;
        self.state = self.state + 1;
        proof {
            lemma_cut_ascending(m.items, low as int, high as int);
            assert(self.items@ =~= m.items.subrange(0, low as int) + m.items.subrange(
                high as int,
                m.items.len() as int,
            ));
        }
        self.ensure_enough_sections();
        let end_nom_capacity: u32 = self.nom_capacity();
        proof {
            let w = m.lg_weight as nat;
            let p = vstd::arithmetic::power2::pow2(w);
            vstd::arithmetic::power2::lemma_pow2_unfold(w + 1);
            let big_l = (high - low) as int;
            let a = m.items.len() as int;
            let b = x.items.len() as int;
            if x.lg_weight == m.lg_weight + 1 {
                assert((a - big_l) * p + (b + big_l / 2) * (2 * p) == a * p + b * (2 * p))
                    by (nonlinear_arith)
                    requires
                        big_l % 2 == 0,
                        0 <= big_l,
                ;
            }
        }
        (num, end_nom_capacity - starting_nom_capacity)
    }

    /// Merges `other`, a compactor of the same weight, into this one: the
    /// states are or-ed together, the sections grow until
    /// `ensure_enough_sections` returns false, and the items become the sorted
    /// merge of both compactors' items.
    pub fn merge(&mut self, other: &Self)
        requires
            old(self).well_formed(),
            other.well_formed(),
            old(self)@.lg_weight == other@.lg_weight,
            settled(CompactorModel { state: old(self)@.state | other@.state, ..old(self)@ }) is Some,
        ensures
            final(self).well_formed(),
            final(self)@ == (CompactorModel {
                items: final(self)@.items,
                sorted: true,
                ..settled(CompactorModel { state: old(self)@.state | other@.state, ..old(self)@ })->0
            }),
            ascending(final(self)@.items),
            final(self)@.items.to_multiset() == old(self)@.items.to_multiset().add(
                other@.items.to_multiset(),
            ),
            total_weight(final(self)@) == total_weight(old(self)@) + total_weight(other@),
            growth_checkable(final(self)@),
            !grows(final(self)@),
            old(self)@.section_size % 2 == 0 ==> final(self)@.section_size % 2 == 0,
    {
        let ghost m = self@;
        self.state = self.state | other.state;
        let ghost target = settled(self@)->0;
        proof {
            lemma_settled_keeps(self@);
            lemma_settled_is_stable(self@);
        }
        loop
            invariant
                self.well_formed(),
                settled(self@) == Some(target),
            ensures
                self@ == target,
            decreases self.section_size_schedule.len() - self.shrinks,
        {
            if !self.ensure_enough_sections() {
                break;
            }
        }
        self.sort();
        let mut incoming: Vec<u64> = other.items.clone();
        assert(incoming@ =~= other.items@);
        if !other.sorted {
            sort_keys(&mut incoming);
        }
        let mut own: Vec<u64> = Vec::new();
        std::mem::swap(&mut own, &mut self.items);
        let ghost own_s = own@;
        let ghost incoming_s = incoming@;
        self.items = merge_sorted(own, incoming);
        self.sorted = true;
        proof {
            broadcast use vstd::seq_lib::group_to_multiset_ensures;

            let p = vstd::arithmetic::power2::pow2(m.lg_weight as nat);
            let a = m.items.len() as int;
            let b = other@.items.len() as int;
            assert(own_s.len() == own_s.to_multiset().len());
            assert(m.items.len() == m.items.to_multiset().len());
            assert(incoming_s.len() == incoming_s.to_multiset().len());
            assert(other@.items.len() == other@.items.to_multiset().len());
            assert(self@.items.len() == a + b);
            assert((a + b) * p == a * p + b * p) by (nonlinear_arith);
        }
    }

    /// Whether `compact(next, ..)` is defined here: the items of both
    /// compactors ascend, and every arithmetic step and check of the
    /// compaction succeeds (see `compactable`).
    pub fn can_compact(&self, next: &Self) -> (b: bool)
        requires
            self.well_formed(),
        ensures
            b == (compactable(self@) && ascending(self@.items) && ascending(next@.items)),
    {
        let ns: u8 = self.num_sections;
        if ns < 1 || ns > 64 {
            return false;
        }
        let ss: u32 = self.section_size;
        assert(2 * ns * ss <= 128 * 0xffff_ffff) by (nonlinear_arith)
            requires
                ns <= 64,
                ss <= 0xffff_ffff,
        ;
        let cap64: u64 = 2 * (ns as u64) * (ss as u64);
        if cap64 > 0xffff_ffff {
            return false;
        }
        let cap: u32 = self.nom_capacity();
        let tz: u32 = (!self.state).trailing_zeros();
        proof {
            vstd::std_specs::bits::axiom_u64_trailing_zeros(!self.state);
        }
        let t: u32 = tz + 1;
        let secs: u32 = if t <= ns as u32 {
            t
        } else {
            ns as u32
        };
        let kept: u32 = ns as u32 - secs;
        proof {
            assert(kept * ss <= ns * ss) by (nonlinear_arith)
                requires
                    kept <= ns,
            ;
            assert(cap == 2 * (ns * ss)) by (nonlinear_arith)
                requires
                    cap == 2 * ns * ss,
            ;
        }
        let base: u32 = cap / 2 + kept * ss;
        let n: u32 = self.num_items();
        if base > n {
            return false;
        }
        let (lo, hi) = self.compute_compaction_range(secs);
        if hi - lo < 2 {
            return false;
        }
        if self.state == u64::MAX {
            return false;
        }
        let next_state: u64 = self.state + 1;
        let shift: u8 = ns - 1;
        proof {
            vstd::bits::lemma_u64_pow2_no_overflow(shift as nat);
            vstd::bits::lemma_u64_shl_is_mul(1u64, shift as u64);
        }
        let threshold: u64 = 1u64 << (shift as u64);
        let next_size: u32 = self.section_size_schedule[self.shrinks];
        let grows_after: bool = next_state >= threshold && next_size >= MIN_K as u32;
        let ns2: u64 = if grows_after {
            2 * (ns as u64)
        } else {
            ns as u64
        };
        let ss2: u64 = if grows_after {
            next_size as u64
        } else {
            ss as u64
        };
        assert(2 * ns2 * ss2 <= 256 * 0xffff_ffff) by (nonlinear_arith)
            requires
                ns2 <= 128,
                ss2 <= 0xffff_ffff,
        ;
        let cap2: u64 = 2 * ns2 * ss2;
        proof {
            let after = after_compaction(self@, 0);
            assert(after.num_sections == ns2);
            assert(after.section_size == ss2);
            assert(nom_capacity_of(after) == cap2);
        }
        if cap2 > 0xffff_ffff || cap2 < cap64 {
            return false;
        }
        is_ascending(&self.items) && is_ascending(&next.items)
    }
}

} // verus!
