//! Interpolation of authoritative snapshots for remotely controlled entities.
//!
//! A [`SnapshotBuffer`] keeps a bounded, strictly tick-ordered history of
//! received `(tick, value)` snapshots.  Every frame the engine derives a
//! target tick slightly in the past, looks up the two snapshots bracketing
//! it, and blends them at the parametric position of the target between
//! their ticks.

use vstd::prelude::*;

verus! {

/// A parametric blend position in `[0, 1]`, kept exactly as the rational
/// `num / den`.
#[derive(Clone, Copy, PartialEq, Eq, Structural, Debug)]
pub struct BlendFactor {
    /// Numerator; at most `den`.
    pub num: u64,
    /// Denominator; at least 1.
    pub den: u64,
}

impl BlendFactor {
    /// A factor denotes a position in `[0, 1]`: `0 <= num/den <= 1`.
    pub open spec fn valid(self) -> bool {
        1 <= self.den && self.num <= self.den
    }

    /// The factor `num / den`, clamped from above into `[0, 1]`.
    pub fn clamped(num: u64, den: u64) -> (r: Self)
        requires
            1 <= den,
        ensures
            r.valid(),
            r.den == den,
            r.num == if num <= den { num } else { den },
    {
        if num <= den {
            BlendFactor { num, den }
        } else {
            BlendFactor { num: den, den }
        }
    }
}

/// The blend capability: a linear interpolation between two values of the
/// type at a rational factor in `[0, 1]`.  Record types blend each field
/// independently through that field's own capability.
pub trait Interpolate: Sized + Copy {
    /// Whether the pair is within the range the blend arithmetic admits.
    spec fn blendable(self, other: Self) -> bool;

    /// The blended value at factor `num / den`.
    spec fn blend_spec(self, other: Self, num: int, den: int) -> Self;

    /// Blending at factor 0 returns `self`; blending at factor 1 returns
    /// `other`.
    proof fn lemma_blend_boundary(self, other: Self, den: int)
        requires
            self.blendable(other),
            1 <= den,
        ensures
            self.blend_spec(other, 0, den) == self,
            self.blend_spec(other, den, den) == other,
    ;

    /// Whether the pair is within the range the blend arithmetic admits.
    fn check_blendable(&self, other: &Self) -> (r: bool)
        ensures
            r == self.blendable(*other),
    ;

    /// The blended value at the given factor.
    fn interpolate(&self, other: &Self, t: &BlendFactor) -> (r: Self)
        requires
            self.blendable(*other),
            t.valid(),
        ensures
            r == self.blend_spec(*other, t.num as int, t.den as int),
    ;
}

/// Largest magnitude a scalar sample may have and still be blendable.
pub const SCALAR_LIMIT: i64 = 0x4000_0000_0000_0000;

/// A scalar sample: one replicated quantity on an integer scale.
#[derive(Clone, Copy, PartialEq, Eq, Structural, Debug)]
pub struct ScalarValue(pub i64);

impl Interpolate for ScalarValue {
    open spec fn blendable(self, other: Self) -> bool {
        &&& -SCALAR_LIMIT <= self.0 <= SCALAR_LIMIT
        &&& -SCALAR_LIMIT <= other.0 <= SCALAR_LIMIT
    }

    open spec fn blend_spec(self, other: Self, num: int, den: int) -> Self {
        if other.0 >= self.0 {
            ScalarValue((self.0 + (other.0 - self.0) * num / den) as i64)
        } else {
            ScalarValue((self.0 - (self.0 - other.0) * num / den) as i64)
        }
    }

    proof fn lemma_blend_boundary(self, other: Self, den: int) {
        let d = if other.0 >= self.0 {
            other.0 - self.0
        } else {
            self.0 - other.0
        };
        vstd::arithmetic::div_mod::lemma_div_multiples_vanish(d, den);
        assert(d * 0 == 0) by (nonlinear_arith);
        vstd::arithmetic::div_mod::lemma_div_of0(den);
    }

    fn check_blendable(&self, other: &Self) -> (r: bool) {
        -SCALAR_LIMIT <= self.0 && self.0 <= SCALAR_LIMIT && -SCALAR_LIMIT <= other.0
            && other.0 <= SCALAR_LIMIT
    }

    fn interpolate(&self, other: &Self, t: &BlendFactor) -> (r: Self) {
        let a: i128 = self.0 as i128;
        let b: i128 = other.0 as i128;
        let diff: u128 = if b >= a {
            (b - a) as u128
        } else {
            (a - b) as u128
        };
        proof {
            assert(diff * (t.num as u128) <= 0x10000000000000000 * 0xffffffffffffffff)
                by (nonlinear_arith)
                requires
                    diff <= 0x10000000000000000,
                    t.num <= 0xffffffffffffffff,
            ;
        }
        let scaled: u128 = diff * (t.num as u128);
        let q: u128 = scaled / (t.den as u128);
        proof {
            lemma_scaled_fraction_bound(diff as int, t.num as int, t.den as int);
        }
        let r: i128 = if b >= a {
            a + (q as i128)
        } else {
            a - (q as i128)
        };
        ScalarValue(r as i64)
    }
}

/// For `0 <= num <= den`, the scaled fraction `d * num / den` stays within
/// `[0, d]`.
proof fn lemma_scaled_fraction_bound(d: int, num: int, den: int)
    requires
        0 <= d,
        0 <= num <= den,
        1 <= den,
    ensures
        0 <= d * num / den <= d,
{
    vstd::arithmetic::mul::lemma_mul_nonnegative(d, num);
    vstd::arithmetic::div_mod::lemma_div_pos_is_pos(d * num, den);
    vstd::arithmetic::mul::lemma_mul_inequality(num, den, d);
    assert(d * num == num * d) by (nonlinear_arith);
    assert(d * den == den * d) by (nonlinear_arith);
    vstd::arithmetic::div_mod::lemma_div_is_ordered(d * num, d * den, den);
    vstd::arithmetic::div_mod::lemma_div_multiples_vanish(d, den);
}

/// A two-component record sample; each field blends through its own
/// capability, as a generated field-wise blend implementation would.
#[derive(Clone, Copy, PartialEq, Eq, Structural, Debug)]
pub struct Position2 {
    /// First blended field.
    pub x: ScalarValue,
    /// Second blended field.
    pub y: ScalarValue,
}

impl Interpolate for Position2 {
    open spec fn blendable(self, other: Self) -> bool {
        self.x.blendable(other.x) && self.y.blendable(other.y)
    }

    open spec fn blend_spec(self, other: Self, num: int, den: int) -> Self {
        Position2 {
            x: self.x.blend_spec(other.x, num, den),
            y: self.y.blend_spec(other.y, num, den),
        }
    }

    proof fn lemma_blend_boundary(self, other: Self, den: int) {
        self.x.lemma_blend_boundary(other.x, den);
        self.y.lemma_blend_boundary(other.y, den);
    }

    fn check_blendable(&self, other: &Self) -> (r: bool) {
        self.x.check_blendable(&other.x) && self.y.check_blendable(&other.y)
    }

    fn interpolate(&self, other: &Self, t: &BlendFactor) -> (r: Self) {
        Position2 { x: self.x.interpolate(&other.x, t), y: self.y.interpolate(&other.y, t) }
    }
}

/// Process-wide interpolation configuration, read-only after construction.
pub struct SnapshotInterpolationConfig {
    /// Upper bound on authoritative updates per second.
    pub max_tick_rate: u16,
}

/// The render lag, in milliseconds, that absorbs `multiplier` tick periods of
/// network jitter at the configured tick rate.
pub fn interpolation_delay_millis(config: &SnapshotInterpolationConfig, multiplier: u32) -> (r: u64)
    requires
        1 <= config.max_tick_rate,
    ensures
        r == multiplier * 1000 / (config.max_tick_rate as int),
{
    (multiplier as u64) * 1000 / (config.max_tick_rate as u64)
}

/// The tick rendered now: `latest` received tick held back by `delay_ticks`,
/// saturating at 0.
pub fn target_tick(latest: u64, delay_ticks: u64) -> (r: u64)
    ensures
        r == target_tick_spec(latest, delay_ticks),
{
    if latest >= delay_ticks {
        latest - delay_ticks
    } else {
        0
    }
}

/// The target tick: `latest - delay_ticks`, saturating at 0.
pub open spec fn target_tick_spec(latest: u64, delay_ticks: u64) -> u64 {
    if latest >= delay_ticks {
        (latest - delay_ticks) as u64
    } else {
        0
    }
}

/// A single authoritative observation of a component: a `(tick, value)` pair.
#[derive(Clone, Copy, PartialEq, Eq, Debug)]
pub struct SnapshotEntry<V> {
    /// Authoritative tick the observation was made at.
    pub tick: u64,
    /// The observed component value.
    pub value: V,
}

/// Entries are strictly increasing in tick.
pub open spec fn ticks_sorted<V>(s: Seq<SnapshotEntry<V>>) -> bool {
    forall|i: int, j: int|
        0 <= i < j < s.len() ==> #[trigger] s[i].tick < #[trigger] s[j].tick
}

/// The position where an entry with the given tick belongs in a tick-sorted
/// sequence: the first index whose tick is not below it.
pub open spec fn insert_pos<V>(s: Seq<SnapshotEntry<V>>, tick: u64) -> int
    decreases s.len(),
{
    if s.len() == 0 {
        0
    } else if s.last().tick < tick {
        s.len() as int
    } else {
        insert_pos(s.drop_last(), tick)
    }
}

/// A tick-sorted sequence after receiving one entry: an entry with the same
/// tick is overwritten, otherwise the entry enters at its sorted position.
pub open spec fn insert_sorted<V>(s: Seq<SnapshotEntry<V>>, e: SnapshotEntry<V>) -> Seq<
    SnapshotEntry<V>,
> {
    let p = insert_pos(s, e.tick);
    if p < s.len() && s[p].tick == e.tick {
        s.update(p, e)
    } else {
        s.insert(p, e)
    }
}

/// A sequence trimmed to its newest `cap` entries.
pub open spec fn bounded_to<V>(s: Seq<SnapshotEntry<V>>, cap: nat) -> Seq<SnapshotEntry<V>> {
    if s.len() > cap {
        s.subrange(s.len() - cap, s.len() as int)
    } else {
        s
    }
}

/// A bounded tick-sorted sequence after receiving one entry: sorted insert or
/// overwrite, then eviction of the oldest entries beyond the capacity.
pub open spec fn insert_model<V>(
    s: Seq<SnapshotEntry<V>>,
    e: SnapshotEntry<V>,
    cap: nat,
) -> Seq<SnapshotEntry<V>> {
    bounded_to(insert_sorted(s, e), cap)
}

/// In a tick-sorted sequence, `insert_pos` splits the entries into those
/// strictly below the tick and those at or above it.
pub proof fn lemma_insert_pos_props<V>(s: Seq<SnapshotEntry<V>>, tick: u64)
    requires
        ticks_sorted(s),
    ensures
        0 <= insert_pos(s, tick) <= s.len(),
        forall|k: int| 0 <= k < insert_pos(s, tick) ==> #[trigger] s[k].tick < tick,
        forall|k: int| insert_pos(s, tick) <= k < s.len() ==> #[trigger] s[k].tick >= tick,
    decreases s.len(),
{
    if s.len() == 0 {
    } else if s.last().tick < tick {
        assert forall|k: int| 0 <= k < s.len() implies #[trigger] s[k].tick < tick by {
            if k < s.len() - 1 {
                assert(s[k].tick < s[s.len() - 1].tick);
            }
        }
    } else {
        let d = s.drop_last();
        assert(ticks_sorted(d)) by {
            assert forall|i: int, j: int| 0 <= i < j < d.len() implies #[trigger] d[i].tick
                < #[trigger] d[j].tick by {
                assert(s[i].tick < s[j].tick);
            }
        }
        lemma_insert_pos_props(d, tick);
        let p = insert_pos(s, tick);
        assert(p == insert_pos(d, tick));
        assert forall|k: int| 0 <= k < p implies #[trigger] s[k].tick < tick by {
            assert(d[k].tick < tick);
        }
        assert forall|k: int| p <= k < s.len() implies #[trigger] s[k].tick >= tick by {
            if k < s.len() - 1 {
                assert(d[k].tick >= tick);
            }
        }
    }
}

/// `insert_pos` is the one position with everything below the tick before it
/// and nothing below the tick after it.
pub proof fn lemma_insert_pos_unique<V>(s: Seq<SnapshotEntry<V>>, tick: u64, p: int)
    requires
        ticks_sorted(s),
        0 <= p <= s.len(),
        forall|k: int| 0 <= k < p ==> #[trigger] s[k].tick < tick,
        forall|k: int| p <= k < s.len() ==> #[trigger] s[k].tick >= tick,
    ensures
        insert_pos(s, tick) == p,
{
    lemma_insert_pos_props(s, tick);
    let q = insert_pos(s, tick);
    if q < p {
        assert(s[q].tick < tick);
        assert(s[q].tick >= tick);
    } else if p < q {
        assert(s[p].tick < tick);
        assert(s[p].tick >= tick);
    }
}

/// Sorted insertion or overwrite keeps the entries strictly tick-sorted.
pub proof fn lemma_insert_sorted_sorted<V>(s: Seq<SnapshotEntry<V>>, e: SnapshotEntry<V>)
    requires
        ticks_sorted(s),
    ensures
        ticks_sorted(insert_sorted(s, e)),
{
    lemma_insert_pos_props(s, e.tick);
    let p = insert_pos(s, e.tick);
    let t = insert_sorted(s, e);
    if p < s.len() && s[p].tick == e.tick {
        assert forall|i: int, j: int| 0 <= i < j < t.len() implies #[trigger] t[i].tick
            < #[trigger] t[j].tick by {
            if i == p {
                assert(t[i].tick == s[p].tick && t[j] == s[j]);
                assert(s[p].tick < s[j].tick);
            } else if j == p {
                assert(t[i] == s[i] && t[j].tick == e.tick);
                assert(s[i].tick < e.tick);
            } else {
                assert(t[i] == s[i] && t[j] == s[j]);
                assert(s[i].tick < s[j].tick);
            }
        }
    } else {
        // Here either `p == s.len()` or `s[p].tick > e.tick`, so every entry
        // at or after the insertion point has a tick strictly above `e.tick`.
        assert forall|k: int| p <= k < s.len() implies #[trigger] s[k].tick > e.tick by {
            assert(s[p].tick >= e.tick);
            if p < k {
                assert(s[p].tick < s[k].tick);
            }
        }
        s.insert_ensures(p, e);
        assert forall|i: int, j: int| 0 <= i < j < t.len() implies #[trigger] t[i].tick
            < #[trigger] t[j].tick by {
            if j < p {
                assert(t[i] == s[i] && t[j] == s[j]);
                assert(s[i].tick < s[j].tick);
            } else if j == p {
                assert(t[i] == s[i] && t[j] == e);
                assert(s[i].tick < e.tick);
            } else {
                assert(t[j] == s[j - 1]);
                if i < p {
                    assert(t[i] == s[i]);
                    if i < j - 1 {
                        assert(s[i].tick < s[j - 1].tick);
                    }
                } else if i == p {
                    assert(t[i] == e);
                    assert(s[j - 1].tick > e.tick);
                } else {
                    assert(t[i] == s[i - 1]);
                    assert(s[i - 1].tick < s[j - 1].tick);
                }
            }
        }
    }
}

/// A bounded, strictly tick-ordered history of authoritative snapshots for
/// one (entity, component) slot.
pub struct SnapshotBuffer<V> {
    entries: Vec<SnapshotEntry<V>>,
    capacity: usize,
}

impl<V> View for SnapshotBuffer<V> {
    type V = Seq<SnapshotEntry<V>>;

    closed spec fn view(&self) -> Seq<SnapshotEntry<V>> {
        self.entries@
    }
}

impl<V> SnapshotBuffer<V> {
    /// The bound on how many snapshots are retained.
    pub closed spec fn cap(self) -> nat {
        self.capacity as nat
    }

    /// The buffer holds at most `cap` entries, strictly increasing in tick.
    pub open spec fn wf(self) -> bool {
        &&& 1 <= self.cap()
        &&& self@.len() <= self.cap()
        &&& ticks_sorted(self@)
    }

    /// An empty buffer retaining at most `capacity` snapshots.
    pub fn new(capacity: usize) -> (r: Self)
        requires
            1 <= capacity,
        ensures
            r.wf(),
            r@ == Seq::<SnapshotEntry<V>>::empty(),
            r.cap() == capacity,
    {
        SnapshotBuffer { entries: Vec::new(), capacity }
    }

    /// How many snapshots are currently held.
    pub fn len(&self) -> (r: usize)
        ensures
            r == self@.len(),
    {
        self.entries.len()
    }

    /// The bound on how many snapshots are retained.
    pub fn capacity(&self) -> (r: usize)
        ensures
            r == self.cap(),
    {
        self.capacity
    }

    /// Receives one authoritative snapshot.  An entry with the same tick is
    /// overwritten (the latest write for a tick wins); otherwise the entry
    /// enters at its tick-sorted position, and if the buffer would exceed its
    /// capacity the oldest entry is evicted.
    pub fn insert(&mut self, tick: u64, value: V)
        requires
            old(self).wf(),
        ensures
            final(self).wf(),
            final(self).cap() == old(self).cap(),
            final(self)@ == insert_model(
                old(self)@,
                (SnapshotEntry { tick, value }),
                old(self).cap(),
            ),
    {
        let ghost s0 = self.entries@;
        let ghost e0 = SnapshotEntry { tick, value };
        proof {
            lemma_insert_pos_props(s0, tick);
        }
        let mut i: usize = self.entries.len();
        while i > 0 && self.entries[i - 1].tick > tick
            invariant
                i <= self.entries.len(),
                self.entries@ == s0,
                forall|k: int| i <= k < s0.len() ==> #[trigger] s0[k].tick > tick,
            decreases i,
        {
            i = i - 1;
        }
        let ghost p = insert_pos(s0, tick);
        if i > 0 && self.entries[i - 1].tick == tick {
            proof {
                assert forall|k: int| 0 <= k < i - 1 implies #[trigger] s0[k].tick < tick by {
                    assert(s0[k].tick < s0[i - 1].tick);
                }
                lemma_insert_pos_unique(s0, tick, i - 1);
                assert(insert_sorted(s0, e0) == s0.update(i - 1, e0));
            }
            let e = SnapshotEntry { tick, value };
            self.entries[i - 1] = e;
            proof {
                assert(self.entries@ == insert_sorted(s0, e0));
                assert(bounded_to(insert_sorted(s0, e0), self.capacity as nat) == self.entries@);
                lemma_insert_sorted_sorted(s0, e0);
            }
        } else {
            proof {
                assert forall|k: int| 0 <= k < i implies #[trigger] s0[k].tick < tick by {
                    if k < i - 1 {
                        assert(s0[k].tick < s0[i - 1].tick);
                    }
                }
                assert forall|k: int| i <= k < s0.len() implies #[trigger] s0[k].tick >= tick by {
                    assert(s0[k].tick > tick);
                }
                lemma_insert_pos_unique(s0, tick, i as int);
                if (i as int) < s0.len() {
                    assert(s0[i as int].tick > tick);
                }
                assert(insert_sorted(s0, e0) == s0.insert(i as int, e0));
                lemma_insert_sorted_sorted(s0, e0);
            }
            let e = SnapshotEntry { tick, value };
            self.entries.insert(i, e);
            if self.entries.len() > self.capacity {
                self.entries.remove(0);
                proof {
                    let t = insert_sorted(s0, e0);
                    assert(t.len() == self.capacity + 1);
                    assert(self.entries@ =~= t.subrange(1, t.len() as int));
                    assert(bounded_to(t, self.capacity as nat) == self.entries@);
                    assert forall|a: int, b: int|
                        0 <= a < b < self.entries@.len() implies #[trigger] self.entries@[a].tick
                        < #[trigger] self.entries@[b].tick by {
                        assert(t[a + 1].tick < t[b + 1].tick);
                    }
                }
            } else {
                proof {
                    assert(bounded_to(insert_sorted(s0, e0), self.capacity as nat)
                        == self.entries@);
                }
            }
        }
    }
}

/// The index of the older entry of the bracketing pair: the largest `i` up
/// to `len - 2` whose tick is at or below the target.
pub open spec fn bracket_index<V>(s: Seq<SnapshotEntry<V>>, target: u64) -> int
    decreases s.len(),
{
    if s.len() <= 2 {
        0
    } else if s[s.len() - 2].tick <= target {
        s.len() - 2
    } else {
        bracket_index(s.drop_last(), target)
    }
}

/// Bracketing correctness, existence: in a tick-sorted history whose covered
/// range holds the target, the entry at `bracket_index` and its successor
/// are an adjacent pair whose ticks surround the target.
pub proof fn lemma_bracket_index_props<V>(s: Seq<SnapshotEntry<V>>, target: u64)
    requires
        ticks_sorted(s),
        2 <= s.len(),
        s[0].tick <= target,
    ensures
        0 <= bracket_index(s, target) <= s.len() - 2,
        s[bracket_index(s, target)].tick <= target,
        bracket_index(s, target) < s.len() - 2 ==> target < s[bracket_index(s, target) + 1].tick,
        target <= s.last().tick ==> target <= s[bracket_index(s, target) + 1].tick,
    decreases s.len(),
{
    if s.len() == 2 {
    } else if s[s.len() - 2].tick <= target {
    } else {
        let d = s.drop_last();
        assert(ticks_sorted(d)) by {
            assert forall|i: int, j: int| 0 <= i < j < d.len() implies #[trigger] d[i].tick
                < #[trigger] d[j].tick by {
                assert(s[i].tick < s[j].tick);
            }
        }
        lemma_bracket_index_props(d, target);
        let b = bracket_index(s, target);
        assert(b == bracket_index(d, target));
        if b == s.len() - 3 {
            assert(s[b + 1].tick > target);
        }
    }
}

/// Bracketing correctness, uniqueness: two adjacent pairs can only both
/// surround the target when they are the same pair, or when the target sits
/// exactly on the tick the two pairs share.
pub proof fn lemma_bracket_pair_unique<V>(s: Seq<SnapshotEntry<V>>, target: u64, i: int, j: int)
    requires
        ticks_sorted(s),
        0 <= i && i + 1 < s.len(),
        0 <= j && j + 1 < s.len(),
        i <= j,
        s[i].tick <= target <= s[i + 1].tick,
        s[j].tick <= target <= s[j + 1].tick,
    ensures
        i == j || (j == i + 1 && s[j].tick == target),
{
    if i < j {
        if i + 1 < j {
            assert(s[i + 1].tick < s[j].tick);
        }
        assert(s[i + 1].tick == target && s[j].tick == target);
    }
}

/// `bracket_index` is the largest index whose tick is at or below the
/// target.
proof fn lemma_bracket_index_unique<V>(s: Seq<SnapshotEntry<V>>, target: u64, i: int)
    requires
        ticks_sorted(s),
        2 <= s.len(),
        s[0].tick <= target,
        0 <= i <= s.len() - 2,
        s[i].tick <= target,
        i < s.len() - 2 ==> target < s[i + 1].tick,
    ensures
        bracket_index(s, target) == i,
{
    lemma_bracket_index_props(s, target);
    let b = bracket_index(s, target);
    if b < i {
        assert(s[b + 1].tick <= s[i].tick);
        assert(target < s[b + 1].tick);
    } else if i < b {
        assert(s[i + 1].tick <= s[b].tick);
        assert(target < s[i + 1].tick);
    }
}

impl<V: Copy> SnapshotBuffer<V> {
    /// The oldest retained snapshot, if any.
    pub fn oldest(&self) -> (r: Option<SnapshotEntry<V>>)
        ensures
            match r {
                Some(e) => self@.len() > 0 && e == self@[0],
                None => self@.len() == 0,
            },
    {
        if self.entries.len() == 0 {
            None
        } else {
            Some(self.entries[0])
        }
    }

    /// The newest retained snapshot, if any.
    pub fn newest(&self) -> (r: Option<SnapshotEntry<V>>)
        ensures
            match r {
                Some(e) => self@.len() > 0 && e == self@.last(),
                None => self@.len() == 0,
            },
    {
        if self.entries.len() == 0 {
            None
        } else {
            Some(self.entries[self.entries.len() - 1])
        }
    }

    /// The adjacent pair of snapshots whose ticks surround the target:
    /// `older.tick <= target <= newer.tick`.  `None` when fewer than two
    /// snapshots are held or the target falls outside the covered range.
    pub fn bracket(&self, target: u64) -> (r: Option<(SnapshotEntry<V>, SnapshotEntry<V>)>)
        requires
            self.wf(),
        ensures
            match r {
                Some(pair) => {
                    &&& 2 <= self@.len()
                    &&& self@[0].tick <= target <= self@.last().tick
                    &&& pair.0 == self@[bracket_index(self@, target)]
                    &&& pair.1 == self@[bracket_index(self@, target) + 1]
                    &&& pair.0.tick <= target <= pair.1.tick
                },
                None => self@.len() < 2 || target < self@[0].tick || self@.last().tick < target,
            },
    {
        let n = self.entries.len();
        if n < 2 {
            return None;
        }
        if target < self.entries[0].tick {
            return None;
        }
        if self.entries[n - 1].tick < target {
            return None;
        }
        let mut i: usize = n - 2;
        while self.entries[i].tick > target
            invariant
                self.wf(),
                n == self@.len(),
                2 <= n,
                i <= n - 2,
                self@[0].tick <= target <= self@.last().tick,
                forall|k: int| i < k <= n - 2 ==> target < #[trigger] self@[k].tick,
            decreases i,
        {
            proof {
                assert(0 < i) by {
                    if i == 0 {
                        assert(self@[0].tick > target);
                    }
                }
            }
            i = i - 1;
        }
        proof {
            if i < n - 2 {
                assert(target < self@[i as int + 1].tick);
            }
            lemma_bracket_index_unique(self@, target, i as int);
            if i == n - 2 {
                assert(self@[i as int + 1] == self@.last());
            }
        }
        Some((self.entries[i], self.entries[i + 1]))
    }
}

/// Idempotent overwrite: receiving `(tick, x)` and then `(tick, y)` leaves
/// the history exactly as receiving `(tick, y)` alone would, and the second
/// receipt never changes the number of held entries.
#[verifier::rlimit(50)]
pub proof fn lemma_insert_overwrite<V>(s: Seq<SnapshotEntry<V>>, cap: nat, tick: u64, x: V, y: V)
    requires
        ticks_sorted(s),
        s.len() <= cap,
        1 <= cap,
    ensures
        insert_model(
            insert_model(s, (SnapshotEntry { tick, value: x }), cap),
            (SnapshotEntry { tick, value: y }),
            cap,
        ) == insert_model(s, (SnapshotEntry { tick, value: y }), cap),
        insert_model(
            insert_model(s, (SnapshotEntry { tick, value: x }), cap),
            (SnapshotEntry { tick, value: y }),
            cap,
        ).len() == insert_model(s, (SnapshotEntry { tick, value: x }), cap).len(),
{
    let ex = SnapshotEntry { tick, value: x };
    let ey = SnapshotEntry { tick, value: y };
    let p = insert_pos(s, tick);
    lemma_insert_pos_props(s, tick);
    lemma_insert_sorted_sorted(s, ex);
    if p < s.len() && s[p].tick == tick {
        let t1 = s.update(p, ex);
        assert(insert_sorted(s, ex) == t1);
        let m1 = insert_model(s, ex, cap);
        assert(m1 == t1);
        lemma_insert_pos_unique(t1, tick, p);
        assert(insert_sorted(t1, ey) == t1.update(p, ey));
        assert(t1.update(p, ey) =~= s.update(p, ey));
        assert(insert_model(m1, ey, cap) == s.update(p, ey));
        assert(insert_model(s, ey, cap) == s.update(p, ey));
    } else {
        let t1 = s.insert(p, ex);
        assert(insert_sorted(s, ex) == t1);
        s.insert_ensures(p, ex);
        s.insert_ensures(p, ey);
        if s.len() < cap {
            let m1 = insert_model(s, ex, cap);
            assert(m1 == t1);
            lemma_insert_pos_unique(t1, tick, p);
            assert(insert_sorted(t1, ey) == t1.update(p, ey));
            assert(t1.update(p, ey) =~= s.insert(p, ey));
            assert(insert_model(m1, ey, cap) == s.insert(p, ey));
            assert(insert_model(s, ey, cap) == s.insert(p, ey));
        } else {
            let m1 = insert_model(s, ex, cap);
            assert(t1.len() == cap + 1);
            assert(m1 == t1.subrange(1, t1.len() as int));
            assert(m1.len() == cap);
            assert(ticks_sorted(m1)) by {
                assert forall|a: int, b: int| 0 <= a < b < m1.len() implies #[trigger] m1[a].tick
                    < #[trigger] m1[b].tick by {
                    assert(t1[a + 1].tick < t1[b + 1].tick);
                }
            }
            if p == 0 {
                assert(m1 =~= s);
                assert(insert_model(m1, ey, cap) == insert_model(s, ey, cap));
            } else {
                // m1 carries s shifted left by one with `ex` at p - 1.
                assert(m1[p - 1] == ex);
                lemma_insert_pos_unique(m1, tick, p - 1);
                assert(insert_sorted(m1, ey) == m1.update(p - 1, ey));
                assert(insert_model(m1, ey, cap) == m1.update(p - 1, ey));
                let mr = s.insert(p, ey).subrange(1, s.len() + 1 as int);
                assert(insert_model(s, ey, cap) == mr);
                assert(m1.update(p - 1, ey) =~= mr) by {
                    assert forall|k: int| 0 <= k < cap implies m1.update(p - 1, ey)[k] == mr[k] by {
                        assert(mr[k] == s.insert(p, ey)[k + 1]);
                        if k == p - 1 {
                        } else {
                            assert(m1[k] == t1[k + 1]);
                        }
                    }
                }
            }
        }
    }
}

/// Capacity eviction: a snapshot newer than everything held, received by a
/// full buffer, pushes out the oldest entry, and no retained entry carries
/// the evicted tick any longer.
pub proof fn lemma_capacity_eviction<V>(s: Seq<SnapshotEntry<V>>, cap: nat, e: SnapshotEntry<V>)
    requires
        ticks_sorted(s),
        s.len() == cap,
        1 <= cap,
        forall|k: int| 0 <= k < s.len() ==> #[trigger] s[k].tick < e.tick,
    ensures
        insert_model(s, e, cap) == s.drop_first().push(e),
        forall|k: int|
            0 <= k < insert_model(s, e, cap).len() ==> #[trigger] insert_model(s, e, cap)[k].tick
                != s[0].tick,
{
    lemma_insert_pos_unique(s, e.tick, s.len() as int);
    let t = insert_sorted(s, e);
    assert(t == s.insert(s.len() as int, e));
    s.insert_ensures(s.len() as int, e);
    let m = insert_model(s, e, cap);
    assert(m == t.subrange(1, t.len() as int));
    assert(m =~= s.drop_first().push(e)) by {
        assert forall|k: int| 0 <= k < cap implies m[k] == s.drop_first().push(e)[k] by {
            assert(m[k] == t[k + 1]);
        }
    }
    assert forall|k: int| 0 <= k < m.len() implies #[trigger] m[k].tick != s[0].tick by {
        assert(m[k] == t[k + 1]);
        if k + 1 < s.len() {
            assert(s[0].tick < s[k + 1].tick);
        } else {
            assert(s[0].tick < e.tick);
        }
    }
}

/// Every pair of held values is within the range the blend arithmetic
/// admits.
pub open spec fn pairwise_blendable<V: Interpolate>(s: Seq<SnapshotEntry<V>>) -> bool {
    forall|i: int, j: int|
        0 <= i < s.len() && 0 <= j < s.len() ==> #[trigger] s[i].value.blendable(s[j].value)
}

/// What the engine displays for a history `s` at a target tick: the blend of
/// the bracketing pair at the target's parametric position between their
/// ticks, the nearest held value when the target falls outside the covered
/// range, and `fallback` when nothing is held.
pub open spec fn interpolation_result<V: Interpolate>(
    s: Seq<SnapshotEntry<V>>,
    target: u64,
    fallback: V,
) -> V {
    if s.len() == 0 {
        fallback
    } else if target <= s[0].tick {
        s[0].value
    } else if s.last().tick <= target {
        s.last().value
    } else {
        let i = bracket_index(s, target);
        s[i].value.blend_spec(
            s[i + 1].value,
            target - s[i].tick,
            s[i + 1].tick - s[i].tick,
        )
    }
}

/// The state of one interpolated entity: its buffer is not yet allocated,
/// holds too little history to blend, or is ready for interpolation.
#[derive(Clone, Copy, PartialEq, Eq, Structural, Debug)]
pub enum InterpolationState {
    /// No buffer has been allocated for the entity yet.
    Uninitialized,
    /// The buffer holds fewer than two snapshots; the entity holds still.
    Buffering,
    /// The buffer holds at least two snapshots; blending is possible.
    Interpolating,
}

/// Classifies an entity's interpolation progress from its (possibly still
/// unallocated) buffer.
pub fn interpolation_state<V>(buffer: &Option<SnapshotBuffer<V>>) -> (s: InterpolationState)
    ensures
        s == (match buffer {
            Option::None => InterpolationState::Uninitialized,
            Option::Some(b) => if b@.len() >= 2 {
                InterpolationState::Interpolating
            } else {
                InterpolationState::Buffering
            },
        }),
{
    match buffer {
        Option::None => InterpolationState::Uninitialized,
        Option::Some(b) => {
            if b.len() >= 2 {
                InterpolationState::Interpolating
            } else {
                InterpolationState::Buffering
            }
        },
    }
}

impl<V: Interpolate> SnapshotBuffer<V> {
    /// The value displayed for a remote entity at the given target tick.
    ///
    /// With a bracketing pair available the value is the blend of the pair at
    /// the target's position between their ticks.  With one snapshot held, or
    /// a target outside the covered range, the nearest held value is returned
    /// unchanged — the engine never extrapolates.  With nothing held the
    /// caller's `fallback` is returned.
    pub fn interpolated_value(&self, target: u64, fallback: V) -> (r: V)
        requires
            self.wf(),
            pairwise_blendable(self@),
        ensures
            r == interpolation_result(self@, target, fallback),
            self@.len() == 1 ==> r == self@[0].value,
    {
        let n = self.entries.len();
        if n == 0 {
            return fallback;
        }
        let first = self.entries[0];
        if target <= first.tick {
            return first.value;
        }
        let newest = self.entries[n - 1];
        if newest.tick <= target {
            return newest.value;
        }
        match self.bracket(target) {
            Option::Some(pair) => {
                proof {
                    lemma_bracket_index_props(self@, target);
                    let b = bracket_index(self@, target);
                    assert(self@[b].tick < self@[b + 1].tick);
                }
                let num = target - pair.0.tick;
                let den = pair.1.tick - pair.0.tick;
                let t = BlendFactor { num, den };
                pair.0.value.interpolate(&pair.1.value, &t)
            },
            Option::None => {
                proof {
                    assert(false);
                }
                fallback
            },
        }
    }

    /// The value displayed for a remote entity this frame: the target tick
    /// is the newest received tick held back by `delay_ticks`, and the
    /// buffer is read at that target.
    pub fn render_value(&self, delay_ticks: u64, fallback: V) -> (r: V)
        requires
            self.wf(),
            pairwise_blendable(self@),
        ensures
            self@.len() == 0 ==> r == fallback,
            self@.len() > 0 ==> r == interpolation_result(
                self@,
                target_tick_spec(self@.last().tick, delay_ticks),
                fallback,
            ),
    {
        match self.newest() {
            Option::None => fallback,
            Option::Some(e) => {
                let t = target_tick(e.tick, delay_ticks);
                self.interpolated_value(t, fallback)
            },
        }
    }
}

} // verus!
