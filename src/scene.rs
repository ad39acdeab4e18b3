//! The scene broad-phase: which meshes a ray is tested against, in what order, and which hits
//! are returned.
//!
//! Distances enter as order keys (see [`distance_key`]): integers that compare as the distances
//! do, so that every decision here is made on plain integers.
use vstd::prelude::*;

verus! {

/// The key of `+∞`, the distance of a ray that has hit nothing yet.
pub const INFINITY_KEY: u32 = 0xFF80_0000;

/// The order key of a 32-bit float given by its bits.
///
/// Keys compare as the floats do, with every NaN below all numbers and equal to any other NaN,
/// and with `-0.0` equal to `0.0`.
pub open spec fn spec_distance_key(bits: u32) -> u32 {
    if bits & 0x7FFF_FFFFu32 > 0x7F80_0000u32 {
        0
    } else if bits == 0x8000_0000u32 {
        0x8000_0000u32
    } else if bits & 0x8000_0000u32 != 0 {
        !bits
    } else {
        bits | 0x8000_0000u32
    }
}

/// The order key of a 32-bit float given by its bits (`f32::to_bits`).
pub fn distance_key(bits: u32) -> (r: u32)
    ensures
        r == spec_distance_key(bits),
        r <= INFINITY_KEY,
{
    let r = if bits & 0x7FFF_FFFFu32 > 0x7F80_0000u32 {
        0
    } else if bits == 0x8000_0000u32 {
        0x8000_0000u32
    } else if bits & 0x8000_0000u32 != 0 {
        !bits
    } else {
        bits | 0x8000_0000u32
    };
    assert(spec_distance_key(bits) <= 0xFF80_0000u32) by (bit_vector);
    r
}

/// Whether the bits of a 32-bit float are a NaN.
pub open spec fn is_nan_bits(bits: u32) -> bool {
    bits & 0x7FFF_FFFFu32 > 0x7F80_0000u32
}

/// The value of a sign-magnitude number: the magnitude in the low 31 bits, negated when the
/// sign bit is set. For the bits of a float that is not NaN this orders as the float does.
pub open spec fn sign_magnitude(bits: u32) -> int {
    if bits & 0x8000_0000u32 != 0 {
        -((bits & 0x7FFF_FFFFu32) as int)
    } else {
        (bits & 0x7FFF_FFFFu32) as int
    }
}

proof fn lemma_distance_key_value(bits: u32)
    requires
        !is_nan_bits(bits),
    ensures
        spec_distance_key(bits) as int == (if sign_magnitude(bits) < 0 {
            0x7FFF_FFFF + sign_magnitude(bits)
        } else {
            0x8000_0000 + sign_magnitude(bits)
        }),
{
    let m = bits & 0x7FFF_FFFFu32;
    if bits & 0x8000_0000u32 == 0 {
        assert(bits & 0x8000_0000u32 == 0 ==> (bits | 0x8000_0000u32) == bits + 0x8000_0000u32
            && bits & 0x7FFF_FFFFu32 == bits) by (bit_vector);
    } else if bits == 0x8000_0000u32 {
        assert(0x8000_0000u32 & 0x7FFF_FFFFu32 == 0) by (bit_vector);
    } else {
        assert(bits & 0x8000_0000u32 != 0 && bits != 0x8000_0000u32 ==> !bits == 0xFFFF_FFFFu32 - bits
            && bits == 0x8000_0000u32 + (bits & 0x7FFF_FFFFu32) && bits & 0x7FFF_FFFFu32 > 0)
            by (bit_vector);
    }
}

/// Keys order floats as their values do: for bits that are not NaN, one key is at most another
/// exactly when its sign-magnitude value is; every NaN has the least key, below all numbers.
pub proof fn lemma_distance_key_order(a: u32, b: u32)
    ensures
        !is_nan_bits(a) && !is_nan_bits(b) ==> (spec_distance_key(a) <= spec_distance_key(b)
            <==> sign_magnitude(a) <= sign_magnitude(b)),
        is_nan_bits(a) ==> spec_distance_key(a) == 0,
        !is_nan_bits(a) ==> spec_distance_key(a) > 0,
{
    if !is_nan_bits(a) {
        lemma_distance_key_value(a);
        assert(a & 0x7FFF_FFFFu32 <= 0x7F80_0000u32);
    }
    if !is_nan_bits(b) {
        lemma_distance_key_value(b);
    }
}

/// How a raycast should handle visibility.
#[derive(Clone, Copy, Debug, PartialEq, Eq, Structural)]
pub enum RaycastVisibility {
    /// Completely ignore visibility checks. Hidden items can still be raycasted against.
    Ignore,
    /// Only raycast against entities that are visible in the hierarchy.
    MustBeVisible,
    /// Only raycast against entities that are visible in the hierarchy and visible to a camera or
    /// light.
    MustBeVisibleAndInView,
}

impl RaycastVisibility {
    /// Whether an entity with the given visibility is raycast against under this mode.
    pub open spec fn spec_admits(self, visible_in_hierarchy: bool, visible_in_view: bool) -> bool {
        match self {
            RaycastVisibility::Ignore => true,
            RaycastVisibility::MustBeVisible => visible_in_hierarchy,
            RaycastVisibility::MustBeVisibleAndInView => visible_in_view,
        }
    }

    /// Whether an entity with the given visibility is raycast against under this mode.
    pub fn admits(&self, visible_in_hierarchy: bool, visible_in_view: bool) -> (r: bool)
        ensures
            r == self.spec_admits(visible_in_hierarchy, visible_in_view),
    {
        match self {
            RaycastVisibility::Ignore => true,
            RaycastVisibility::MustBeVisible => visible_in_hierarchy,
            RaycastVisibility::MustBeVisibleAndInView => visible_in_view,
        }
    }
}

/// An entity at the distance with key `distance` along the ray: where the ray enters its
/// bounding box, or where it hits its mesh.
#[derive(Clone, Copy, Debug, PartialEq, Eq, Structural)]
pub struct Hit {
    pub distance: u32,
    pub entity: u64,
}

/// `s` is ordered by hit distance.
pub open spec fn hits_sorted(s: Seq<Hit>) -> bool {
    forall|i: int, j: int| 0 <= i < j < s.len() ==> s[i].distance <= s[j].distance
}

/// Inserts `h` into `s` after every leading hit that is not farther than it.
pub open spec fn insert_hit(s: Seq<Hit>, h: Hit) -> Seq<Hit>
    decreases s.len(),
{
    if s.len() == 0 {
        seq![h]
    } else if h.distance < s[0].distance {
        seq![h] + s
    } else {
        seq![s[0]] + insert_hit(s.drop_first(), h)
    }
}

/// `s` sorted by distance; hits at equal distances keep their order.
pub open spec fn sort_hits(s: Seq<Hit>) -> Seq<Hit>
    decreases s.len(),
{
    if s.len() == 0 {
        s
    } else {
        insert_hit(sort_hits(s.drop_last()), s.last())
    }
}

/// Inserting at the first position whose element is farther than `h`.
proof fn lemma_insert_hit_at(s: Seq<Hit>, h: Hit, p: int)
    requires
        0 <= p <= s.len(),
        forall|j: int| 0 <= j < p ==> !(h.distance < #[trigger] s[j].distance),
        p == s.len() || h.distance < s[p].distance,
    ensures
        insert_hit(s, h) == s.take(p).push(h) + s.skip(p),
    decreases p,
{
    if s.len() == 0 {
        assert(s.take(p).push(h) + s.skip(p) =~= seq![h]);
    } else if p == 0 {
        assert(s.take(0).push(h) + s.skip(0) =~= seq![h] + s);
    } else {
        let t = s.drop_first();
        assert forall|j: int| 0 <= j < p - 1 implies !(h.distance < #[trigger] t[j].distance) by {
            assert(t[j] == s[j + 1]);
        }
        lemma_insert_hit_at(t, h, p - 1);
        assert(seq![s[0]] + (t.take(p - 1).push(h) + t.skip(p - 1)) =~= s.take(p).push(h) + s.skip(
            p,
        ));
    }
}

/// Inserting into a sorted list keeps it sorted and adds exactly the one hit.
pub proof fn lemma_insert_hit_sorted(s: Seq<Hit>, h: Hit)
    requires
        hits_sorted(s),
    ensures
        hits_sorted(insert_hit(s, h)),
        insert_hit(s, h).to_multiset() == s.to_multiset().insert(h),
    decreases s.len(),
{
    if s.len() == 0 {
        assert(s.insert(0, h) =~= seq![h]);
        vstd::seq_lib::to_multiset_insert(s, 0, h);
    } else if h.distance < s[0].distance {
        let r = seq![h] + s;
        assert(r =~= s.insert(0, h));
        vstd::seq_lib::to_multiset_insert(s, 0, h);
    } else {
        let t = s.drop_first();
        lemma_insert_hit_sorted(t, h);
        let it = insert_hit(t, h);
        let r = seq![s[0]] + it;
        assert(hits_sorted(r)) by {
            assert forall|i: int, j: int| 0 <= i < j < r.len() implies r[i].distance
                <= r[j].distance by {
                if i == 0 {
                    // r[j] is an element of t or h, all of which are at least s[0].distance
                    let x = r[j];
                    assert(it.to_multiset().count(x) > 0) by {
                        assert(it.contains(x)) by {
                            assert(it[j - 1] == x);
                        }
                        vstd::seq_lib::to_multiset_contains(it, x);
                    }
                    assert(t.to_multiset().insert(h).count(x) > 0);
                    if x != h {
                        assert(t.to_multiset().count(x) > 0);
                        vstd::seq_lib::to_multiset_contains(t, x);
                        let k = choose|k: int| 0 <= k < t.len() && t[k] == x;
                        assert(s[k + 1] == x);
                    }
                }
            }
        }
        assert(r.to_multiset() =~= s.to_multiset().insert(h)) by {
            assert(r =~= it.insert(0, s[0]));
            vstd::seq_lib::to_multiset_insert(it, 0, s[0]);
            assert(s =~= t.insert(0, s[0]));
            vstd::seq_lib::to_multiset_insert(t, 0, s[0]);
        }
    }
}

/// Sorting by distance yields a list that is ordered by distance and holds exactly the same
/// hits.
pub proof fn lemma_sort_hits(s: Seq<Hit>)
    ensures
        hits_sorted(sort_hits(s)),
        sort_hits(s).to_multiset() == s.to_multiset(),
    decreases s.len(),
{
    if s.len() > 0 {
        lemma_sort_hits(s.drop_last());
        lemma_insert_hit_sorted(sort_hits(s.drop_last()), s.last());
        assert(s =~= s.drop_last().push(s.last()));
        vstd::seq_lib::to_multiset_insert(
            s.drop_last(),
            s.drop_last().len() as int,
            s.last(),
        );
        assert(s.drop_last().insert(s.drop_last().len() as int, s.last()) =~= s);
    }
}

/// The hits of `s` at the distance with key `d`, in order.
pub open spec fn at_distance(s: Seq<Hit>, d: u32) -> Seq<Hit>
    decreases s.len(),
{
    if s.len() == 0 {
        s
    } else if s[0].distance == d {
        seq![s[0]] + at_distance(s.drop_first(), d)
    } else {
        at_distance(s.drop_first(), d)
    }
}

proof fn lemma_at_distance_push(s: Seq<Hit>, x: Hit, d: u32)
    ensures
        at_distance(s.push(x), d) == (if x.distance == d {
            at_distance(s, d).push(x)
        } else {
            at_distance(s, d)
        }),
    decreases s.len(),
{
    if s.len() == 0 {
        assert(s.push(x).drop_first() =~= s);
        assert(seq![x] + s =~= s.push(x));
    } else {
        lemma_at_distance_push(s.drop_first(), x, d);
        assert(s.push(x).drop_first() =~= s.drop_first().push(x));
        if x.distance == d && s[0].distance == d {
            assert(seq![s[0]] + at_distance(s.drop_first(), d).push(x) =~= (seq![s[0]]
                + at_distance(s.drop_first(), d)).push(x));
        }
    }
}

proof fn lemma_at_distance_below(s: Seq<Hit>, d: u32)
    requires
        hits_sorted(s),
        s.len() > 0,
        d < s[0].distance,
    ensures
        at_distance(s, d) == Seq::<Hit>::empty(),
    decreases s.len(),
{
    let t = s.drop_first();
    if t.len() > 0 {
        assert(t[0] == s[1]);
        lemma_at_distance_below(t, d);
    } else {
        assert(at_distance(t, d) =~= Seq::<Hit>::empty());
    }
}

proof fn lemma_insert_at_distance(s: Seq<Hit>, h: Hit, d: u32)
    requires
        hits_sorted(s),
    ensures
        at_distance(insert_hit(s, h), d) == (if h.distance == d {
            at_distance(s, d).push(h)
        } else {
            at_distance(s, d)
        }),
    decreases s.len(),
{
    if s.len() == 0 {
        assert(seq![h].drop_first() =~= s);
        assert(seq![h] + s =~= s.push(h));
    } else if h.distance < s[0].distance {
        let r = seq![h] + s;
        assert(r.drop_first() =~= s);
        if h.distance == d {
            lemma_at_distance_below(s, d);
            assert(seq![h] + at_distance(s, d) =~= at_distance(s, d).push(h));
        }
    } else {
        let t = s.drop_first();
        lemma_insert_at_distance(t, h, d);
        let r = seq![s[0]] + insert_hit(t, h);
        assert(r.drop_first() =~= insert_hit(t, h));
        if h.distance == d && s[0].distance == d {
            assert(seq![s[0]] + at_distance(t, d).push(h) =~= (seq![s[0]] + at_distance(t, d)).push(
                h,
            ));
        }
    }
}

/// Sorting keeps hits at equal distances in their order: at every distance, the sorted list
/// holds the same hits in the same order as the input.
pub proof fn lemma_sort_hits_stable(s: Seq<Hit>, d: u32)
    ensures
        at_distance(sort_hits(s), d) == at_distance(s, d),
    decreases s.len(),
{
    if s.len() > 0 {
        let p = s.drop_last();
        lemma_sort_hits_stable(p, d);
        lemma_sort_hits(p);
        lemma_insert_at_distance(sort_hits(p), s.last(), d);
        lemma_at_distance_push(p, s.last(), d);
        assert(p.push(s.last()) =~= s);
    }
}

/// Sorts hits by distance, nearest first; hits at equal distances keep their order.
pub fn sort_by_distance(hits: &Vec<Hit>) -> (r: Vec<Hit>)
    ensures
        r@ == sort_hits(hits@),
        hits_sorted(r@),
        r@.to_multiset() == hits@.to_multiset(),
{
    let mut out: Vec<Hit> = Vec::new();
    let mut i: usize = 0;
    while i < hits.len()
        invariant
            i <= hits.len(),
            out@ == sort_hits(hits@.take(i as int)),
            out.len() == i,
        decreases hits.len() - i,
    {
        let h = hits[i];
        let mut p: usize = 0;
        while p < out.len() && !(h.distance < out[p].distance)
            invariant
                p <= out.len(),
                forall|j: int| 0 <= j < p ==> !(h.distance < #[trigger] out@[j].distance),
            decreases out.len() - p,
        {
            p = p + 1;
        }
        proof {
            lemma_insert_hit_at(out@, h, p as int);
            assert(hits@.take(i + 1).drop_last() =~= hits@.take(i as int));
        }
        out.insert(p, h);
        proof {
            assert(out@ =~= insert_hit(sort_hits(hits@.take(i as int)), h));
            assert(out@.len() == i + 1);
        }
        i = i + 1;
    }
    proof {
        assert(hits@.take(hits.len() as int) =~= hits@);
        lemma_sort_hits(hits@);
    }
    out
}

/// One entity of the broad-phase, in the order of [`cull`], with what testing it gives.
#[derive(Clone, Copy, Debug, PartialEq, Eq, Structural)]
pub struct Candidate {
    /// Key of the distance at which the ray enters the entity's bounding box.
    pub entry: u32,
    pub entity: u64,
    /// Whether the caller's filter accepts the entity.
    pub selected: bool,
    /// Key of the distance of the nearest hit on the entity's mesh, if there is one.
    pub hit: Option<u32>,
    /// Whether a hit on this entity blocks the ray (the caller's early-exit test).
    pub blocks: bool,
}

/// The broad-phase after one more candidate: the nearest blocking distance so far and the hits
/// recorded so far.
pub open spec fn scan_step(best: u32, hits: Seq<Hit>, c: Candidate) -> (u32, Seq<Hit>) {
    if c.selected && c.entry <= best && c.hit.is_some() {
        let d = c.hit.unwrap();
        (
            if c.blocks && d < best {
                d
            } else {
                best
            },
            hits.push(Hit { distance: d, entity: c.entity }),
        )
    } else {
        (best, hits)
    }
}

/// The broad-phase after all of `cs`, taken in order.
pub open spec fn scan(cs: Seq<Candidate>) -> (u32, Seq<Hit>)
    decreases cs.len(),
{
    if cs.len() == 0 {
        (INFINITY_KEY, Seq::empty())
    } else {
        let prev = scan(cs.drop_last());
        scan_step(prev.0, prev.1, cs.last())
    }
}

/// The hits of `s` that are not farther than `best`, in order.
pub open spec fn within(s: Seq<Hit>, best: u32) -> Seq<Hit>
    decreases s.len(),
{
    if s.len() == 0 {
        s
    } else if s.last().distance <= best {
        within(s.drop_last(), best).push(s.last())
    } else {
        within(s.drop_last(), best)
    }
}

/// What the broad-phase returns for `cs`: the hits that are not behind the nearest blocking hit,
/// nearest first.
pub open spec fn resolve(cs: Seq<Candidate>) -> Seq<Hit> {
    sort_hits(within(scan(cs).1, scan(cs).0))
}

/// The state of one broad-phase query, advanced one candidate at a time.
#[derive(Debug)]
pub struct BroadPhase {
    /// Key of the distance of the nearest hit that blocks the ray; `INFINITY_KEY` at first.
    pub nearest_blocking_hit: u32,
    /// The hits recorded so far, in the order they were found.
    pub hits: Vec<Hit>,
}

impl BroadPhase {
    pub fn new() -> (r: Self)
        ensures
            r.nearest_blocking_hit == INFINITY_KEY,
            r.hits@ == Seq::<Hit>::empty(),
    {
        BroadPhase { nearest_blocking_hit: INFINITY_KEY, hits: Vec::new() }
    }

    /// Whether an entity whose box the ray enters at `entry` could still hold a hit that is not
    /// behind the nearest blocking hit.
    pub fn should_test(&self, entry: u32) -> (r: bool)
        ensures
            r == (entry <= self.nearest_blocking_hit),
    {
        entry <= self.nearest_blocking_hit
    }

    /// Records a hit; one that blocks the ray and is nearer than the nearest blocking hit becomes
    /// the new one.
    pub fn record_hit(&mut self, hit: Hit, blocks: bool)
        ensures
            final(self).nearest_blocking_hit == (if blocks && hit.distance
                < old(self).nearest_blocking_hit {
                hit.distance
            } else {
                old(self).nearest_blocking_hit
            }),
            final(self).hits@ == old(self).hits@.push(hit),
    {
        if blocks && hit.distance < self.nearest_blocking_hit {
            self.nearest_blocking_hit = hit.distance;
        }
        self.hits.push(hit);
    }

    /// Takes one candidate whose outcome is known.
    pub fn consider(&mut self, c: &Candidate)
        ensures
            (final(self).nearest_blocking_hit, final(self).hits@) == scan_step(
                old(self).nearest_blocking_hit,
                old(self).hits@,
                *c,
            ),
    {
        if c.selected && self.should_test(c.entry) {
            match c.hit {
                Some(d) => self.record_hit(Hit { distance: d, entity: c.entity }, c.blocks),
                None => {},
            }
        }
    }

    /// The hits that are not behind the nearest blocking hit, nearest first; hits at equal
    /// distances keep the order in which they were found.
    pub fn finish(&self) -> (r: Vec<Hit>)
        ensures
            r@ == sort_hits(within(self.hits@, self.nearest_blocking_hit)),
            hits_sorted(r@),
    {
        let best = self.nearest_blocking_hit;
        let mut kept: Vec<Hit> = Vec::new();
        let mut i: usize = 0;
        while i < self.hits.len()
            invariant
                i <= self.hits.len(),
                best == self.nearest_blocking_hit,
                kept@ == within(self.hits@.take(i as int), best),
            decreases self.hits.len() - i,
        {
            proof {
                assert(self.hits@.take(i + 1).drop_last() =~= self.hits@.take(i as int));
            }
            if self.hits[i].distance <= best {
                kept.push(self.hits[i]);
            }
            i = i + 1;
        }
        proof {
            assert(self.hits@.take(self.hits.len() as int) =~= self.hits@);
        }
        sort_by_distance(&kept)
    }
}

/// Runs the broad-phase over candidates in entry order whose outcomes are known: the hits that
/// are not behind the nearest blocking hit, nearest first.
pub fn resolve_hits(candidates: &Vec<Candidate>) -> (r: Vec<Hit>)
    ensures
        r@ == resolve(candidates@),
        hits_sorted(r@),
{
    let mut state = BroadPhase::new();
    let mut i: usize = 0;
    while i < candidates.len()
        invariant
            i <= candidates.len(),
            (state.nearest_blocking_hit, state.hits@) == scan(candidates@.take(i as int)),
        decreases candidates.len() - i,
    {
        proof {
            assert(candidates@.take(i + 1).drop_last() =~= candidates@.take(i as int));
        }
        state.consider(&candidates[i]);
        i = i + 1;
    }
    proof {
        assert(candidates@.take(candidates.len() as int) =~= candidates@);
    }
    state.finish()
}

/// The hits of a scene query come nearest first.
pub proof fn lemma_resolve_sorted(cs: Seq<Candidate>)
    ensures
        hits_sorted(resolve(cs)),
{
    lemma_sort_hits(within(scan(cs).1, scan(cs).0));
}

/// A scene query keeps hits at equal distances in the order in which they were found, which is
/// the order of the candidates.
pub proof fn lemma_resolve_ties_keep_order(cs: Seq<Candidate>, d: u32)
    ensures
        at_distance(resolve(cs), d) == at_distance(within(scan(cs).1, scan(cs).0), d),
{
    lemma_sort_hits_stable(within(scan(cs).1, scan(cs).0), d);
}

/// A scene query is deterministic: the same candidates give the same hits in the same order.
pub proof fn lemma_resolve_deterministic(a: Seq<Candidate>, b: Seq<Candidate>)
    requires
        a == b,
    ensures
        resolve(a) == resolve(b),
{
}

/// The hits of every selected candidate that has one, in order.
pub open spec fn all_hits(cs: Seq<Candidate>) -> Seq<Hit>
    decreases cs.len(),
{
    if cs.len() == 0 {
        Seq::empty()
    } else if cs.last().selected && cs.last().hit.is_some() {
        all_hits(cs.drop_last()).push(Hit { distance: cs.last().hit.unwrap(), entity: cs.last().entity })
    } else {
        all_hits(cs.drop_last())
    }
}

proof fn lemma_scan_from_all_hits(cs: Seq<Candidate>)
    ensures
        forall|k: int| 0 <= k < scan(cs).1.len() ==> all_hits(cs).contains(#[trigger] scan(cs).1[k]),
    decreases cs.len(),
{
    if cs.len() > 0 {
        let p = cs.drop_last();
        lemma_scan_from_all_hits(p);
        let c = cs.last();
        let prev = scan(p);
        let cur = scan(cs);
        assert forall|k: int| 0 <= k < cur.1.len() implies all_hits(cs).contains(
            #[trigger] cur.1[k],
        ) by {
            if k < prev.1.len() {
                assert(cur.1[k] == prev.1[k]);
                let j = choose|j: int| 0 <= j < all_hits(p).len() && all_hits(p)[j] == prev.1[k];
                if c.selected && c.hit.is_some() {
                    assert(all_hits(cs)[j] == all_hits(p)[j]);
                }
            } else {
                assert(all_hits(cs)[all_hits(cs).len() - 1] == cur.1[k]);
            }
        }
    }
}

proof fn lemma_within_from(s: Seq<Hit>, best: u32)
    ensures
        forall|k: int| 0 <= k < within(s, best).len() ==> s.contains(#[trigger] within(s, best)[k]),
    decreases s.len(),
{
    if s.len() > 0 {
        let p = s.drop_last();
        lemma_within_from(p, best);
        assert forall|k: int| 0 <= k < within(s, best).len() implies s.contains(
            #[trigger] within(s, best)[k],
        ) by {
            if k < within(p, best).len() {
                assert(within(s, best)[k] == within(p, best)[k]);
                let j = choose|j: int| 0 <= j < p.len() && p[j] == within(p, best)[k];
                assert(s[j] == p[j]);
            } else {
                assert(s[s.len() - 1] == within(s, best)[k]);
            }
        }
    }
}

/// Every hit that a scene query returns is the hit of a selected candidate, and lies no farther
/// than the nearest blocking hit.
pub proof fn lemma_resolve_hits_are_found(cs: Seq<Candidate>)
    ensures
        forall|k: int| 0 <= k < resolve(cs).len() ==> all_hits(cs).contains(#[trigger] resolve(cs)[k]),
        forall|k: int| 0 <= k < resolve(cs).len() ==> #[trigger] resolve(cs)[k].distance <= scan(cs).0,
{
    let best = scan(cs).0;
    let hits = scan(cs).1;
    let w = within(hits, best);
    lemma_scan_from_all_hits(cs);
    lemma_within_from(hits, best);
    lemma_within_bounded(hits, best);
    lemma_sort_hits(w);
    assert forall|k: int| 0 <= k < resolve(cs).len() implies all_hits(cs).contains(
        #[trigger] resolve(cs)[k],
    ) && resolve(cs)[k].distance <= best by {
        let x = resolve(cs)[k];
        vstd::seq_lib::to_multiset_contains(resolve(cs), x);
        assert(resolve(cs).contains(x));
        vstd::seq_lib::to_multiset_contains(w, x);
        let j = choose|j: int| 0 <= j < w.len() && w[j] == x;
        assert(hits.contains(w[j]));
    }
}

proof fn lemma_within_bounded(s: Seq<Hit>, best: u32)
    ensures
        forall|k: int| 0 <= k < within(s, best).len() ==> #[trigger] within(s, best)[k].distance <= best,
    decreases s.len(),
{
    if s.len() > 0 {
        let p = s.drop_last();
        lemma_within_bounded(p, best);
        assert forall|k: int| 0 <= k < within(s, best).len() implies #[trigger] within(s, best)[k].distance
            <= best by {
            if k < within(p, best).len() {
                assert(within(s, best)[k] == within(p, best)[k]);
            }
        }
    }
}

proof fn lemma_all_hits_ahead(cs: Seq<Candidate>)
    requires
        forall|i: int|
            0 <= i < cs.len() && (#[trigger] cs[i]).hit.is_some() ==> cs[i].hit.unwrap() > ZERO_KEY,
    ensures
        forall|k: int| 0 <= k < all_hits(cs).len() ==> #[trigger] all_hits(cs)[k].distance > ZERO_KEY,
    decreases cs.len(),
{
    if cs.len() > 0 {
        let p = cs.drop_last();
        assert forall|i: int| 0 <= i < p.len() && (#[trigger] p[i]).hit.is_some() implies p[i].hit.unwrap()
            > ZERO_KEY by {
            assert(p[i] == cs[i]);
        }
        lemma_all_hits_ahead(p);
        assert(cs.last() == cs[cs.len() - 1]);
        assert forall|k: int| 0 <= k < all_hits(cs).len() implies #[trigger] all_hits(cs)[k].distance
            > ZERO_KEY by {
            if k < all_hits(p).len() {
                assert(all_hits(cs)[k] == all_hits(p)[k]);
            }
        }
    }
}

/// Where every mesh hit lies ahead of the ray's origin (as [`NearestHit`] ensures), so does
/// every hit that a scene query returns.
pub proof fn lemma_resolve_ahead(cs: Seq<Candidate>)
    requires
        forall|i: int|
            0 <= i < cs.len() && (#[trigger] cs[i]).hit.is_some() ==> cs[i].hit.unwrap() > ZERO_KEY,
    ensures
        forall|k: int| 0 <= k < resolve(cs).len() ==> #[trigger] resolve(cs)[k].distance > ZERO_KEY,
{
    lemma_all_hits_ahead(cs);
    lemma_resolve_hits_are_found(cs);
    assert forall|k: int| 0 <= k < resolve(cs).len() implies #[trigger] resolve(cs)[k].distance
        > ZERO_KEY by {
        let j = choose|j: int| 0 <= j < all_hits(cs).len() && all_hits(cs)[j] == resolve(cs)[k];
        assert(all_hits(cs)[j].distance > ZERO_KEY);
    }
}

/// Keys that come from [`distance_key`].
pub open spec fn keys_in_range(cs: Seq<Candidate>) -> bool {
    forall|i: int|
        0 <= i < cs.len() ==> #[trigger] cs[i].entry <= INFINITY_KEY && (cs[i].hit.is_some()
            ==> cs[i].hit.unwrap() <= INFINITY_KEY)
}

proof fn lemma_within_all(s: Seq<Hit>, best: u32)
    requires
        forall|i: int| 0 <= i < s.len() ==> #[trigger] s[i].distance <= best,
    ensures
        within(s, best) == s,
    decreases s.len(),
{
    if s.len() > 0 {
        lemma_within_all(s.drop_last(), best);
        assert(s.drop_last().push(s.last()) =~= s);
    }
}

/// When no hit blocks the ray, a scene query returns every hit of every selected candidate,
/// nearest first.
pub proof fn lemma_never_early_exit(cs: Seq<Candidate>)
    requires
        forall|i: int| 0 <= i < cs.len() ==> !(#[trigger] cs[i].blocks),
        keys_in_range(cs),
    ensures
        resolve(cs) == sort_hits(all_hits(cs)),
        resolve(cs).to_multiset() == all_hits(cs).to_multiset(),
        hits_sorted(resolve(cs)),
    decreases cs.len(),
{
    lemma_scan_no_blocking(cs);
    lemma_within_all(all_hits(cs), INFINITY_KEY);
    lemma_sort_hits(all_hits(cs));
}

proof fn lemma_scan_no_blocking(cs: Seq<Candidate>)
    requires
        forall|i: int| 0 <= i < cs.len() ==> !(#[trigger] cs[i].blocks),
        keys_in_range(cs),
    ensures
        scan(cs) == (INFINITY_KEY, all_hits(cs)),
        forall|i: int|
            0 <= i < all_hits(cs).len() ==> #[trigger] all_hits(cs)[i].distance <= INFINITY_KEY,
    decreases cs.len(),
{
    if cs.len() > 0 {
        let p = cs.drop_last();
        assert forall|i: int| 0 <= i < p.len() implies !(#[trigger] p[i].blocks) by {
            assert(p[i] == cs[i]);
        }
        assert(keys_in_range(p)) by {
            assert forall|i: int| 0 <= i < p.len() implies #[trigger] p[i].entry <= INFINITY_KEY && (
            p[i].hit.is_some() ==> p[i].hit.unwrap() <= INFINITY_KEY) by {
                assert(p[i] == cs[i]);
            }
        }
        lemma_scan_no_blocking(p);
        assert(cs.last() == cs[cs.len() - 1]);
    }
}

/// When every hit blocks the ray, a scene query returns only hits at the distance of the nearest
/// hit found, and returns one whenever a hit was found.
pub proof fn lemma_always_early_exit(cs: Seq<Candidate>)
    requires
        forall|i: int| 0 <= i < cs.len() ==> #[trigger] cs[i].blocks,
        keys_in_range(cs),
    ensures
        forall|k: int|
            0 <= k < resolve(cs).len() ==> #[trigger] resolve(cs)[k].distance == scan(cs).0,
        forall|k: int| 0 <= k < scan(cs).1.len() ==> scan(cs).0 <= #[trigger] scan(cs).1[k].distance,
        scan(cs).1.len() > 0 ==> resolve(cs).len() > 0,
{
    lemma_scan_blocking(cs);
    let best = scan(cs).0;
    let hits = scan(cs).1;
    lemma_within_at_best(hits, best);
    lemma_sort_hits(within(hits, best));
    let w = within(hits, best);
    assert forall|k: int| 0 <= k < resolve(cs).len() implies #[trigger] resolve(cs)[k].distance
        == best by {
        let x = resolve(cs)[k];
        vstd::seq_lib::to_multiset_contains(resolve(cs), x);
        assert(resolve(cs).contains(x));
        vstd::seq_lib::to_multiset_contains(w, x);
    }
    if hits.len() > 0 {
        vstd::seq_lib::to_multiset_len(w);
        vstd::seq_lib::to_multiset_len(resolve(cs));
    }
}

/// No two selected candidates have hits at the same distance.
pub open spec fn distinct_hit_distances(cs: Seq<Candidate>) -> bool {
    forall|i: int, j: int|
        0 <= i < cs.len() && 0 <= j < cs.len() && i != j && cs[i].selected && cs[j].selected
            && (#[trigger] cs[i]).hit.is_some() && (#[trigger] cs[j]).hit.is_some() ==> cs[i].hit
            != cs[j].hit
}

proof fn lemma_all_hits_from(cs: Seq<Candidate>)
    ensures
        forall|k: int|
            0 <= k < all_hits(cs).len() ==> exists|i: int|
                0 <= i < cs.len() && cs[i].selected && #[trigger] cs[i].hit == Some(
                    (#[trigger] all_hits(cs)[k]).distance,
                ),
    decreases cs.len(),
{
    if cs.len() > 0 {
        let p = cs.drop_last();
        lemma_all_hits_from(p);
        assert forall|k: int| 0 <= k < all_hits(cs).len() implies exists|i: int|
            0 <= i < cs.len() && cs[i].selected && #[trigger] cs[i].hit == Some(
                (#[trigger] all_hits(cs)[k]).distance,
            ) by {
            if k < all_hits(p).len() {
                assert(all_hits(cs)[k] == all_hits(p)[k]);
                let i = choose|i: int|
                    0 <= i < p.len() && p[i].selected && #[trigger] p[i].hit == Some(
                        all_hits(p)[k].distance,
                    );
                assert(cs[i] == p[i]);
            } else {
                assert(cs[cs.len() - 1] == cs.last());
            }
        }
    }
}

proof fn lemma_scan_distinct(cs: Seq<Candidate>)
    requires
        distinct_hit_distances(cs),
    ensures
        forall|j: int, k: int|
            0 <= j < k < scan(cs).1.len() ==> (#[trigger] scan(cs).1[j]).distance != (
            #[trigger] scan(cs).1[k]).distance,
    decreases cs.len(),
{
    if cs.len() > 0 {
        let p = cs.drop_last();
        assert(distinct_hit_distances(p)) by {
            assert forall|i: int, j: int|
                0 <= i < p.len() && 0 <= j < p.len() && i != j && p[i].selected && p[j].selected
                    && (#[trigger] p[i]).hit.is_some() && (#[trigger] p[j]).hit.is_some() implies p[i].hit
                != p[j].hit by {
                assert(p[i] == cs[i] && p[j] == cs[j]);
            }
        }
        lemma_scan_distinct(p);
        lemma_scan_from_all_hits(p);
        lemma_all_hits_from(p);
        let c = cs.last();
        let n = cs.len() - 1;
        assert(c == cs[n]);
        let prev = scan(p).1;
        let cur = scan(cs).1;
        assert forall|j: int, k: int| 0 <= j < k < cur.len() implies (#[trigger] cur[j]).distance != (
        #[trigger] cur[k]).distance by {
            if k < prev.len() {
                assert(cur[j] == prev[j] && cur[k] == prev[k]);
            } else {
                assert(cur[j] == prev[j]);
                let m = choose|m: int| 0 <= m < all_hits(p).len() && all_hits(p)[m] == prev[j];
                let i = choose|i: int|
                    0 <= i < p.len() && p[i].selected && #[trigger] p[i].hit == Some(
                        (#[trigger] all_hits(p)[m]).distance,
                    );
                assert(cs[i] == p[i]);
            }
        }
    }
}

proof fn lemma_within_at_most_one(s: Seq<Hit>, best: u32)
    requires
        forall|k: int| 0 <= k < s.len() ==> best <= #[trigger] s[k].distance,
        forall|j: int, k: int|
            0 <= j < k < s.len() ==> (#[trigger] s[j]).distance != (#[trigger] s[k]).distance,
    ensures
        within(s, best).len() <= 1,
    decreases s.len(),
{
    if s.len() > 0 {
        let p = s.drop_last();
        assert forall|k: int| 0 <= k < p.len() implies best <= #[trigger] p[k].distance by {
            assert(p[k] == s[k]);
        }
        assert forall|j: int, k: int| 0 <= j < k < p.len() implies (#[trigger] p[j]).distance != (
        #[trigger] p[k]).distance by {
            assert(p[j] == s[j] && p[k] == s[k]);
        }
        lemma_within_at_most_one(p, best);
        if s.last().distance <= best {
            assert(!exists|k: int| 0 <= k < p.len() && #[trigger] p[k].distance == best) by {
                if exists|k: int| 0 <= k < p.len() && #[trigger] p[k].distance == best {
                    let k = choose|k: int| 0 <= k < p.len() && #[trigger] p[k].distance == best;
                    assert(s[k] == p[k]);
                    assert(s[k].distance != s[s.len() - 1].distance);
                }
            }
            lemma_within_none(p, best);
        }
    }
}

/// When every hit blocks the ray and no two hits lie at the same distance, a scene query that
/// finds any hit returns exactly one: the nearest.
pub proof fn lemma_always_early_exit_single(cs: Seq<Candidate>)
    requires
        forall|i: int| 0 <= i < cs.len() ==> #[trigger] cs[i].blocks,
        keys_in_range(cs),
        distinct_hit_distances(cs),
    ensures
        scan(cs).1.len() > 0 ==> resolve(cs).len() == 1,
        forall|k: int| 0 <= k < scan(cs).1.len() ==> scan(cs).0 <= #[trigger] scan(cs).1[k].distance,
        forall|k: int|
            0 <= k < resolve(cs).len() ==> #[trigger] resolve(cs)[k].distance == scan(cs).0,
{
    lemma_always_early_exit(cs);
    lemma_scan_blocking(cs);
    lemma_scan_distinct(cs);
    let w = within(scan(cs).1, scan(cs).0);
    lemma_within_at_most_one(scan(cs).1, scan(cs).0);
    lemma_sort_hits(w);
    vstd::seq_lib::to_multiset_len(w);
    vstd::seq_lib::to_multiset_len(resolve(cs));
}

proof fn lemma_within_at_best(s: Seq<Hit>, best: u32)
    requires
        forall|k: int| 0 <= k < s.len() ==> best <= #[trigger] s[k].distance,
        s.len() > 0 ==> exists|k: int| 0 <= k < s.len() && #[trigger] s[k].distance == best,
    ensures
        forall|k: int| 0 <= k < within(s, best).len() ==> #[trigger] within(s, best)[k].distance
            == best,
        s.len() > 0 ==> within(s, best).len() > 0,
    decreases s.len(),
{
    if s.len() > 0 {
        let p = s.drop_last();
        assert forall|k: int| 0 <= k < p.len() implies best <= #[trigger] p[k].distance by {
            assert(p[k] == s[k]);
        }
        if exists|k: int| 0 <= k < p.len() && #[trigger] p[k].distance == best {
            lemma_within_at_best(p, best);
        } else {
            // the last hit is then the one at `best`, and nothing before it is kept
            lemma_within_none(p, best);
            let k = choose|k: int| 0 <= k < s.len() && #[trigger] s[k].distance == best;
            if k < p.len() {
                assert(p[k].distance == best);
            }
        }
    }
}

proof fn lemma_within_none(s: Seq<Hit>, best: u32)
    requires
        forall|k: int| 0 <= k < s.len() ==> best <= #[trigger] s[k].distance,
        !exists|k: int| 0 <= k < s.len() && #[trigger] s[k].distance == best,
    ensures
        within(s, best).len() == 0,
    decreases s.len(),
{
    if s.len() > 0 {
        let p = s.drop_last();
        assert forall|k: int| 0 <= k < p.len() implies best <= #[trigger] p[k].distance by {
            assert(p[k] == s[k]);
        }
        assert(!exists|k: int| 0 <= k < p.len() && #[trigger] p[k].distance == best) by {
            if exists|k: int| 0 <= k < p.len() && #[trigger] p[k].distance == best {
                let k = choose|k: int| 0 <= k < p.len() && #[trigger] p[k].distance == best;
                assert(s[k].distance == best);
            }
        }
        lemma_within_none(p, best);
        assert(s[s.len() - 1].distance != best);
    }
}

proof fn lemma_scan_blocking(cs: Seq<Candidate>)
    requires
        forall|i: int| 0 <= i < cs.len() ==> #[trigger] cs[i].blocks,
        keys_in_range(cs),
    ensures
        scan(cs).0 <= INFINITY_KEY,
        forall|k: int| 0 <= k < scan(cs).1.len() ==> scan(cs).0 <= #[trigger] scan(cs).1[k].distance,
        scan(cs).1.len() > 0 ==> exists|k: int|
            0 <= k < scan(cs).1.len() && #[trigger] scan(cs).1[k].distance == scan(cs).0,
        scan(cs).1.len() == 0 ==> scan(cs).0 == INFINITY_KEY,
    decreases cs.len(),
{
    if cs.len() > 0 {
        let p = cs.drop_last();
        assert forall|i: int| 0 <= i < p.len() implies #[trigger] p[i].blocks by {
            assert(p[i] == cs[i]);
        }
        assert(keys_in_range(p)) by {
            assert forall|i: int| 0 <= i < p.len() implies #[trigger] p[i].entry <= INFINITY_KEY && (
            p[i].hit.is_some() ==> p[i].hit.unwrap() <= INFINITY_KEY) by {
                assert(p[i] == cs[i]);
            }
        }
        lemma_scan_blocking(p);
        let c = cs.last();
        assert(c == cs[cs.len() - 1]);
        let prev = scan(p);
        let cur = scan(cs);
        if c.selected && c.entry <= prev.0 && c.hit.is_some() {
            let d = c.hit.unwrap();
            assert(cur.1 == prev.1.push(Hit { distance: d, entity: c.entity }));
            assert forall|k: int| 0 <= k < cur.1.len() implies cur.0 <= #[trigger] cur.1[k].distance by {
                if k < prev.1.len() {
                    assert(cur.1[k] == prev.1[k]);
                }
            }
            if d < prev.0 {
                assert(cur.1[cur.1.len() - 1].distance == cur.0);
            } else if prev.1.len() > 0 {
                let k = choose|k: int| 0 <= k < prev.1.len() && #[trigger] prev.1[k].distance == prev.0;
                assert(cur.1[k] == prev.1[k]);
            } else {
                assert(cs[cs.len() - 1].hit.unwrap() <= INFINITY_KEY);
                assert(cur.1[cur.1.len() - 1].distance == cur.0);
            }
        }
    }
}

/// The key of `0.0` (and of `-0.0`): the ray's origin.
pub const ZERO_KEY: u32 = 0x8000_0000;

/// Where a ray meets an entity's bounding box.
#[derive(Clone, Copy, Debug, PartialEq, Eq, Structural)]
pub enum BoxTest {
    /// The entity has no bounding box; it is never culled.
    Unbounded,
    /// The ray misses the box.
    Miss,
    /// The ray's line meets the box between the distances with keys `near` and `far`.
    Hit { near: u32, far: u32 },
}

/// What the broad-phase knows of an entity before any mesh is tested.
#[derive(Clone, Copy, Debug, PartialEq, Eq, Structural)]
pub struct EntityBox {
    pub entity: u64,
    pub visible_in_hierarchy: bool,
    pub visible_in_view: bool,
    pub aabb: BoxTest,
}

/// Whether an entity stays in the broad-phase: its visibility is admitted, and its box is not
/// missed and not wholly behind the ray.
pub open spec fn spec_keeps(visibility: RaycastVisibility, e: EntityBox) -> bool {
    visibility.spec_admits(e.visible_in_hierarchy, e.visible_in_view) && match e.aabb {
        BoxTest::Unbounded => true,
        BoxTest::Miss => false,
        BoxTest::Hit { near, far } => far >= ZERO_KEY,
    }
}

/// The key of the distance at which the ray enters an entity's box; an entity without a box is
/// entered before any other.
pub open spec fn spec_entry(e: EntityBox) -> u32 {
    match e.aabb {
        BoxTest::Hit { near, far } => near,
        _ => 0,
    }
}

/// The entities that stay in the broad-phase, in order, with their entry distances.
pub open spec fn culled(visibility: RaycastVisibility, s: Seq<EntityBox>) -> Seq<Hit>
    decreases s.len(),
{
    if s.len() == 0 {
        Seq::empty()
    } else if spec_keeps(visibility, s.last()) {
        culled(visibility, s.drop_last()).push(
            Hit { distance: spec_entry(s.last()), entity: s.last().entity },
        )
    } else {
        culled(visibility, s.drop_last())
    }
}

/// The first step of a scene query: drops the entities that the visibility mode excludes or
/// whose box the ray misses or has wholly behind it, and orders the rest by the distance at
/// which the ray enters their box (entities without a box first).
pub fn cull(visibility: RaycastVisibility, entities: &Vec<EntityBox>) -> (r: Vec<Hit>)
    ensures
        r@ == sort_hits(culled(visibility, entities@)),
        hits_sorted(r@),
{
    let mut kept: Vec<Hit> = Vec::new();
    let mut i: usize = 0;
    while i < entities.len()
        invariant
            i <= entities.len(),
            kept@ == culled(visibility, entities@.take(i as int)),
        decreases entities.len() - i,
    {
        proof {
            assert(entities@.take(i + 1).drop_last() =~= entities@.take(i as int));
        }
        let e = entities[i];
        let keep = visibility.admits(e.visible_in_hierarchy, e.visible_in_view) && match e.aabb {
            BoxTest::Unbounded => true,
            BoxTest::Miss => false,
            BoxTest::Hit { near, far } => far >= ZERO_KEY,
        };
        if keep {
            let entry = match e.aabb {
                BoxTest::Hit { near, far } => near,
                _ => 0,
            };
            kept.push(Hit { distance: entry, entity: e.entity });
        }
        i = i + 1;
    }
    proof {
        assert(entities@.take(entities.len() as int) =~= entities@);
    }
    sort_by_distance(&kept)
}

/// The hit that a search of one mesh keeps: the nearest of those ahead of the ray's origin, the
/// first found among equally near ones.
pub open spec fn is_nearest_ahead(s: Seq<Hit>, k: int) -> bool {
    &&& 0 <= k < s.len()
    &&& s[k].distance > ZERO_KEY
    &&& forall|j: int| 0 <= j < s.len() && s[j].distance > ZERO_KEY ==> s[k].distance <= #[trigger] s[j].distance
    &&& forall|j: int| 0 <= j < k && s[j].distance > ZERO_KEY ==> s[k].distance < #[trigger] s[j].distance
}

/// Tracks the nearest hit ahead of the origin while the triangles of one mesh are tested.
#[derive(Clone, Copy, Debug)]
pub struct NearestHit {
    pub best: Option<Hit>,
}

impl NearestHit {
    pub fn new() -> (r: Self)
        ensures
            r.best.is_none(),
    {
        NearestHit { best: None }
    }

    /// Whether a hit at distance key `t` would be kept: it lies ahead of the origin and is
    /// nearer than the best so far. A triangle that cannot give such a hit need not be tested.
    pub fn accepts(&self, t: u32) -> (r: bool)
        ensures
            r == (ZERO_KEY < t && match self.best {
                Some(b) => t < b.distance,
                None => true,
            }),
    {
        ZERO_KEY < t && match self.best {
            Some(b) => t < b.distance,
            None => true,
        }
    }

    /// Keeps `h` where it is accepted.
    pub fn offer(&mut self, h: Hit)
        ensures
            final(self).best == (if old(self).accepts_spec(h.distance) {
                Some(h)
            } else {
                old(self).best
            }),
    {
        if self.accepts(h.distance) {
            self.best = Some(h);
        }
    }

    pub open spec fn accepts_spec(&self, t: u32) -> bool {
        ZERO_KEY < t && match self.best {
            Some(b) => t < b.distance,
            None => true,
        }
    }
}

/// The nearest of `hits` ahead of the ray's origin (the first found among equally near ones), or
/// `None` where none lies ahead.
pub fn nearest_ahead(hits: &Vec<Hit>) -> (r: Option<Hit>)
    ensures
        r.is_none() <==> forall|j: int| 0 <= j < hits.len() ==> #[trigger] hits@[j].distance
            <= ZERO_KEY,
        r.is_some() ==> exists|k: int| is_nearest_ahead(hits@, k) && hits@[k] == r.unwrap(),
{
    let mut search = NearestHit::new();
    let mut i: usize = 0;
    let ghost mut at: int = 0;
    while i < hits.len()
        invariant
            i <= hits.len(),
            search.best.is_none() ==> forall|j: int| 0 <= j < i ==> #[trigger] hits@[j].distance
                <= ZERO_KEY,
            search.best.is_some() ==> is_nearest_ahead(hits@.take(i as int), at) && hits@[at]
                == search.best.unwrap(),
        decreases hits.len() - i,
    {
        let h = hits[i];
        let ghost prev = search.best;
        search.offer(h);
        proof {
            let t = hits@.take(i + 1);
            if search.best != prev {
                at = i as int;
                assert forall|j: int| 0 <= j < t.len() && t[j].distance > ZERO_KEY implies t[at].distance
                    <= #[trigger] t[j].distance by {
                    if j < i && prev.is_some() {
                        assert(hits@.take(i as int)[j] == t[j]);
                    }
                }
                assert forall|j: int| 0 <= j < at && t[j].distance > ZERO_KEY implies t[at].distance
                    < #[trigger] t[j].distance by {
                    if prev.is_some() {
                        assert(hits@.take(i as int)[j] == t[j]);
                    }
                }
            } else if prev.is_some() {
                let p = hits@.take(i as int);
                assert forall|j: int| 0 <= j < t.len() && t[j].distance > ZERO_KEY implies t[at].distance
                    <= #[trigger] t[j].distance by {
                    if j < i {
                        assert(p[j] == t[j]);
                    }
                }
                assert forall|j: int| 0 <= j < at && t[j].distance > ZERO_KEY implies t[at].distance
                    < #[trigger] t[j].distance by {
                    assert(p[j] == t[j]);
                }
            }
        }
        i = i + 1;
    }
    proof {
        assert(hits@.take(hits.len() as int) =~= hits@);
    }
    search.best
}

} // verus!
