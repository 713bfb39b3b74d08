use vstd::prelude::*;
use crate::color::{bit, CdfColor, MAX_COLLIDERS};

verus! {

/// Bit pattern of the binary32 value `+infinity`, the distance of a node that
/// no sample has reached yet.
///
/// Distances travel through this module as IEEE-754 binary32 bit patterns.
/// For values whose sign bit is clear and that are not NaN, the order of the
/// patterns as unsigned integers is the order of the values, so the node's
/// min-reduction is done with integer comparisons.
pub const INFINITE_DISTANCE: u32 = 0x7F80_0000;

/// `|x|` on a binary32 bit pattern: the sign bit cleared.
pub open spec fn abs_bits(x: u32) -> u32 {
    x & 0x7FFF_FFFF
}

/// `x >= 0.0` on a binary32 bit pattern: `+0`, `-0`, positive numbers and
/// `+infinity`; not NaN and not a negative number.
pub open spec fn is_nonnegative_bits(x: u32) -> bool {
    x <= INFINITE_DISTANCE || x == 0x8000_0000
}

/// The tag that a signed distance stands for: 1 (outside) when it is
/// non-negative, 0 (inside) otherwise.
pub open spec fn tag_of(x: u32) -> u32 {
    if is_nonnegative_bits(x) { 1 } else { 0 }
}

/// The node state `(distance, color word)` after one update with signed
/// distance `sd` by collider `c`: the affinity to `c` is always marked, and
/// the tag of `c` and the distance are replaced together when `|sd|` is
/// strictly below the current distance.
pub open spec fn after_update(d: u32, w: u32, sd: u32, c: u32) -> (u32, u32) {
    let marked = w | (1u32 << c);
    if abs_bits(sd) < d {
        (abs_bits(sd), marked & !(1u32 << ((c + 16) as u32)) | (tag_of(sd) << ((c + 16) as u32)))
    } else {
        (d, marked)
    }
}

/// The node state after the updates `s` (pairs of signed distance and
/// collider index), applied in order to the state `(d, w)`.
pub open spec fn run_updates_from(d: u32, w: u32, s: Seq<(u32, u32)>) -> (u32, u32)
    decreases s.len(),
{
    if s.len() == 0 {
        (d, w)
    } else {
        let p = run_updates_from(d, w, s.drop_last());
        after_update(p.0, p.1, s.last().0, s.last().1)
    }
}

/// The state of a fresh node after the updates `s`, applied in order.
pub open spec fn run_updates(s: Seq<(u32, u32)>) -> (u32, u32) {
    run_updates_from(INFINITE_DISTANCE, 0, s)
}

/// One rasterized sample: the grid node it reaches, the signed distance from
/// that node to the collider's surface (a binary32 bit pattern) and the
/// collider's index.
#[derive(Clone, Copy, Debug)]
pub struct NodeSample {
    pub node: usize,
    pub signed_distance: u32,
    pub collider_index: u32,
}

/// The updates, in order, that the samples `s` make on node `k`.
pub open spec fn updates_at(s: Seq<NodeSample>, k: int) -> Seq<(u32, u32)>
    decreases s.len(),
{
    if s.len() == 0 {
        Seq::empty()
    } else if s.last().node == k {
        updates_at(s.drop_last(), k).push((s.last().signed_distance, s.last().collider_index))
    } else {
        updates_at(s.drop_last(), k)
    }
}

/// Whether update `k` of `s` lowers the node's distance: `|s[k]|` is below
/// `+infinity` and below the magnitude of every earlier update.
pub open spec fn lowers_minimum(s: Seq<(u32, u32)>, k: int) -> bool {
    &&& abs_bits(s[k].0) < INFINITE_DISTANCE
    &&& forall|j: int| 0 <= j < k ==> abs_bits(s[k].0) < abs_bits(#[trigger] s[j].0)
}

/// Whether update `k` of `s` is the last one by collider `i` that lowers the
/// node's distance.
pub open spec fn last_lowering_by(s: Seq<(u32, u32)>, k: int, i: u32) -> bool {
    &&& 0 <= k < s.len()
    &&& s[k].1 == i
    &&& lowers_minimum(s, k)
    &&& forall|m: int| k < m < s.len() && s[m].1 == i ==> !#[trigger] lowers_minimum(s, m)
}

/// The CDF record of one background grid node: the distance to the nearest
/// rigid surface sample seen so far and the packed color of up to sixteen
/// colliders. Both change only through `update`.
#[derive(Clone, Copy, Debug)]
pub struct GridCdfData {
    unsigned_distance: u32,
    color: CdfColor,
}

impl GridCdfData {
    /// The distance, as a binary32 bit pattern.
    pub closed spec fn distance_spec(self) -> u32 {
        self.unsigned_distance
    }

    /// The packed color.
    pub closed spec fn color_spec(self) -> CdfColor {
        self.color
    }

    /// The distance is a non-negative, non-NaN value.
    pub open spec fn wf(self) -> bool {
        self.distance_spec() <= INFINITE_DISTANCE
    }

    /// A node that no sample has reached: distance `+infinity`, no affinity.
    pub fn new() -> (r: Self)
        ensures
            r.distance_spec() == INFINITE_DISTANCE,
            r.color_spec().0 == 0,
            (r.distance_spec(), r.color_spec().0) == run_updates(Seq::empty()),
            r.wf(),
    {
        GridCdfData { unsigned_distance: INFINITE_DISTANCE, color: CdfColor(0) }
    }

    /// The distance to the nearest sample seen so far, as a binary32 bit
    /// pattern.
    pub fn unsigned_distance(&self) -> (r: u32)
        ensures
            r == self.distance_spec(),
    {
        self.unsigned_distance
    }

    /// The packed affinity/tag color.
    pub fn color(&self) -> (r: CdfColor)
        ensures
            r == self.color_spec(),
    {
        self.color
    }

    /// Records a sample of collider `collider_index` at signed distance
    /// `signed_distance` (a binary32 bit pattern) from this node: marks the
    /// affinity, and when `|signed_distance|` is strictly below the current
    /// distance, replaces the distance and that collider's tag (1 when the
    /// distance is non-negative) together. `_lane` names the caller and takes
    /// no part in the result.
    pub fn update(&mut self, signed_distance: u32, collider_index: u32, _lane: u32)
        requires
            collider_index < MAX_COLLIDERS,
            old(self).wf(),
        ensures
            final(self).wf(),
            (final(self).distance_spec(), final(self).color_spec().0)
                == after_update(old(self).distance_spec(), old(self).color_spec().0, signed_distance, collider_index),
    {
        let unsigned_distance = signed_distance & 0x7FFF_FFFF;
        let tag: u32 = if signed_distance <= INFINITE_DISTANCE || signed_distance == 0x8000_0000 { 1 } else { 0 };
        self.color.set_affinity(collider_index);
        if unsigned_distance < self.unsigned_distance {
            self.color.change_tag(collider_index, tag);
            self.unsigned_distance = unsigned_distance;
        }
    }
}

/// Applies each sample to the node it reaches, in order. Every node ends in
/// the state that the samples reaching it, applied in order, give: no sample
/// is lost and none reaches another node.
pub fn rasterize(nodes: &mut Vec<GridCdfData>, samples: &Vec<NodeSample>)
    requires
        forall|k: int| 0 <= k < old(nodes).len() ==> (#[trigger] old(nodes)[k]).wf(),
        forall|i: int| 0 <= i < samples.len() ==> (#[trigger] samples[i]).node < old(nodes).len()
            && samples[i].collider_index < MAX_COLLIDERS,
    ensures
        final(nodes).len() == old(nodes).len(),
        forall|k: int| 0 <= k < final(nodes).len() ==> (#[trigger] final(nodes)[k]).wf()
            && (final(nodes)[k].distance_spec(), final(nodes)[k].color_spec().0) == run_updates_from(
                old(nodes)[k].distance_spec(), old(nodes)[k].color_spec().0, updates_at(samples@, k)),
{
    let ghost start = nodes@;
    let mut i: usize = 0;
    while i < samples.len()
        invariant
            i <= samples.len(),
            nodes.len() == start.len(),
            start == old(nodes)@,
            forall|j: int| 0 <= j < samples.len() ==> (#[trigger] samples[j]).node < start.len()
                && samples[j].collider_index < MAX_COLLIDERS,
            forall|k: int| 0 <= k < nodes.len() ==> (#[trigger] nodes[k]).wf()
                && (nodes[k].distance_spec(), nodes[k].color_spec().0) == run_updates_from(
                    start[k].distance_spec(), start[k].color_spec().0, updates_at(samples@.take(i as int), k)),
        decreases samples.len() - i,
    {
        let sample = samples[i];
        let ghost before = nodes@;
        let mut node = nodes[sample.node];
        node.update(sample.signed_distance, sample.collider_index, i as u32);
        nodes.set(sample.node, node);
        proof {
            let t = samples@.take(i as int + 1);
            assert(t.drop_last() == samples@.take(i as int));
            assert(t.last() == sample);
            assert forall|k: int| 0 <= k < nodes.len() implies (#[trigger] nodes[k]).wf()
                && (nodes[k].distance_spec(), nodes[k].color_spec().0) == run_updates_from(
                    start[k].distance_spec(), start[k].color_spec().0, updates_at(t, k)) by {
                if k == sample.node as int {
                    let u = updates_at(t, k);
                    assert(u.drop_last() == updates_at(samples@.take(i as int), k));
                    assert(u.last() == (sample.signed_distance, sample.collider_index));
                } else {
                    assert(nodes[k] == before[k]);
                }
            }
        }
        i = i + 1;
    }
    assert(samples@.take(samples.len() as int) == samples@);
}

impl Default for GridCdfData {
    fn default() -> (r: Self)
        ensures
            r.distance_spec() == INFINITE_DISTANCE,
            r.color_spec().0 == 0,
    {
        GridCdfData::new()
    }
}

proof fn lemma_update_bits(w: u32, c: u32, v: u32)
    requires
        c < 16,
        v <= 1,
    ensures
        forall|j: u32| j < 32 ==> #[trigger] bit(w | (1u32 << c), j) == (j == c || bit(w, j)),
        forall|j: u32|
            j < 32 ==> #[trigger] bit((w | (1u32 << c)) & !(1u32 << ((c + 16) as u32)) | (v << ((c + 16) as u32)), j)
                == if j == c + 16 { v == 1 } else { j == c || bit(w, j) },
{
    assert(forall|j: u32| j < 32 ==> #[trigger] bit(w | (1u32 << c), j) == (j == c || bit(w, j))) by (bit_vector)
        requires c < 16;
    assert(forall|j: u32|
        j < 32 ==> #[trigger] bit((w | (1u32 << c)) & !(1u32 << ((c + 16) as u32)) | (v << ((c + 16) as u32)), j)
            == if j == c + 16 { v == 1 } else { j == c || bit(w, j) }) by (bit_vector)
        requires c < 16, v <= 1;
}

proof fn lemma_abs_bound(x: u32)
    ensures
        abs_bits(x) <= 0x7FFF_FFFF,
        (x & 0x7FFF_FFFF) == abs_bits(x),
{
    assert(x & 0x7FFF_FFFF <= 0x7FFF_FFFF) by (bit_vector);
}

/// Whatever order the updates of one node are serialized in, the node ends
/// with the smallest magnitude among them (or `+infinity` when none is below
/// it), with an affinity to exactly the colliders that updated it, and with
/// each collider's tag taken from that collider's last update that lowered
/// the distance (0 when it has none).
pub proof fn lemma_updates_keep_minimum(s: Seq<(u32, u32)>)
    requires
        forall|k: int| 0 <= k < s.len() ==> (#[trigger] s[k]).1 < MAX_COLLIDERS,
    ensures
        run_updates(s).0 <= INFINITE_DISTANCE,
        forall|k: int| 0 <= k < s.len() ==> run_updates(s).0 <= abs_bits(#[trigger] s[k].0),
        run_updates(s).0 == INFINITE_DISTANCE || exists|k: int| 0 <= k < s.len() && run_updates(s).0 == abs_bits(#[trigger] s[k].0),
        forall|i: u32| i < MAX_COLLIDERS ==> (#[trigger] bit(run_updates(s).1, i) <==> exists|k: int| 0 <= k < s.len() && (#[trigger] s[k]).1 == i),
        forall|i: u32| i < MAX_COLLIDERS ==> (#[trigger] bit(run_updates(s).1, (i + 16) as u32)
            <==> exists|k: int| #[trigger] last_lowering_by(s, k, i) && is_nonnegative_bits(s[k].0)),
    decreases s.len(),
{
    if s.len() == 0 {
        assert(forall|j: u32| j < 32 ==> !#[trigger] bit(0u32, j)) by (bit_vector);
    } else {
        let t = s.drop_last();
        let x = s.last();
        assert forall|k: int| 0 <= k < t.len() implies (#[trigger] t[k]).1 < MAX_COLLIDERS by {
            assert(t[k] == s[k]);
        }
        lemma_updates_keep_minimum(t);
        let p = run_updates(t);
        let n = t.len() as int;
        assert(s[n] == x);
        assert forall|k: int| 0 <= k < n implies #[trigger] s[k] == t[k] by {}
        lemma_abs_bound(x.0);
        lemma_update_bits(p.1, x.1, tag_of(x.0));
        let r = run_updates(s);
        assert(p == run_updates_from(INFINITE_DISTANCE, 0, t));
        assert(r == after_update(p.0, p.1, x.0, x.1));
        // update n lowers the minimum exactly when it beats the prior distance
        assert(lowers_minimum(s, n) == (abs_bits(x.0) < p.0)) by {
            if abs_bits(x.0) < p.0 {
                assert forall|j: int| 0 <= j < n implies abs_bits(s[n].0) < abs_bits(#[trigger] s[j].0) by {
                    assert(p.0 <= abs_bits(t[j].0));
                }
            } else if lowers_minimum(s, n) {
                if p.0 != INFINITE_DISTANCE {
                    let k = choose|k: int| 0 <= k < t.len() && p.0 == abs_bits(#[trigger] t[k].0);
                    assert(abs_bits(s[n].0) < abs_bits(s[k].0));
                }
            }
        }
        assert forall|k: int| 0 <= k < n implies #[trigger] lowers_minimum(s, k) == lowers_minimum(t, k) by {
            assert forall|j: int| 0 <= j < k implies #[trigger] s[j] == t[j] by {}
        }
        assert forall|k: int| 0 <= k < s.len() implies r.0 <= abs_bits(#[trigger] s[k].0) by {
            if k < n {
                assert(p.0 <= abs_bits(t[k].0));
            }
        }
        if r.0 != INFINITE_DISTANCE {
            if abs_bits(x.0) < p.0 {
                assert(r.0 == abs_bits(s[n].0));
            } else {
                let k = choose|k: int| 0 <= k < t.len() && p.0 == abs_bits(#[trigger] t[k].0);
                assert(r.0 == abs_bits(s[k].0));
            }
        }
        assert forall|i: u32| i < MAX_COLLIDERS implies (#[trigger] bit(r.1, i) <==> exists|k: int| 0 <= k < s.len() && (#[trigger] s[k]).1 == i) by {
            if bit(r.1, i) && i != x.1 {
                let k = choose|k: int| 0 <= k < t.len() && (#[trigger] t[k]).1 == i;
                assert(s[k].1 == i);
            }
            if i == x.1 {
                assert(s[n].1 == i);
            }
            if exists|k: int| 0 <= k < s.len() && (#[trigger] s[k]).1 == i {
                let k = choose|k: int| 0 <= k < s.len() && (#[trigger] s[k]).1 == i;
                if k < n {
                    assert(t[k].1 == i);
                }
            }
        }
        assert forall|i: u32| i < MAX_COLLIDERS implies (#[trigger] bit(r.1, (i + 16) as u32)
            <==> exists|k: int| #[trigger] last_lowering_by(s, k, i) && is_nonnegative_bits(s[k].0)) by {
            if abs_bits(x.0) < p.0 && i == x.1 {
                assert(last_lowering_by(s, n, i));
                assert(bit(r.1, (i + 16) as u32) == (tag_of(x.0) == 1));
                if exists|k: int| #[trigger] last_lowering_by(s, k, i) && is_nonnegative_bits(s[k].0) {
                    let k = choose|k: int| #[trigger] last_lowering_by(s, k, i) && is_nonnegative_bits(s[k].0);
                    if k < n {
                        assert(!lowers_minimum(s, n));
                    }
                }
            } else {
                assert(bit(r.1, (i + 16) as u32) == bit(p.1, (i + 16) as u32));
                assert forall|k: int| 0 <= k < n implies #[trigger] last_lowering_by(s, k, i) == last_lowering_by(t, k, i) by {
                    if last_lowering_by(t, k, i) {
                        assert forall|m: int| k < m < s.len() && s[m].1 == i implies !#[trigger] lowers_minimum(s, m) by {
                            if m < n {
                                assert(s[m] == t[m]);
                                assert(!lowers_minimum(t, m));
                            }
                        }
                    }
                    if last_lowering_by(s, k, i) {
                        assert forall|m: int| k < m < t.len() && t[m].1 == i implies !#[trigger] lowers_minimum(t, m) by {
                            assert(s[m] == t[m]);
                            assert(!lowers_minimum(s, m));
                        }
                    }
                }
                assert(!last_lowering_by(s, n, i));
                if exists|k: int| #[trigger] last_lowering_by(s, k, i) && is_nonnegative_bits(s[k].0) {
                    let k = choose|k: int| #[trigger] last_lowering_by(s, k, i) && is_nonnegative_bits(s[k].0);
                    assert(k < n);
                    assert(last_lowering_by(t, k, i) && t[k] == s[k]);
                }
                if exists|k: int| #[trigger] last_lowering_by(t, k, i) && is_nonnegative_bits(t[k].0) {
                    let k = choose|k: int| #[trigger] last_lowering_by(t, k, i) && is_nonnegative_bits(t[k].0);
                    assert(last_lowering_by(s, k, i) && t[k] == s[k]);
                }
            }
        }
    }
}

} // verus!
