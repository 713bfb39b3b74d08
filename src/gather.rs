use vstd::prelude::*;
use crate::color::{bit, CdfColor, MAX_COLLIDERS};
use crate::grid::{is_nonnegative_bits, GridCdfData};

verus! {

broadcast use vstd::seq_lib::to_multiset_contains;

/// The affinity mask after gathering nodes whose color words are `nodes`, in
/// order, into the mask `a`.
pub open spec fn gather_affinities(a: u32, nodes: Seq<u32>) -> u32
    decreases nodes.len(),
{
    if nodes.len() == 0 {
        a
    } else {
        gather_affinities(a, nodes.drop_last()) | (nodes.last() & 0xFFFF)
    }
}

/// The per-particle result of a gather over the grid nodes around a particle:
/// the union of the nodes' affinities and, once resolved, one tag per
/// collider (bit `i + 16`, as in a packed color).
#[derive(Clone, Copy, Debug)]
pub struct InterpolatedCdfData {
    affinities: u32,
    tags: u32,
}

impl InterpolatedCdfData {
    /// The gathered affinity mask.
    pub closed spec fn affinities_spec(self) -> u32 {
        self.affinities
    }

    /// The resolved tag word.
    pub closed spec fn tags_spec(self) -> u32 {
        self.tags
    }

    /// An empty gather: no affinity, no tag.
    pub fn new() -> (r: Self)
        ensures
            r.affinities_spec() == 0,
            r.tags_spec() == 0,
    {
        InterpolatedCdfData { affinities: 0, tags: 0 }
    }

    /// The gathered affinity mask.
    pub fn affinities(&self) -> (r: u32)
        ensures
            r == self.affinities_spec(),
    {
        self.affinities
    }

    /// The resolved tag word: bit `i + 16` is the tag of collider `i`.
    pub fn tags(&self) -> (r: u32)
        ensures
            r == self.tags_spec(),
    {
        self.tags
    }

    /// Folds one stencil node into the gather: its affinities join the
    /// particle's. The weighted tag sums that go with it are kept by the
    /// caller, who owns the floating-point arithmetic.
    pub fn interpolate_color(&mut self, node_cdf: GridCdfData)
        ensures
            final(self).affinities_spec() == old(self).affinities_spec() | (node_cdf.color_spec().0 & 0xFFFF),
            final(self).tags_spec() == old(self).tags_spec(),
    {
        self.affinities = self.affinities | node_cdf.color().affinities();
    }

    /// Resolves the tags from the weighted tag sums (binary32 bit patterns,
    /// one per collider): the tag of collider `i` is 1 (outside) when its sum
    /// is `>= 0`, else 0. Every other bit of the tag word is clear.
    pub fn compute_tags(&mut self, weighted_tags: &[u32; 16])
        ensures
            final(self).affinities_spec() == old(self).affinities_spec(),
            forall|i: u32| i < MAX_COLLIDERS ==> #[trigger] bit(final(self).tags_spec(), (i + 16) as u32)
                == is_nonnegative_bits(weighted_tags@[i as int]),
            forall|j: u32| j < 16 ==> !#[trigger] bit(final(self).tags_spec(), j),
    {
        let mut tags: u32 = 0;
        let mut i: u32 = 0;
        assert(forall|j: u32| j < 32 ==> !#[trigger] bit(0u32, j)) by (bit_vector);
        while i < 16
            invariant
                i <= 16,
                forall|k: u32| k < i ==> #[trigger] bit(tags, (k + 16) as u32) == is_nonnegative_bits(weighted_tags@[k as int]),
                forall|k: u32| i <= k < 16 ==> !#[trigger] bit(tags, (k + 16) as u32),
                forall|j: u32| j < 16 ==> !#[trigger] bit(tags, j),
            decreases 16 - i,
        {
            let w = weighted_tags[i as usize];
            let tag: u32 = if w <= 0x7F80_0000 || w == 0x8000_0000 { 1 } else { 0 };
            let old_tags = tags;
            tags = tags | (tag << (i + 16));
            proof {
                lemma_or_bit(old_tags, (i + 16) as u32, tag);
            }
            assert forall|k: u32| k < i + 1 implies #[trigger] bit(tags, (k + 16) as u32)
                == is_nonnegative_bits(weighted_tags@[k as int]) by {
                if k == i {
                    assert(bit(tags, (k + 16) as u32) == (tag == 1));
                }
            }
            i = i + 1;
        }
        self.tags = tags;
    }

    /// Whether a node's color agrees with the resolved tags: for every
    /// collider that both the node and the particle have an affinity to, the
    /// node's tag equals the particle's.
    pub fn is_compatible(&self, node_color: CdfColor) -> (r: bool)
        ensures
            r == forall|i: u32| i < MAX_COLLIDERS && bit(self.affinities_spec(), i) && #[trigger] node_color.has_affinity(i)
                ==> (node_color.has_tag(i) == bit(self.tags_spec(), (i + 16) as u32)),
    {
        let a = self.affinities;
        let t = self.tags;
        let w = node_color.0;
        let mut i: u32 = 0;
        while i < 16
            invariant
                i <= 16,
                a == self.affinities_spec(),
                t == self.tags_spec(),
                w == node_color.0,
                forall|k: u32| k < i && bit(a, k) && #[trigger] bit(w, k)
                    ==> (bit(w, (k + 16) as u32) == bit(t, (k + 16) as u32)),
            decreases 16 - i,
        {
            let s = i + 16;
            let shared = (1 & (a >> i)) == 1 && (1 & (w >> i)) == 1;
            let agree = (1 & (w >> s)) == (1 & (t >> s));
            assert(shared == (bit(a, i) && bit(w, i)) && agree == (bit(w, s) == bit(t, s))) by (bit_vector)
                requires
                    shared == ((1 & (a >> i)) == 1 && (1 & (w >> i)) == 1),
                    agree == ((1 & (w >> s)) == (1 & (t >> s))),
            ;
            if shared && !agree {
                assert(node_color.has_affinity(i));
                return false;
            }
            i = i + 1;
        }
        true
    }
}

impl Default for InterpolatedCdfData {
    fn default() -> (r: Self)
        ensures
            r.affinities_spec() == 0,
            r.tags_spec() == 0,
    {
        InterpolatedCdfData::new()
    }
}

proof fn lemma_or_bit(w: u32, s: u32, v: u32)
    requires
        s < 32,
        v <= 1,
        !bit(w, s),
    ensures
        forall|j: u32| j < 32 ==> #[trigger] bit(w | (v << s), j) == if j == s { v == 1 } else { bit(w, j) },
{
    assert(forall|j: u32| j < 32 ==> #[trigger] bit(w | (v << s), j) == if j == s { v == 1 } else { bit(w, j) })
        by (bit_vector)
        requires s < 32, v <= 1, !bit(w, s);
}

proof fn lemma_gathered_bits(a: u32, nodes: Seq<u32>)
    ensures
        forall|j: u32| j < 32 ==> #[trigger] bit(gather_affinities(a, nodes), j)
            == (bit(a, j) || (j < 16 && exists|k: int| 0 <= k < nodes.len() && bit(#[trigger] nodes[k], j))),
    decreases nodes.len(),
{
    if nodes.len() > 0 {
        let t = nodes.drop_last();
        let x = nodes.last();
        lemma_gathered_bits(a, t);
        let p = gather_affinities(a, t);
        assert(forall|j: u32| j < 32 ==> #[trigger] bit(p | (x & 0xFFFF), j) == (bit(p, j) || (j < 16 && bit(x, j))))
            by (bit_vector);
        assert forall|j: u32| j < 32 implies #[trigger] bit(gather_affinities(a, nodes), j)
            == (bit(a, j) || (j < 16 && exists|k: int| 0 <= k < nodes.len() && bit(#[trigger] nodes[k], j))) by {
            assert(nodes[t.len() as int] == x);
            if exists|k: int| 0 <= k < nodes.len() && bit(#[trigger] nodes[k], j) {
                let k = choose|k: int| 0 <= k < nodes.len() && bit(#[trigger] nodes[k], j);
                if k < t.len() {
                    assert(t[k] == nodes[k]);
                }
            }
            if exists|k: int| 0 <= k < t.len() && bit(#[trigger] t[k], j) {
                let k = choose|k: int| 0 <= k < t.len() && bit(#[trigger] t[k], j);
                assert(t[k] == nodes[k]);
            }
        }
    }
}

proof fn lemma_bits_equal(x: u32, y: u32)
    requires
        forall|j: u32| j < 32 ==> #[trigger] bit(x, j) == bit(y, j),
    ensures
        x == y,
{
    assert(bit(x, 0u32) == bit(y, 0u32));
    assert(bit(x, 1u32) == bit(y, 1u32));
    assert(bit(x, 2u32) == bit(y, 2u32));
    assert(bit(x, 3u32) == bit(y, 3u32));
    assert(bit(x, 4u32) == bit(y, 4u32));
    assert(bit(x, 5u32) == bit(y, 5u32));
    assert(bit(x, 6u32) == bit(y, 6u32));
    assert(bit(x, 7u32) == bit(y, 7u32));
    assert(bit(x, 8u32) == bit(y, 8u32));
    assert(bit(x, 9u32) == bit(y, 9u32));
    assert(bit(x, 10u32) == bit(y, 10u32));
    assert(bit(x, 11u32) == bit(y, 11u32));
    assert(bit(x, 12u32) == bit(y, 12u32));
    assert(bit(x, 13u32) == bit(y, 13u32));
    assert(bit(x, 14u32) == bit(y, 14u32));
    assert(bit(x, 15u32) == bit(y, 15u32));
    assert(bit(x, 16u32) == bit(y, 16u32));
    assert(bit(x, 17u32) == bit(y, 17u32));
    assert(bit(x, 18u32) == bit(y, 18u32));
    assert(bit(x, 19u32) == bit(y, 19u32));
    assert(bit(x, 20u32) == bit(y, 20u32));
    assert(bit(x, 21u32) == bit(y, 21u32));
    assert(bit(x, 22u32) == bit(y, 22u32));
    assert(bit(x, 23u32) == bit(y, 23u32));
    assert(bit(x, 24u32) == bit(y, 24u32));
    assert(bit(x, 25u32) == bit(y, 25u32));
    assert(bit(x, 26u32) == bit(y, 26u32));
    assert(bit(x, 27u32) == bit(y, 27u32));
    assert(bit(x, 28u32) == bit(y, 28u32));
    assert(bit(x, 29u32) == bit(y, 29u32));
    assert(bit(x, 30u32) == bit(y, 30u32));
    assert(bit(x, 31u32) == bit(y, 31u32));
    assert(x == y) by (bit_vector)
        requires
            bit(x, 0u32) == bit(y, 0u32) && bit(x, 1u32) == bit(y, 1u32) && bit(x, 2u32) == bit(y, 2u32) && bit(x, 3u32) == bit(y, 3u32) &&
            bit(x, 4u32) == bit(y, 4u32) && bit(x, 5u32) == bit(y, 5u32) && bit(x, 6u32) == bit(y, 6u32) && bit(x, 7u32) == bit(y, 7u32) &&
            bit(x, 8u32) == bit(y, 8u32) && bit(x, 9u32) == bit(y, 9u32) && bit(x, 10u32) == bit(y, 10u32) && bit(x, 11u32) == bit(y, 11u32) &&
            bit(x, 12u32) == bit(y, 12u32) && bit(x, 13u32) == bit(y, 13u32) && bit(x, 14u32) == bit(y, 14u32) && bit(x, 15u32) == bit(y, 15u32) &&
            bit(x, 16u32) == bit(y, 16u32) && bit(x, 17u32) == bit(y, 17u32) && bit(x, 18u32) == bit(y, 18u32) && bit(x, 19u32) == bit(y, 19u32) &&
            bit(x, 20u32) == bit(y, 20u32) && bit(x, 21u32) == bit(y, 21u32) && bit(x, 22u32) == bit(y, 22u32) && bit(x, 23u32) == bit(y, 23u32) &&
            bit(x, 24u32) == bit(y, 24u32) && bit(x, 25u32) == bit(y, 25u32) && bit(x, 26u32) == bit(y, 26u32) && bit(x, 27u32) == bit(y, 27u32) &&
            bit(x, 28u32) == bit(y, 28u32) && bit(x, 29u32) == bit(y, 29u32) && bit(x, 30u32) == bit(y, 30u32) && bit(x, 31u32) == bit(y, 31u32);
}

/// Gathering the same stencil nodes in any order gives the same affinity
/// mask: the result depends only on which color words were gathered.
pub proof fn lemma_gather_order_independent(a: u32, nodes1: Seq<u32>, nodes2: Seq<u32>)
    requires
        nodes1.to_multiset() == nodes2.to_multiset(),
    ensures
        gather_affinities(a, nodes1) == gather_affinities(a, nodes2),
{
    lemma_gathered_bits(a, nodes1);
    lemma_gathered_bits(a, nodes2);
    assert forall|j: u32| j < 32 implies #[trigger] bit(gather_affinities(a, nodes1), j)
        == bit(gather_affinities(a, nodes2), j) by {
        if exists|k: int| 0 <= k < nodes1.len() && bit(#[trigger] nodes1[k], j) {
            let k = choose|k: int| 0 <= k < nodes1.len() && bit(#[trigger] nodes1[k], j);
            let x = nodes1[k];
            assert(nodes1.contains(x));
            assert(nodes1.to_multiset().count(x) > 0);
            assert(nodes2.to_multiset().count(x) > 0);
            assert(nodes2.contains(x));
        }
        if exists|k: int| 0 <= k < nodes2.len() && bit(#[trigger] nodes2[k], j) {
            let k = choose|k: int| 0 <= k < nodes2.len() && bit(#[trigger] nodes2[k], j);
            let x = nodes2[k];
            assert(nodes2.contains(x));
            assert(nodes2.to_multiset().count(x) > 0);
            assert(nodes1.to_multiset().count(x) > 0);
            assert(nodes1.contains(x));
        }
    }
    lemma_bits_equal(gather_affinities(a, nodes1), gather_affinities(a, nodes2));
}

} // verus!
