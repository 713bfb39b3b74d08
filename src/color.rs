use vstd::prelude::*;

verus! {

/// Number of colliders a packed color can describe.
pub const MAX_COLLIDERS: u32 = 16;

/// Bit offset of the tag half of a packed color.
pub const TAG_OFFSET: u32 = 16;

/// Whether bit `i` of `w` is set.
pub open spec fn bit(w: u32, i: u32) -> bool {
    (w >> i) & 1 == 1
}

/// A 32-bit packed color: bit `i` of the low half is the affinity to collider
/// `i`, bit `i` of the high half its inside (0) / outside (1) tag.
#[derive(Clone, Copy, Debug, Default)]
pub struct CdfColor(pub u32);

impl CdfColor {
    /// Whether the color records an affinity to collider `i`.
    pub open spec fn has_affinity(self, i: u32) -> bool {
        bit(self.0, i)
    }

    /// The tag recorded for collider `i`, as a bool (true: outside).
    pub open spec fn has_tag(self, i: u32) -> bool {
        bit(self.0, (i + TAG_OFFSET) as u32)
    }

    /// A color with only collider `collider_index`'s affinity and tag bits
    /// taken from `affinity` and `tag`.
    pub fn new(affinity: u32, tag: u32, collider_index: u32) -> (r: Self)
        requires
            affinity <= 1,
            tag <= 1,
            collider_index < MAX_COLLIDERS,
        ensures
            r.0 == (affinity << collider_index) | (tag << ((collider_index + 16) as u32)),
            r.has_affinity(collider_index) == (affinity == 1),
            r.has_tag(collider_index) == (tag == 1),
            forall|j: u32| j < 16 && j != collider_index ==> !(#[trigger] r.has_affinity(j)) && !r.has_tag(j),
    {
        let w = (affinity << collider_index) | (tag << (collider_index + 16));
        assert(bit(w, collider_index) == (affinity == 1)
            && bit(w, (collider_index + 16) as u32) == (tag == 1)
            && forall|j: u32| j < 16 && j != collider_index ==> !#[trigger] bit(w, j) && !bit(w, (j + 16) as u32))
            by (bit_vector)
            requires affinity <= 1, tag <= 1, collider_index < 16,
                w == (affinity << collider_index) | (tag << ((collider_index + 16) as u32));
        let r = CdfColor(w);
        r
    }

    /// The affinity bit of collider `collider_index` (0 or 1).
    pub fn affinity(&self, collider_index: u32) -> (r: u32)
        requires
            collider_index < MAX_COLLIDERS,
        ensures
            r == 1 & (self.0 >> collider_index),
            r <= 1,
            r == 1 <==> self.has_affinity(collider_index),
    {
        let w = self.0;
        assert(1 & (w >> collider_index) <= 1 && ((1 & (w >> collider_index) == 1) <==> bit(w, collider_index)))
            by (bit_vector);
        1 & (self.0 >> collider_index)
    }

    /// The tag bit of collider `collider_index` (0 or 1); it means something
    /// only where the affinity bit is set.
    pub fn tag(&self, collider_index: u32) -> (r: u32)
        requires
            collider_index < MAX_COLLIDERS,
        ensures
            r == 1 & (self.0 >> ((collider_index + 16) as u32)),
            r <= 1,
            r == 1 <==> self.has_tag(collider_index),
    {
        let w = self.0;
        let s = collider_index + 16;
        assert(1 & (w >> s) <= 1 && ((1 & (w >> s) == 1) <==> bit(w, s))) by (bit_vector);
        1 & (self.0 >> (collider_index + 16))
    }

    /// Marks the affinity to collider `collider_index`; every other bit stays.
    pub fn set_affinity(&mut self, collider_index: u32)
        requires
            collider_index < MAX_COLLIDERS,
        ensures
            final(self).0 == old(self).0 | (1u32 << collider_index),
            final(self).has_affinity(collider_index),
            forall|j: u32| j < 32 && j != collider_index ==> bit(#[trigger] final(self).0, j) == bit(old(self).0, j),
    {
        let w = self.0;
        assert(bit(w | (1u32 << collider_index), collider_index)
            && forall|j: u32| j < 32 && j != collider_index ==> #[trigger] bit(w | (1u32 << collider_index), j) == bit(w, j))
            by (bit_vector)
            requires collider_index < 16;
        self.0 = self.0 | (1u32 << collider_index);
    }

    /// Sets the tag bit of collider `collider_index` to `value`; every other
    /// bit stays.
    pub fn change_tag(&mut self, collider_index: u32, value: u32)
        requires
            collider_index < MAX_COLLIDERS,
            value <= 1,
        ensures
            final(self).0 == old(self).0 & !(1u32 << ((collider_index + 16) as u32)) | (value << ((collider_index + 16) as u32)),
            final(self).has_tag(collider_index) == (value == 1),
            forall|j: u32| j < 32 && j != collider_index + 16 ==> bit(#[trigger] final(self).0, j) == bit(old(self).0, j),
    {
        let offset = collider_index + 16;
        let w = self.0;
        let nw = w & !(1u32 << offset) | (value << offset);
        assert(bit(nw, offset) == (value == 1)
            && forall|j: u32| j < 32 && j != offset ==> #[trigger] bit(nw, j) == bit(w, j))
            by (bit_vector)
            requires offset < 32, value <= 1, nw == w & !(1u32 << offset) | (value << offset);
        self.0 = nw;
    }

    /// The full affinity mask (the low half of the color).
    pub fn affinities(&self) -> (r: u32)
        ensures
            r == self.0 & 0xFFFF,
            forall|j: u32| j < 16 ==> bit(r, j) == #[trigger] self.has_affinity(j),
            forall|j: u32| 16 <= j < 32 ==> !#[trigger] bit(r, j),
    {
        let w = self.0;
        assert((forall|j: u32| j < 16 ==> #[trigger] bit(w & 0xFFFF, j) == bit(w, j))
            && forall|j: u32| 16 <= j < 32 ==> !#[trigger] bit(w & 0xFFFF, j)) by (bit_vector);
        self.0 & 0xFFFF
    }
}

/// The color word after one operation `op`: `(true, i, _)` is
/// `set_affinity(i)`, `(false, i, v)` is `change_tag(i, v)`.
pub open spec fn after_color_op(w: u32, op: (bool, u32, u32)) -> u32 {
    if op.0 {
        w | (1u32 << op.1)
    } else {
        w & !(1u32 << ((op.1 + 16) as u32)) | (op.2 << ((op.1 + 16) as u32))
    }
}

/// The color word after the operations `ops`, applied in order to `w`.
pub open spec fn run_color_ops(w: u32, ops: Seq<(bool, u32, u32)>) -> u32
    decreases ops.len(),
{
    if ops.len() == 0 {
        w
    } else {
        after_color_op(run_color_ops(w, ops.drop_last()), ops.last())
    }
}

/// A color made by `new(affinity, tag, c)` and then changed by any sequence
/// of `set_affinity` and `change_tag` calls has the affinity to collider `i`
/// exactly when `new` was given `i` with affinity 1 or `set_affinity(i)` was
/// among the calls.
pub proof fn lemma_affinity_iff_marked(affinity: u32, tag: u32, c: u32, ops: Seq<(bool, u32, u32)>)
    requires
        affinity <= 1,
        tag <= 1,
        c < MAX_COLLIDERS,
        forall|k: int| 0 <= k < ops.len() ==> (#[trigger] ops[k]).1 < MAX_COLLIDERS && ops[k].2 <= 1,
    ensures
        forall|i: u32| i < MAX_COLLIDERS ==> (#[trigger] bit(
            run_color_ops((affinity << c) | (tag << ((c + 16) as u32)), ops), i)
            <==> (affinity == 1 && i == c) || exists|k: int| 0 <= k < ops.len() && (#[trigger] ops[k]).0 && ops[k].1 == i),
    decreases ops.len(),
{
    let w0 = (affinity << c) | (tag << ((c + 16) as u32));
    if ops.len() == 0 {
        assert(forall|i: u32| i < 16 ==> #[trigger] bit(w0, i) == (affinity == 1 && i == c)) by (bit_vector)
            requires affinity <= 1, tag <= 1, c < 16, w0 == (affinity << c) | (tag << ((c + 16) as u32));
    } else {
        let t = ops.drop_last();
        let op = ops.last();
        let n = t.len() as int;
        assert forall|k: int| 0 <= k < t.len() implies (#[trigger] t[k]).1 < MAX_COLLIDERS && t[k].2 <= 1 by {
            assert(t[k] == ops[k]);
        }
        lemma_affinity_iff_marked(affinity, tag, c, t);
        let p = run_color_ops(w0, t);
        let q = run_color_ops(w0, ops);
        assert(ops[n] == op);
        let oi = op.1;
        let ov = op.2;
        assert(forall|j: u32| j < 16 ==> #[trigger] bit(p | (1u32 << oi), j) == (j == oi || bit(p, j))) by (bit_vector)
            requires oi < 16;
        assert(forall|j: u32| j < 16 ==> #[trigger] bit(p & !(1u32 << ((oi + 16) as u32)) | (ov << ((oi + 16) as u32)), j) == bit(p, j))
            by (bit_vector)
            requires oi < 16, ov <= 1;
        assert forall|i: u32| i < MAX_COLLIDERS implies (#[trigger] bit(q, i)
            <==> (affinity == 1 && i == c) || exists|k: int| 0 <= k < ops.len() && (#[trigger] ops[k]).0 && ops[k].1 == i) by {
            if exists|k: int| 0 <= k < ops.len() && (#[trigger] ops[k]).0 && ops[k].1 == i {
                let k = choose|k: int| 0 <= k < ops.len() && (#[trigger] ops[k]).0 && ops[k].1 == i;
                if k < n {
                    assert(t[k] == ops[k]);
                }
            }
            if exists|k: int| 0 <= k < t.len() && (#[trigger] t[k]).0 && t[k].1 == i {
                let k = choose|k: int| 0 <= k < t.len() && (#[trigger] t[k]).0 && t[k].1 == i;
                assert(t[k] == ops[k]);
            }
        }
    }
}

} // verus!
