use sparkl_cdf::color::CdfColor;
use sparkl_cdf::gather::InterpolatedCdfData;
use sparkl_cdf::grid::{rasterize, GridCdfData, NodeSample, INFINITE_DISTANCE};
use sparkl_cdf::lock::{LockTimeout, SpinLock};
use sparkl_cdf::particles::RigidParticle;

fn bits(x: f32) -> u32 {
    x.to_bits()
}

#[test]
fn color_new_sets_single_collider() {
    let c = CdfColor::new(1, 1, 3);
    assert_eq!(c.0, (1 << 3) | (1 << 19));
    assert_eq!(c.affinity(3), 1);
    assert_eq!(c.tag(3), 1);
    assert_eq!(c.affinity(2), 0);
    assert_eq!(c.tag(2), 0);
    let d = CdfColor::new(1, 0, 15);
    assert_eq!(d.0, 1 << 15);
    assert_eq!(d.tag(15), 0);
}

#[test]
fn color_set_affinity_is_idempotent() {
    let mut c = CdfColor(0);
    c.set_affinity(5);
    assert_eq!(c.0, 1 << 5);
    c.set_affinity(5);
    assert_eq!(c.0, 1 << 5);
    c.set_affinity(0);
    assert_eq!(c.affinities(), 0b100001);
}

#[test]
fn color_change_tag_clears_then_sets() {
    let mut c = CdfColor(0xFFFF_FFFF);
    c.change_tag(2, 0);
    assert_eq!(c.0, 0xFFFF_FFFF & !(1 << 18));
    assert_eq!(c.tag(2), 0);
    c.change_tag(2, 0);
    assert_eq!(c.tag(2), 0);
    c.change_tag(2, 1);
    assert_eq!(c.0, 0xFFFF_FFFF);
}

#[test]
fn color_affinities_keeps_low_half() {
    let c = CdfColor(0xABCD_1234);
    assert_eq!(c.affinities(), 0x1234);
}

#[test]
fn affinity_only_after_marking() {
    let mut c = CdfColor::new(1, 0, 4);
    for i in 0..16u32 {
        assert_eq!(c.affinity(i), if i == 4 { 1 } else { 0 });
    }
    c.change_tag(7, 1);
    assert_eq!(c.affinity(7), 0);
    c.set_affinity(7);
    assert_eq!(c.affinity(7), 1);
    let z = CdfColor::new(0, 1, 9);
    assert_eq!(z.affinity(9), 0);
}

#[test]
fn fresh_node_is_infinitely_far() {
    let n = GridCdfData::new();
    assert_eq!(n.unsigned_distance(), INFINITE_DISTANCE);
    assert_eq!(f32::from_bits(n.unsigned_distance()), f32::INFINITY);
    assert_eq!(n.color().0, 0);
    assert_eq!(GridCdfData::default().unsigned_distance(), INFINITE_DISTANCE);
}

#[test]
fn end_to_end_three_updates() {
    let mut n = GridCdfData::new();
    n.update(bits(1.0), 0, 0);
    n.update(bits(-0.5), 0, 1);
    n.update(bits(2.0), 1, 2);
    assert_eq!(f32::from_bits(n.unsigned_distance()), 0.5);
    assert_eq!(n.color().affinities(), 0b11);
    assert_eq!(n.color().tag(0), 0);
    assert_eq!(n.color().tag(1), 0);
    assert_eq!(n.color().affinity(1), 1);
}

#[test]
fn update_keeps_minimum_and_last_lowering_tag() {
    let mut n = GridCdfData::new();
    n.update(bits(3.0), 2, 0);
    assert_eq!(n.color().tag(2), 1);
    n.update(bits(-2.0), 5, 0);
    n.update(bits(-4.0), 2, 0);
    n.update(bits(1.5), 5, 0);
    assert_eq!(f32::from_bits(n.unsigned_distance()), 1.5);
    assert_eq!(n.color().tag(2), 1);
    assert_eq!(n.color().tag(5), 1);
    n.update(bits(-1.5), 5, 0);
    assert_eq!(n.color().tag(5), 1);
    assert_eq!(n.color().affinities(), (1 << 2) | (1 << 5));
}

#[test]
fn update_sign_edge_cases() {
    let mut n = GridCdfData::new();
    n.update(bits(f32::NAN), 3, 0);
    assert_eq!(n.unsigned_distance(), INFINITE_DISTANCE);
    assert_eq!(n.color().affinity(3), 1);
    assert_eq!(n.color().tag(3), 0);
    n.update(bits(-0.0), 4, 0);
    assert_eq!(n.unsigned_distance(), 0);
    assert_eq!(n.color().tag(4), 1);
    n.update(bits(-0.0), 6, 0);
    assert_eq!(n.color().tag(6), 0);
    assert_eq!(n.color().affinity(6), 1);
}

#[test]
fn many_writers_on_one_node_lose_nothing() {
    let mut grid = vec![GridCdfData::new(), GridCdfData::new()];
    let mut samples = Vec::new();
    let mut sequential = GridCdfData::new();
    for k in 0..64u32 {
        let d = if k % 2 == 0 { 10.0 - k as f32 * 0.125 } else { -(20.0 - k as f32 * 0.25) };
        let c = k % 16;
        samples.push(NodeSample { node: 1, signed_distance: bits(d), collider_index: c });
        sequential.update(bits(d), c, k);
    }
    rasterize(&mut grid, &samples);
    assert_eq!(grid[0].unsigned_distance(), INFINITE_DISTANCE);
    assert_eq!(grid[0].color().0, 0);
    assert_eq!(grid[1].unsigned_distance(), sequential.unsigned_distance());
    assert_eq!(grid[1].color().0, sequential.color().0);
    assert_eq!(grid[1].color().affinities(), 0xFFFF);
    assert_eq!(f32::from_bits(grid[1].unsigned_distance()), 10.0 - 62.0 * 0.125);
}

#[test]
fn compute_tags_zero_sums_are_outside() {
    let mut g = InterpolatedCdfData::new();
    g.compute_tags(&[0u32; 16]);
    assert_eq!(g.tags(), 0xFFFF_0000);
}

#[test]
fn compute_tags_by_sign() {
    let mut g = InterpolatedCdfData::new();
    let mut sums = [bits(1.0); 16];
    sums[0] = bits(-0.25);
    sums[7] = bits(-3.0);
    sums[9] = bits(-0.0);
    g.compute_tags(&sums);
    assert_eq!(g.tags(), 0xFFFF_0000 & !(1 << 16) & !(1 << 23));
}

#[test]
fn gather_order_does_not_matter() {
    let mut a = GridCdfData::new();
    a.update(bits(1.0), 0, 0);
    let mut b = GridCdfData::new();
    b.update(bits(-1.0), 3, 0);
    let mut c = GridCdfData::new();
    c.update(bits(2.0), 3, 0);
    c.update(bits(0.5), 9, 0);
    let mut g1 = InterpolatedCdfData::new();
    g1.interpolate_color(a);
    g1.interpolate_color(b);
    g1.interpolate_color(c);
    let mut g2 = InterpolatedCdfData::new();
    g2.interpolate_color(c);
    g2.interpolate_color(a);
    g2.interpolate_color(b);
    assert_eq!(g1.affinities(), g2.affinities());
    assert_eq!(g1.affinities(), (1 << 0) | (1 << 3) | (1 << 9));
    assert_eq!(g1.tags(), 0);
}

#[test]
fn compatibility_compares_shared_colliders() {
    let mut g = InterpolatedCdfData::new();
    let mut n = GridCdfData::new();
    n.update(bits(1.0), 2, 0);
    g.interpolate_color(n);
    let mut sums = [bits(-1.0); 16];
    sums[2] = bits(1.0);
    g.compute_tags(&sums);
    assert!(g.is_compatible(CdfColor::new(1, 1, 2)));
    assert!(!g.is_compatible(CdfColor::new(1, 0, 2)));
    assert!(g.is_compatible(CdfColor::new(1, 1, 4)));
    assert!(g.is_compatible(CdfColor::new(0, 0, 2)));
}

#[test]
fn spin_lock_times_out_when_held() {
    let lock = SpinLock::new();
    assert_eq!(lock.acquire(0), Err(LockTimeout { attempts: 0 }));
    assert_eq!(lock.acquire(3), Ok(0));
    assert_eq!(lock.acquire(5), Err(LockTimeout { attempts: 5 }));
    assert!(!lock.try_acquire());
    lock.release();
    assert!(lock.try_acquire());
    lock.release();
}

#[test]
fn rigid_particle_default_is_zeroed() {
    let p = RigidParticle::default();
    assert_eq!(p.position, [0, 0, 0]);
    assert_eq!(p.collider_index, 0);
    let q = RigidParticle { position: [bits(1.0), 0, 0], collider_index: 3, segment_or_triangle_index: 7, color_index: 1 };
    assert_ne!(p, q);
}
