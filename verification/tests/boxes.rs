//! Boxes along the axes.
use glam::{Quat, Vec3};
use lbr::aabb::Aabb;
use lbr::mesh::Float3;

fn point(v: Vec3) -> Float3 {
    Float3 { x: v.x.to_bits(), y: v.y.to_bits(), z: v.z.to_bits() }
}

fn vector(p: Float3) -> Vec3 {
    Vec3::new(f32::from_bits(p.x), f32::from_bits(p.y), f32::from_bits(p.z))
}

fn from_half_extents(center: Vec3, half: Vec3) -> Aabb {
    Aabb::new(point(center - half), point(center + half))
}

fn half_extents(b: Aabb) -> Vec3 {
    (vector(b.max) - vector(b.min)) * 0.5
}

#[test]
fn empty_contains_nothing_and_intersects_nothing() {
    let empty = Aabb::empty();
    assert!(empty.is_empty());
    assert!(!empty.contains(point(Vec3::ZERO)));
    assert!(!empty.intersects(&from_half_extents(Vec3::ZERO, Vec3::ONE)));
}

#[test]
fn contains_is_inclusive_on_boundary() {
    let aabb = from_half_extents(Vec3::ZERO, Vec3::ONE);
    assert!(aabb.contains(point(Vec3::ZERO)));
    assert!(aabb.contains(point(Vec3::new(1.0, 1.0, 1.0))));
    assert!(!aabb.contains(point(Vec3::new(1.01, 0.0, 0.0))));
}

#[test]
fn intersects_axis_separated() {
    let a = from_half_extents(Vec3::ZERO, Vec3::ONE);
    let touching = from_half_extents(Vec3::new(2.0, 0.0, 0.0), Vec3::ONE);
    let apart = from_half_extents(Vec3::new(2.1, 0.0, 0.0), Vec3::ONE);
    assert!(a.intersects(&touching));
    assert!(!a.intersects(&apart));
}

#[test]
fn transformed_rotated_box_grows() {
    let local = from_half_extents(Vec3::ZERO, Vec3::ONE);
    let turn = Quat::from_rotation_y(std::f32::consts::FRAC_PI_4);
    let world = local.transformed_by(|p: Float3| point(turn * vector(p)));
    let diagonal = 2.0_f32.sqrt();
    assert!((half_extents(world).x - diagonal).abs() < 1e-4);
    assert!((half_extents(world).z - diagonal).abs() < 1e-4);
    assert!((half_extents(world).y - 1.0).abs() < 1e-6);
}

#[test]
fn from_points_tracks_min_max() {
    let aabb = Aabb::from_points(&vec![
        point(Vec3::new(1.0, -2.0, 3.0)),
        point(Vec3::new(-4.0, 5.0, 0.5)),
        point(Vec3::new(2.0, 2.0, -3.0)),
    ]);
    assert_eq!(vector(aabb.min), Vec3::new(-4.0, -2.0, -3.0));
    assert_eq!(vector(aabb.max), Vec3::new(2.0, 5.0, 3.0));
}

#[test]
fn zeros_of_both_signs_are_one_point() {
    let flat = from_half_extents(Vec3::ZERO, Vec3::ZERO);
    assert!(flat.contains(point(-Vec3::ZERO)));
    assert!(!flat.contains(point(Vec3::splat(f32::NAN))));
    assert!(!flat.is_empty());
    assert_eq!(Aabb::from_points(&vec![]), Aabb::empty());
}

#[test]
fn corners_are_taken_in_turn() {
    let b = Aabb::new(point(Vec3::ZERO), point(Vec3::ONE));
    let seen = std::cell::RefCell::new(Vec::new());
    let same = b.transformed_by(|p| {
        seen.borrow_mut().push(vector(p).to_array());
        p
    });
    assert_eq!(same, b);
    assert_eq!(
        seen.into_inner(),
        vec![
            [0.0, 0.0, 0.0],
            [1.0, 0.0, 0.0],
            [0.0, 1.0, 0.0],
            [0.0, 0.0, 1.0],
            [1.0, 1.0, 0.0],
            [1.0, 0.0, 1.0],
            [0.0, 1.0, 1.0],
            [1.0, 1.0, 1.0],
        ]
    );
}
