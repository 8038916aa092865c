//! Boxes along the axes.
use crate::mesh::{Float3, Mesh, Vertex};
use crate::number::{at_most, is_nan, less, number_at_most, number_less};
use vstd::prelude::*;

verus! {

/// The bit pattern of infinity.
pub const INFINITY: u32 = 0x7f80_0000;

/// The bit pattern of infinity below zero.
pub const NEG_INFINITY: u32 = 0xff80_0000;

/// A box, by two opposite corners.
#[derive(Clone, Copy, Debug, PartialEq, Eq, Structural)]
pub struct Aabb {
    pub min: Float3,
    pub max: Float3,
}

/// The first of two numbers, if it is less, else the second.
pub open spec fn lesser(a: u32, b: u32) -> u32 {
    if less(a, b) {
        a
    } else {
        b
    }
}

/// The first of two numbers, if it is greater, else the second.
pub open spec fn greater(a: u32, b: u32) -> u32 {
    if less(b, a) {
        a
    } else {
        b
    }
}

/// Every coordinate of the first point is at most that of the second.
pub open spec fn all_at_most(a: Float3, b: Float3) -> bool {
    at_most(a.x, b.x) && at_most(a.y, b.y) && at_most(a.z, b.z)
}

/// All coordinates are numbers.
pub open spec fn is_point(p: Float3) -> bool {
    !is_nan(p.x) && !is_nan(p.y) && !is_nan(p.z)
}

impl Aabb {
    /// The box without any point.
    pub open spec fn nothing() -> Aabb {
        Aabb {
            min: Float3 { x: INFINITY, y: INFINITY, z: INFINITY },
            max: Float3 { x: NEG_INFINITY, y: NEG_INFINITY, z: NEG_INFINITY },
        }
    }

    /// The box with one more point.
    pub open spec fn grown(self, p: Float3) -> Aabb {
        Aabb {
            min: Float3 {
                x: lesser(self.min.x, p.x),
                y: lesser(self.min.y, p.y),
                z: lesser(self.min.z, p.z),
            },
            max: Float3 {
                x: greater(self.max.x, p.x),
                y: greater(self.max.y, p.y),
                z: greater(self.max.z, p.z),
            },
        }
    }

    /// The point is in the box or on its surface.
    pub open spec fn holds(self, p: Float3) -> bool {
        all_at_most(self.min, p) && all_at_most(p, self.max)
    }

    /// Both boxes have a point in common.
    pub open spec fn meets(self, other: Aabb) -> bool {
        all_at_most(self.min, other.max) && all_at_most(other.min, self.max)
    }

    /// Along some axis the box is turned inside out.
    pub open spec fn hollow(self) -> bool {
        less(self.max.x, self.min.x) || less(self.max.y, self.min.y) || less(
            self.max.z,
            self.min.z,
        )
    }

    /// Corner `i` of the box: first that of the lesser coordinates, then those with one greater
    /// coordinate, those with two, and that of the greater ones.
    pub open spec fn corner(self, i: int) -> Float3 {
        Float3 {
            x: if i == 1 || i == 4 || i == 5 || i == 7 {
                self.max.x
            } else {
                self.min.x
            },
            y: if i == 2 || i == 4 || i == 6 || i == 7 {
                self.max.y
            } else {
                self.min.y
            },
            z: if i == 3 || i == 5 || i == 6 || i == 7 {
                self.max.z
            } else {
                self.min.z
            },
        }
    }
}

/// The smallest box around points.
pub open spec fn enclosing(points: Seq<Float3>) -> Aabb
    decreases points.len(),
{
    if points.len() == 0 {
        Aabb::nothing()
    } else {
        enclosing(points.drop_last()).grown(points.last())
    }
}

/// The box is the smallest around the images of the corners of another.
pub open spec fn encloses_images<F: Fn(Float3) -> Float3>(b: Aabb, map: F, r: Aabb) -> bool {
    exists|images: Seq<Float3>| #[trigger]
        images_of_corners(b, map, images) && r == enclosing(images)
}

/// The images of the corners of a box.
pub open spec fn images_of_corners<F: Fn(Float3) -> Float3>(
    b: Aabb,
    map: F,
    images: Seq<Float3>,
) -> bool {
    &&& images.len() == 8
    &&& forall|i: int| 0 <= i < 8 ==> call_ensures(map, (b.corner(i),), #[trigger] images[i])
}

fn pick_lesser(a: u32, b: u32) -> (r: u32)
    ensures
        r == lesser(a, b),
{
    if number_less(a, b) {
        a
    } else {
        b
    }
}

fn pick_greater(a: u32, b: u32) -> (r: u32)
    ensures
        r == greater(a, b),
{
    if number_less(b, a) {
        a
    } else {
        b
    }
}

fn points_at_most(a: Float3, b: Float3) -> (r: bool)
    ensures
        r == all_at_most(a, b),
{
    number_at_most(a.x, b.x) && number_at_most(a.y, b.y) && number_at_most(a.z, b.z)
}

impl Aabb {
    /// The box without any point.
    pub fn empty() -> (b: Aabb)
        ensures
            b == Aabb::nothing(),
    {
        Aabb {
            min: Float3 { x: INFINITY, y: INFINITY, z: INFINITY },
            max: Float3 { x: NEG_INFINITY, y: NEG_INFINITY, z: NEG_INFINITY },
        }
    }

    /// The box between two opposite corners.
    pub fn new(min: Float3, max: Float3) -> (b: Aabb)
        ensures
            b.min == min,
            b.max == max,
    {
        Aabb { min, max }
    }

    fn grow(self, p: Float3) -> (b: Aabb)
        ensures
            b == self.grown(p),
    {
        Aabb {
            min: Float3 {
                x: pick_lesser(self.min.x, p.x),
                y: pick_lesser(self.min.y, p.y),
                z: pick_lesser(self.min.z, p.z),
            },
            max: Float3 {
                x: pick_greater(self.max.x, p.x),
                y: pick_greater(self.max.y, p.y),
                z: pick_greater(self.max.z, p.z),
            },
        }
    }

    /// The smallest box around points.
    pub fn from_points(points: &Vec<Float3>) -> (b: Aabb)
        ensures
            b == enclosing(points@),
    {
        let mut b = Aabb::empty();
        let mut i: usize = 0;
        while i < points.len()
            invariant
                i <= points@.len(),
                b == enclosing(points@.take(i as int)),
            decreases points@.len() - i,
        {
            proof {
                assert(points@.take(i + 1).drop_last() =~= points@.take(i as int));
            }
            b = b.grow(points[i]);
            i += 1;
        }
        proof {
            assert(points@.take(i as int) =~= points@);
        }
        b
    }

    /// Whether the box is turned inside out along some axis, as the empty one is.
    pub fn is_empty(&self) -> (r: bool)
        ensures
            r == self.hollow(),
    {
        number_less(self.max.x, self.min.x) || number_less(self.max.y, self.min.y) || number_less(
            self.max.z,
            self.min.z,
        )
    }

    /// Whether the point is in the box or on its surface.
    pub fn contains(&self, point: Float3) -> (r: bool)
        ensures
            r == self.holds(point),
    {
        points_at_most(self.min, point) && points_at_most(point, self.max)
    }

    /// Whether the boxes have a point in common, on their surfaces too.
    pub fn intersects(&self, other: &Aabb) -> (r: bool)
        ensures
            r == self.meets(*other),
    {
        points_at_most(self.min, other.max) && points_at_most(other.min, self.max)
    }

    /// Corner `i` of the box.
    pub(crate) fn pick_corner(&self, i: u32) -> (p: Float3)
        ensures
            p == self.corner(i as int),
    {
        Float3 {
            x: if i == 1 || i == 4 || i == 5 || i == 7 {
                self.max.x
            } else {
                self.min.x
            },
            y: if i == 2 || i == 4 || i == 6 || i == 7 {
                self.max.y
            } else {
                self.min.y
            },
            z: if i == 3 || i == 5 || i == 6 || i == 7 {
                self.max.z
            } else {
                self.min.z
            },
        }
    }

    /// The smallest box around what `map` makes of the corners.
    pub fn transformed_by<F: Fn(Float3) -> Float3>(&self, map: F) -> (r: Aabb)
        requires
            forall|p: Float3| call_requires(map, (p,)),
        ensures
            encloses_images(*self, map, r),
    {
        let mut images: Vec<Float3> = Vec::new();
        let mut i: u32 = 0;
        while i < 8
            invariant
                i <= 8,
                images@.len() == i,
                forall|p: Float3| call_requires(map, (p,)),
                forall|j: int|
                    0 <= j < i ==> call_ensures(map, (self.corner(j),), #[trigger] images@[j]),
            decreases 8 - i,
        {
            let p = self.pick_corner(i);
            images.push(map(p));
            i += 1;
        }
        proof {
            assert(images_of_corners(*self, map, images@));
        }
        Aabb::from_points(&images)
    }
}

/// The positions of the corners of a mesh.
pub open spec fn positions(mesh: Mesh) -> Seq<Float3> {
    mesh.vertices@.map_values(|v: Vertex| v.position)
}

impl Mesh {
    /// The smallest box around the mesh.
    pub fn bounds(&self) -> (b: Aabb)
        ensures
            b == enclosing(positions(*self)),
    {
        let mut points: Vec<Float3> = Vec::new();
        let mut i: usize = 0;
        while i < self.vertices.len()
            invariant
                i <= self.vertices@.len(),
                points@ =~= positions(*self).take(i as int),
            decreases self.vertices@.len() - i,
        {
            points.push(self.vertices[i].position);
            i += 1;
        }
        proof {
            assert(positions(*self).take(i as int) =~= positions(*self));
        }
        Aabb::from_points(&points)
    }
}

/// The empty box is empty, holds no point and meets no box that ends before infinity.
pub proof fn nothing_is_in_the_empty_box(p: Float3, b: Aabb)
    ensures
        Aabb::nothing().hollow(),
        !Aabb::nothing().holds(p),
        less(b.max.x, INFINITY) ==> !Aabb::nothing().meets(b),
{
}

/// Meeting goes both ways, and boxes with a point in common meet.
pub proof fn boxes_with_a_common_point_meet(a: Aabb, b: Aabb, p: Float3)
    ensures
        a.meets(b) <==> b.meets(a),
        a.holds(p) && b.holds(p) ==> a.meets(b),
{
}

/// The box around points holds each of them, if all are numbers, and lies in every box that does.
pub proof fn enclosing_is_tight(points: Seq<Float3>, other: Aabb)
    requires
        forall|i: int| 0 <= i < points.len() ==> is_point(#[trigger] points[i]),
    ensures
        is_point(enclosing(points).min),
        is_point(enclosing(points).max),
        forall|i: int| 0 <= i < points.len() ==> enclosing(points).holds(#[trigger] points[i]),
        points.len() > 0 && (forall|i: int|
            0 <= i < points.len() ==> other.holds(#[trigger] points[i])) ==> all_at_most(
            other.min,
            enclosing(points).min,
        ) && all_at_most(enclosing(points).max, other.max),
    decreases points.len(),
{
    if points.len() > 0 {
        let rest = points.drop_last();
        assert forall|i: int| 0 <= i < rest.len() implies is_point(#[trigger] rest[i]) by {
            assert(rest[i] == points[i]);
        }
        enclosing_is_tight(rest, other);
        let inner = enclosing(rest);
        let b = enclosing(points);
        assert(is_point(points[points.len() - 1]));
        assert(all_at_most(b.min, inner.min) && all_at_most(inner.max, b.max));
        assert forall|i: int| 0 <= i < points.len() implies b.holds(#[trigger] points[i]) by {
            if i < rest.len() {
                assert(inner.holds(rest[i]));
            }
        }
        if forall|i: int| 0 <= i < points.len() ==> other.holds(#[trigger] points[i]) {
            assert(other.holds(points[points.len() - 1]));
            assert forall|i: int| 0 <= i < rest.len() implies other.holds(#[trigger] rest[i]) by {
                assert(rest[i] == points[i]);
            }
        }
    }
}

/// A box holds a point exactly where each of the three coordinates of the point lies between
/// those of the two corners.
pub proof fn holding_is_by_every_axis(b: Aabb, p: Float3)
    ensures
        b.holds(p) <==> {
            &&& at_most(b.min.x, p.x) && at_most(p.x, b.max.x)
            &&& at_most(b.min.y, p.y) && at_most(p.y, b.max.y)
            &&& at_most(b.min.z, p.z) && at_most(p.z, b.max.z)
        },
{
}

/// Boxes that meet have a point in common: where neither is turned inside out and all coordinates
/// are numbers, some point is in both.
pub proof fn boxes_that_meet_have_a_common_point(a: Aabb, b: Aabb)
    requires
        is_point(a.min),
        is_point(a.max),
        is_point(b.min),
        is_point(b.max),
        !a.hollow(),
        !b.hollow(),
    ensures
        a.meets(b) ==> exists|p: Float3| #[trigger] a.holds(p) && b.holds(p),
{
    if a.meets(b) {
        let p = Float3 {
            x: greater(a.min.x, b.min.x),
            y: greater(a.min.y, b.min.y),
            z: greater(a.min.z, b.min.z),
        };
        assert(a.holds(p) && b.holds(p));
    }
}

/// Boxes that are apart along any one axis do not meet, and boxes that overlap along all three do.
pub proof fn boxes_apart_along_an_axis_do_not_meet(a: Aabb, b: Aabb)
    ensures
        less(a.max.x, b.min.x) || less(b.max.x, a.min.x) ==> !a.meets(b),
        less(a.max.y, b.min.y) || less(b.max.y, a.min.y) ==> !a.meets(b),
        less(a.max.z, b.min.z) || less(b.max.z, a.min.z) ==> !a.meets(b),
        at_most(a.min.x, b.max.x) && at_most(b.min.x, a.max.x) && at_most(a.min.y, b.max.y)
            && at_most(b.min.y, a.max.y) && at_most(a.min.z, b.max.z) && at_most(
            b.min.z,
            a.max.z,
        ) ==> a.meets(b),
{
}

/// A box is hollow exactly where it holds no point, if its coordinates are numbers: its corners
/// are in the wrong order along some axis.
pub proof fn hollow_boxes_hold_no_point(b: Aabb, p: Float3)
    ensures
        b.hollow() ==> !b.holds(p),
        is_point(b.min) && is_point(b.max) && !b.hollow() ==> b.holds(b.min) && b.holds(b.max),
        b.hollow() <==> less(b.max.x, b.min.x) || less(b.max.y, b.min.y) || less(
            b.max.z,
            b.min.z,
        ),
{
}

/// The eight corners of a box are all ways to take each coordinate from one corner or the other:
/// first none from the greater one, then one, then two, then all.
pub proof fn corners_take_every_coordinate(b: Aabb)
    ensures
        b.corner(0) == b.min,
        b.corner(1) == (Float3 { x: b.max.x, ..b.min }),
        b.corner(2) == (Float3 { y: b.max.y, ..b.min }),
        b.corner(3) == (Float3 { z: b.max.z, ..b.min }),
        b.corner(4) == (Float3 { z: b.min.z, ..b.max }),
        b.corner(5) == (Float3 { y: b.min.y, ..b.max }),
        b.corner(6) == (Float3 { x: b.min.x, ..b.max }),
        b.corner(7) == b.max,
{
}

/// The box around points: that around none is empty, and one more point moves the corners just as
/// far as needed, coordinate by coordinate. A coordinate that is no number takes the place of what
/// was there, and any number takes its place in turn.
pub proof fn boxes_grow_by_coordinate(points: Seq<Float3>, p: Float3)
    ensures
        enclosing(Seq::<Float3>::empty()) == (Aabb {
            min: Float3 { x: 0x7f80_0000, y: 0x7f80_0000, z: 0x7f80_0000 },
            max: Float3 { x: 0xff80_0000, y: 0xff80_0000, z: 0xff80_0000 },
        }),
        ({
            let old_box = enclosing(points);
            let new_box = enclosing(points.push(p));
            &&& new_box.min.x == (if less(old_box.min.x, p.x) {
                old_box.min.x
            } else {
                p.x
            })
            &&& new_box.min.y == (if less(old_box.min.y, p.y) {
                old_box.min.y
            } else {
                p.y
            })
            &&& new_box.min.z == (if less(old_box.min.z, p.z) {
                old_box.min.z
            } else {
                p.z
            })
            &&& new_box.max.x == (if less(p.x, old_box.max.x) {
                old_box.max.x
            } else {
                p.x
            })
            &&& new_box.max.y == (if less(p.y, old_box.max.y) {
                old_box.max.y
            } else {
                p.y
            })
            &&& new_box.max.z == (if less(p.z, old_box.max.z) {
                old_box.max.z
            } else {
                p.z
            })
        }),
{
    assert(points.push(p).drop_last() =~= points);
}

/// The box around a mesh is that around the positions of all its corners.
pub proof fn mesh_boxes_are_around_positions(mesh: Mesh)
    ensures
        positions(mesh).len() == mesh.vertices@.len(),
        forall|i: int|
            0 <= i < mesh.vertices@.len() ==> #[trigger] positions(mesh)[i]
                == mesh.vertices@[i].position,
{
}

/// A moved box holds where each corner went, if those are numbers.
pub proof fn moved_boxes_hold_the_moved_corners<F: Fn(Float3) -> Float3>(
    b: Aabb,
    map: F,
    r: Aabb,
    i: int,
)
    requires
        encloses_images(b, map, r),
        forall|p: Float3, q: Float3| call_ensures(map, (p,), q) ==> is_point(q),
        0 <= i < 8,
    ensures
        exists|q: Float3| #[trigger] call_ensures(map, (b.corner(i),), q) && r.holds(q),
{
    let images = choose|images: Seq<Float3>| #[trigger]
        images_of_corners(b, map, images) && r == enclosing(images);
    assert forall|j: int| 0 <= j < images.len() implies is_point(#[trigger] images[j]) by {
        assert(call_ensures(map, (b.corner(j),), images[j]));
    }
    enclosing_is_tight(images, r);
    assert(call_ensures(map, (b.corner(i),), images[i]));
    assert(r.holds(images[i]));
}

/// What `intersects` answers of two boxes with points: yes exactly where some point is in both.
pub proof fn intersecting_boxes_share_a_point(a: &Aabb, b: &Aabb, r: bool)
    requires
        call_ensures(Aabb::intersects, (a, b), r),
        !a.hollow(),
        !b.hollow(),
        is_point(a.min) && is_point(a.max) && is_point(b.min) && is_point(b.max),
    ensures
        r <==> exists|p: Float3|
            #![trigger is_point(p)]
            is_point(p) && at_most(a.min.x, p.x) && at_most(p.x, a.max.x) && at_most(b.min.x, p.x)
                && at_most(p.x, b.max.x) && at_most(a.min.y, p.y) && at_most(p.y, a.max.y)
                && at_most(b.min.y, p.y) && at_most(p.y, b.max.y) && at_most(a.min.z, p.z)
                && at_most(p.z, a.max.z) && at_most(b.min.z, p.z) && at_most(p.z, b.max.z),
{
    if r {
        let x = if at_most(a.min.x, b.min.x) {
            b.min.x
        } else {
            a.min.x
        };
        let y = if at_most(a.min.y, b.min.y) {
            b.min.y
        } else {
            a.min.y
        };
        let z = if at_most(a.min.z, b.min.z) {
            b.min.z
        } else {
            a.min.z
        };
        let p = Float3 { x, y, z };
        assert(is_point(p));
    }
}

} // verus!
