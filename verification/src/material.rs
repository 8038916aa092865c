//! Surfaces of objects.
use crate::handle::Handle;
use crate::mesh::Float4;
use crate::number::{equal_numbers, same_number, ONE};
use vstd::prelude::*;

verus! {

/// The surface of an object: base colour, metalness and roughness, and the textures for them.
#[derive(Clone, Copy, Debug)]
pub struct Material {
    pub base_color: Float4,
    pub base_color_texture: Option<Handle>,
    pub metallic_factor: u32,
    pub roughness_factor: u32,
    pub metallic_roughness_texture: Option<Handle>,
    pub normal_texture: Option<Handle>,
}

/// The textures that are there, in order.
pub open spec fn present(list: Seq<Option<Handle>>) -> Seq<Handle>
    decreases list.len(),
{
    if list.len() == 0 {
        seq![]
    } else {
        match list.last() {
            Some(h) => present(list.drop_last()).push(h),
            None => present(list.drop_last()),
        }
    }
}

impl Default for Material {
    /// White, rough, not metallic, without textures.
    fn default() -> (m: Material)
        ensures
            m == Material::plain(),
    {
        Material {
            base_color: Float4 { x: ONE, y: ONE, z: ONE, w: ONE },
            base_color_texture: None,
            metallic_factor: 0,
            roughness_factor: ONE,
            metallic_roughness_texture: None,
            normal_texture: None,
        }
    }
}

impl Material {
    /// White, rough, not metallic, without textures.
    pub open spec fn plain() -> Material {
        Material {
            base_color: Float4 { x: ONE, y: ONE, z: ONE, w: ONE },
            base_color_texture: None,
            metallic_factor: 0,
            roughness_factor: ONE,
            metallic_roughness_texture: None,
            normal_texture: None,
        }
    }

    /// All fields of both materials are equal, numbers as numbers.
    pub open spec fn equals(self, other: Material) -> bool {
        &&& equal_numbers(self.base_color.x, other.base_color.x)
        &&& equal_numbers(self.base_color.y, other.base_color.y)
        &&& equal_numbers(self.base_color.z, other.base_color.z)
        &&& equal_numbers(self.base_color.w, other.base_color.w)
        &&& self.base_color_texture == other.base_color_texture
        &&& equal_numbers(self.metallic_factor, other.metallic_factor)
        &&& equal_numbers(self.roughness_factor, other.roughness_factor)
        &&& self.metallic_roughness_texture == other.metallic_roughness_texture
        &&& self.normal_texture == other.normal_texture
    }

    /// Whether all fields of both materials are equal, numbers as numbers.
    pub fn same(&self, other: &Material) -> (b: bool)
        ensures
            b == self.equals(*other),
    {
        same_number(self.base_color.x, other.base_color.x) && same_number(
            self.base_color.y,
            other.base_color.y,
        ) && same_number(self.base_color.z, other.base_color.z) && same_number(
            self.base_color.w,
            other.base_color.w,
        ) && same_texture(self.base_color_texture, other.base_color_texture) && same_number(
            self.metallic_factor,
            other.metallic_factor,
        ) && same_number(self.roughness_factor, other.roughness_factor) && same_texture(
            self.metallic_roughness_texture,
            other.metallic_roughness_texture,
        ) && same_texture(self.normal_texture, other.normal_texture)
    }

    /// All textures of the material: base colour, metalness and roughness, normals.
    pub fn texture_handles(&self) -> (list: Vec<Handle>)
        ensures
            list@ == present(
                seq![
                    self.base_color_texture,
                    self.metallic_roughness_texture,
                    self.normal_texture,
                ],
            ),
    {
        let mut list: Vec<Handle> = Vec::new();
        if let Some(h) = self.base_color_texture {
            list.push(h);
        }
        if let Some(h) = self.metallic_roughness_texture {
            list.push(h);
        }
        if let Some(h) = self.normal_texture {
            list.push(h);
        }
        proof {
            let all = seq![
                self.base_color_texture,
                self.metallic_roughness_texture,
                self.normal_texture,
            ];
            let two = all.drop_last();
            let one = two.drop_last();
            let none = one.drop_last();
            assert(none.len() == 0);
            assert(present(none) =~= seq![]);
            assert(one.last() == self.base_color_texture);
            assert(two.last() == self.metallic_roughness_texture);
            reveal_with_fuel(present, 4);
            assert(list@ =~= present(all));
        }
        list
    }
}

fn same_texture(a: Option<Handle>, b: Option<Handle>) -> (same: bool)
    ensures
        same == (a == b),
{
    match (a, b) {
        (Some(x), Some(y)) => x == y,
        (None, None) => true,
        _ => false,
    }
}

/// The textures of a material are those of its slots that have one, in the order base colour,
/// metal and roughness, normals.
pub proof fn textures_come_in_the_order_of_their_slots(m: Material)
    ensures
        ({
            let list = present(
                seq![m.base_color_texture, m.metallic_roughness_texture, m.normal_texture],
            );
            match (m.base_color_texture, m.metallic_roughness_texture, m.normal_texture) {
                (None, None, None) => list.len() == 0,
                (Some(a), None, None) => list == seq![a],
                (None, Some(b), None) => list == seq![b],
                (None, None, Some(c)) => list == seq![c],
                (Some(a), Some(b), None) => list == seq![a, b],
                (Some(a), None, Some(c)) => list == seq![a, c],
                (None, Some(b), Some(c)) => list == seq![b, c],
                (Some(a), Some(b), Some(c)) => list == seq![a, b, c],
            }
        }),
{
    let all = seq![m.base_color_texture, m.metallic_roughness_texture, m.normal_texture];
    let two = seq![m.base_color_texture, m.metallic_roughness_texture];
    let one = seq![m.base_color_texture];
    let none = Seq::<Option<Handle>>::empty();
    assert(all.drop_last() =~= two);
    assert(two.drop_last() =~= one);
    assert(one.drop_last() =~= none);
    reveal_with_fuel(present, 4);
    assert(present(none) =~= Seq::<Handle>::empty());
}

/// Materials that are the same have the same textures in the same slots and equal numbers, zeros
/// of both signs being equal; what is no number makes a material unlike any.
pub proof fn materials_are_the_same_in_every_slot(a: Material, b: Material)
    ensures
        a.equals(b) <==> b.equals(a),
        a.equals(b) ==> a.base_color_texture == b.base_color_texture && a.metallic_roughness_texture
            == b.metallic_roughness_texture && a.normal_texture == b.normal_texture,
        a.equals(b) ==> {
            &&& equal_numbers(a.base_color.x, b.base_color.x)
            &&& equal_numbers(a.base_color.y, b.base_color.y)
            &&& equal_numbers(a.base_color.z, b.base_color.z)
            &&& equal_numbers(a.base_color.w, b.base_color.w)
            &&& equal_numbers(a.metallic_factor, b.metallic_factor)
            &&& equal_numbers(a.roughness_factor, b.roughness_factor)
        },
        a == b && equal_numbers(a.base_color.x, a.base_color.x) && equal_numbers(
            a.base_color.y,
            a.base_color.y,
        ) && equal_numbers(a.base_color.z, a.base_color.z) && equal_numbers(
            a.base_color.w,
            a.base_color.w,
        ) && equal_numbers(a.metallic_factor, a.metallic_factor) && equal_numbers(
            a.roughness_factor,
            a.roughness_factor,
        ) ==> a.equals(b),
{
}

/// A plain material is opaque white, not metallic, fully rough, and has no texture.
pub proof fn plain_materials_are_white_and_rough()
    ensures
        ({
            let m = Material::plain();
            &&& m.base_color.x == ONE && m.base_color.y == ONE && m.base_color.z == ONE
                && m.base_color.w == ONE
            &&& m.metallic_factor == 0 && m.roughness_factor == ONE
            &&& m.base_color_texture is None && m.metallic_roughness_texture is None
                && m.normal_texture is None
        }),
{
}

} // verus!
