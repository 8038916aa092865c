//! What the renderer is told when a scene is shown: its surroundings and the textures that each
//! object is drawn with.
use crate::client_scene::{ClientModel, ClientScene};
use crate::handle::Handle;
use crate::material::Material;
use crate::scene::{any_object, ObjectKey};
use vstd::prelude::*;

verus! {

/// A texture to draw with.
#[derive(Clone, Copy, Debug, PartialEq, Eq, Structural)]
pub enum TextureSlot {
    /// The plain white texture.
    White,
    /// The texture of normals that bends none.
    FlatNormal,
    /// A texture of the registry.
    Own(Handle),
}

/// The textures to draw an object with.
#[derive(Clone, Copy, Debug)]
pub struct MaterialSlots {
    pub base_color: TextureSlot,
    pub metallic_roughness: TextureSlot,
    pub normal: TextureSlot,
}

/// The texture in a slot: the own one where it is uploaded, white where it is not, and `absent`
/// where the material names none.
pub open spec fn slot_filled<F: Fn(Handle) -> bool>(
    uploaded: F,
    texture: Option<Handle>,
    absent: TextureSlot,
    slot: TextureSlot,
) -> bool {
    match texture {
        None => slot == absent,
        Some(h) => {
            ||| slot == TextureSlot::Own(h) && call_ensures(uploaded, (h,), true)
            ||| slot == TextureSlot::White && call_ensures(uploaded, (h,), false)
        },
    }
}

/// The textures of a material, each in its slot.
pub open spec fn slots_filled<F: Fn(Handle) -> bool>(
    uploaded: F,
    m: Material,
    slots: MaterialSlots,
) -> bool {
    &&& slot_filled(uploaded, m.base_color_texture, TextureSlot::White, slots.base_color)
    &&& slot_filled(
        uploaded,
        m.metallic_roughness_texture,
        TextureSlot::White,
        slots.metallic_roughness,
    )
    &&& slot_filled(uploaded, m.normal_texture, TextureSlot::FlatNormal, slots.normal)
}

/// The material of an object, the plain one where it has none.
pub open spec fn material_or_plain<T, L, C, E, N>(
    view: ClientModel<T, L, Material, C, E, N>,
    key: ObjectKey,
) -> Material {
    if view.materials.contains_key(key) {
        view.materials[key]
    } else {
        Material::plain()
    }
}

/// What an object is drawn with: nothing where it is no mesh, else the textures of its material.
pub open spec fn drawn_with<T, L, C, E, N, F: Fn(Handle) -> bool>(
    view: ClientModel<T, L, Material, C, E, N>,
    key: ObjectKey,
    uploaded: F,
    slots: Option<MaterialSlots>,
) -> bool {
    if view.tree.nodes[key].object.kind is Mesh {
        slots is Some && slots_filled(uploaded, material_or_plain(view, key), slots->0)
    } else {
        slots is None
    }
}

fn fill_slot<F: Fn(Handle) -> bool>(
    uploaded: &F,
    texture: Option<Handle>,
    absent: TextureSlot,
) -> (slot: TextureSlot)
    requires
        forall|h: Handle| call_requires(*uploaded, (h,)),
    ensures
        slot_filled(*uploaded, texture, absent, slot),
{
    match texture {
        None => absent,
        Some(h) => if uploaded(h) {
            TextureSlot::Own(h)
        } else {
            TextureSlot::White
        },
    }
}

/// The textures to draw a material with. `uploaded` tells which textures are ready.
pub fn slots_for<F: Fn(Handle) -> bool>(material: &Material, uploaded: &F) -> (slots: MaterialSlots)
    requires
        forall|h: Handle| call_requires(*uploaded, (h,)),
    ensures
        slots_filled(*uploaded, *material, slots),
{
    MaterialSlots {
        base_color: fill_slot(uploaded, material.base_color_texture, TextureSlot::White),
        metallic_roughness: fill_slot(
            uploaded,
            material.metallic_roughness_texture,
            TextureSlot::White,
        ),
        normal: fill_slot(uploaded, material.normal_texture, TextureSlot::FlatNormal),
    }
}

/// How a scene is drawn: its objects in order, and what each is drawn with.
#[derive(Debug)]
pub struct DrawPlan {
    pub objects: Vec<ObjectKey>,
    pub slots: Vec<Option<MaterialSlots>>,
}

/// The plan covers all objects of the view, by ascending node.
pub open spec fn plan_covers<T, L, C, E, N, F: Fn(Handle) -> bool>(
    view: ClientModel<T, L, Material, C, E, N>,
    uploaded: F,
    plan: DrawPlan,
) -> bool {
    &&& view.tree.lists(plan.objects@, any_object())
    &&& plan.slots@.len() == plan.objects@.len()
    &&& forall|i: int|
        0 <= i < plan.slots@.len() ==> drawn_with(
            view,
            plan.objects@[i],
            uploaded,
            #[trigger] plan.slots@[i],
        )
}

impl DrawPlan {
    /// Number of places in the table of objects: one for each, and one even if there is none.
    pub fn places(&self) -> (n: usize)
        ensures
            n == (if self.objects@.len() == 0 {
                1
            } else {
                self.objects@.len() as int
            }),
    {
        if self.objects.len() == 0 {
            1
        } else {
            self.objects.len()
        }
    }
}

/// Surroundings and draw plan of the scene that is shown. `E` is the type of environments and `N`
/// of numbers.
pub struct Renderer<E, N> {
    /// `None` for the black one.
    pub environment: Option<E>,
    pub environment_intensity: N,
    pub agx_min_ev: N,
    pub agx_max_ev: N,
    /// Intensity and range that hold without an environment.
    pub defaults: (N, N, N),
    pub plan: DrawPlan,
}

impl<E: Copy, N: Copy> Renderer<E, N> {
    /// Nothing to draw, in black surroundings.
    pub fn new(intensity: N, agx_min_ev: N, agx_max_ev: N) -> (r: Renderer<E, N>)
        ensures
            r.environment is None,
            r.environment_intensity == intensity,
            r.agx_min_ev == agx_min_ev,
            r.agx_max_ev == agx_max_ev,
            r.defaults == (intensity, agx_min_ev, agx_max_ev),
            r.plan.objects@.len() == 0,
            r.plan.slots@.len() == 0,
    {
        Renderer {
            environment: None,
            environment_intensity: intensity,
            agx_min_ev,
            agx_max_ev,
            defaults: (intensity, agx_min_ev, agx_max_ev),
            plan: DrawPlan { objects: Vec::new(), slots: Vec::new() },
        }
    }

    /// Replaces the surroundings.
    pub fn set_environment(&mut self, environment: E)
        ensures
            *final(self) == (Renderer { environment: Some(environment), ..*old(self) }),
    {
        self.environment = Some(environment);
    }

    /// Sets the strength of the light from the surroundings.
    pub fn set_environment_intensity(&mut self, intensity: N)
        ensures
            *final(self) == (Renderer { environment_intensity: intensity, ..*old(self) }),
    {
        self.environment_intensity = intensity;
    }

    /// Sets the range of tone mapping, in stops from middle grey.
    pub fn set_environment_agx_ev(&mut self, min_ev: N, max_ev: N)
        ensures
            *final(self) == (Renderer { agx_min_ev: min_ev, agx_max_ev: max_ev, ..*old(self) }),
    {
        self.agx_min_ev = min_ev;
        self.agx_max_ev = max_ev;
    }

    /// Goes back to black surroundings, with strength and range as at first.
    pub fn reset_environment(&mut self)
        ensures
            *final(self) == (Renderer {
                environment: None,
                environment_intensity: old(self).defaults.0,
                agx_min_ev: old(self).defaults.1,
                agx_max_ev: old(self).defaults.2,
                ..*old(self)
            }),
    {
        self.environment = None;
        let (intensity, min_ev, max_ev) = self.defaults;
        self.set_environment_intensity(intensity);
        self.set_environment_agx_ev(min_ev, max_ev);
    }

    /// Takes the surroundings of a scene; without any, those of the last scene do not linger.
    pub fn follow_environment<T: Copy, L: Copy, M: Copy, C: Copy>(
        &mut self,
        scene: &ClientScene<T, L, M, C, E, N>,
    )
        ensures
            *final(self) == (match scene@.environment {
                Some(e) => Renderer {
                    environment: Some(e),
                    environment_intensity: scene@.environment_intensity,
                    agx_min_ev: scene@.agx_min_ev,
                    agx_max_ev: scene@.agx_max_ev,
                    ..*old(self)
                },
                None => Renderer {
                    environment: None,
                    environment_intensity: old(self).defaults.0,
                    agx_min_ev: old(self).defaults.1,
                    agx_max_ev: old(self).defaults.2,
                    ..*old(self)
                },
            }),
    {
        match scene.environment() {
            Some(e) => {
                self.set_environment(*e);
                self.set_environment_intensity(scene.environment_intensity());
                self.set_environment_agx_ev(scene.agx_min_ev(), scene.agx_max_ev());
            },
            None => self.reset_environment(),
        }
    }

    /// Plans how the objects of a scene are drawn. `uploaded` tells which textures are ready.
    pub fn load_scene<T: Copy, L: Copy, C: Copy, F: Fn(Handle) -> bool>(
        &mut self,
        scene: &ClientScene<T, L, Material, C, E, N>,
        uploaded: F,
    )
        requires
            scene.wf(),
            forall|h: Handle| call_requires(uploaded, (h,)),
        ensures
            plan_covers(scene@, uploaded, final(self).plan),
            *final(self) == (Renderer { plan: final(self).plan, ..*old(self) }),
    {
        let objects = scene.scene().objects();
        let ghost v = scene@;
        let mut slots: Vec<Option<MaterialSlots>> = Vec::new();
        let mut i: usize = 0;
        while i < objects.len()
            invariant
                scene.wf(),
                v == scene@,
                i <= objects@.len(),
                slots@.len() == i,
                v.tree.lists(objects@, any_object()),
                forall|h: Handle| call_requires(uploaded, (h,)),
                forall|j: int|
                    0 <= j < i ==> drawn_with(v, objects@[j], uploaded, #[trigger] slots@[j]),
            decreases objects@.len() - i,
        {
            let key = objects[i];
            proof {
                assert(objects@.contains(key));
                assert(v.tree.nodes.contains_key(key));
            }
            let is_mesh = match scene.scene().object(key) {
                Some(object) => object.mesh_handle().is_some(),
                None => false,
            };
            if is_mesh {
                let material = match scene.material(key) {
                    Some(m) => *m,
                    None => Material::default(),
                };
                let filled = slots_for(&material, &uploaded);
                slots.push(Some(filled));
            } else {
                slots.push(None);
            }
            i += 1;
        }
        self.plan = DrawPlan { objects, slots };
    }
}

/// Where one face of a cube lies in its texels, and how long its rows are.
#[derive(Clone, Copy, Debug)]
pub struct LayerLayout {
    pub first: usize,
    pub end: usize,
    pub bytes_per_row: u32,
}

/// Bytes of a texel of a cube: four numbers.
pub const TEXEL_BYTES: u32 = 16;

/// Where face `layer` of a cube lies.
pub fn cube_layer(face_size: u32, layer: u32) -> (l: LayerLayout)
    requires
        layer < 6,
        6 * (face_size * face_size) <= u32::MAX,
    ensures
        l.first == layer * (face_size * face_size),
        l.end == (layer + 1) * (face_size * face_size),
        l.bytes_per_row == face_size * TEXEL_BYTES,
{
    proof {
        assert(face_size < 0x8000) by (nonlinear_arith)
            requires
                6 * (face_size * face_size) <= 0xffff_ffff,
        ;
        let s = face_size * face_size;
        assert(0 <= layer * s <= 6 * s && 0 <= (layer + 1) * s <= 6 * s) by (nonlinear_arith)
            requires
                layer < 6,
                0 <= s,
        ;
    }
    let pixels: usize = (face_size * face_size) as usize;
    LayerLayout {
        first: layer as usize * pixels,
        end: (layer as usize + 1) * pixels,
        bytes_per_row: face_size * TEXEL_BYTES,
    }
}

/// Each slot of a material is drawn with the texture that the material has for that slot, where it
/// is uploaded, and with white where it is not yet; a slot without texture is white, that of the
/// normals flat.
pub proof fn slots_are_drawn_with_their_own_texture<F: Fn(Handle) -> bool>(
    uploaded: F,
    m: Material,
    slots: MaterialSlots,
)
    requires
        slots_filled(uploaded, m, slots),
    ensures
        m.base_color_texture is None ==> slots.base_color is White,
        m.metallic_roughness_texture is None ==> slots.metallic_roughness is White,
        m.normal_texture is None ==> slots.normal is FlatNormal,
        m.base_color_texture matches Some(h) ==> (call_ensures(uploaded, (h,), true)
            && slots.base_color == TextureSlot::Own(h)) || (call_ensures(uploaded, (h,), false)
            && slots.base_color is White),
        m.metallic_roughness_texture matches Some(h) ==> (call_ensures(uploaded, (h,), true)
            && slots.metallic_roughness == TextureSlot::Own(h)) || (call_ensures(
            uploaded,
            (h,),
            false,
        ) && slots.metallic_roughness is White),
        m.normal_texture matches Some(h) ==> (call_ensures(uploaded, (h,), true) && slots.normal
            == TextureSlot::Own(h)) || (call_ensures(uploaded, (h,), false)
            && slots.normal is White),
{
}

/// A plan has a place for every object of the view, once, by ascending node; meshes are drawn there
/// with the slots of their material, or of a plain one, and nothing else is drawn.
pub proof fn plans_draw_every_mesh<T, L, C, E, N, F: Fn(Handle) -> bool>(
    view: ClientModel<T, L, Material, C, E, N>,
    uploaded: F,
    plan: DrawPlan,
    i: int,
    k: ObjectKey,
)
    requires
        plan_covers(view, uploaded, plan),
    ensures
        plan.slots@.len() == plan.objects@.len(),
        plan.objects@.contains(k) <==> view.tree.nodes.contains_key(k),
        plan.objects@.no_duplicates(),
        0 <= i < plan.slots@.len() ==> (plan.slots@[i] is Some
            <==> view.tree.nodes[plan.objects@[i]].object.kind is Mesh),
        0 <= i < plan.slots@.len() && plan.slots@[i] is Some && view.materials.contains_key(
            plan.objects@[i],
        ) ==> slots_filled(uploaded, view.materials[plan.objects@[i]], plan.slots@[i]->0),
        0 <= i < plan.slots@.len() && plan.slots@[i] is Some && !view.materials.contains_key(
            plan.objects@[i],
        ) ==> plan.slots@[i]->0.base_color is White && plan.slots@[i]->0.metallic_roughness is White
            && plan.slots@[i]->0.normal is FlatNormal,
{
    let list = plan.objects@;
    assert(any_object()(k));
    assert(list.contains(k) <==> view.tree.nodes.contains_key(k));
    assert forall|a: int, b: int|
        0 <= a < list.len() && 0 <= b < list.len() && a != b implies list[a] != list[b] by {
        if a < b {
            assert(list[a].index < list[b].index);
        } else {
            assert(list[b].index < list[a].index);
        }
    }
    if 0 <= i < plan.slots@.len() {
        assert(drawn_with(view, list[i], uploaded, plan.slots@[i]));
    }
}

/// The layers of a cube lie one behind another, each as long as a face, six of them together as
/// long as all faces.
pub proof fn layers_lie_one_behind_another(
    face_size: u32,
    layer: u32,
    a: LayerLayout,
    b: LayerLayout,
)
    requires
        layer < 5,
        6 * (face_size * face_size) <= u32::MAX,
        call_ensures(cube_layer, (face_size, layer), a),
        call_ensures(cube_layer, (face_size, (layer + 1) as u32), b),
    ensures
        b.first == a.end,
        a.end - a.first == face_size * face_size,
        b.end - b.first == face_size * face_size,
        layer == 0 ==> a.first == 0,
        layer == 4 ==> b.end == 6 * (face_size * face_size),
        a.bytes_per_row == 16 * face_size,
{
    let area = face_size * face_size;
    assert((layer + 1) * area == layer * area + area) by (nonlinear_arith);
    assert((layer + 1 + 1) * area == (layer + 1) * area + area) by (nonlinear_arith);
    if layer == 0 {
        assert(0 * area == 0) by (nonlinear_arith);
    }
    assert(face_size * TEXEL_BYTES == 16 * face_size) by (nonlinear_arith)
        requires
            TEXEL_BYTES == 16,
    ;
}

} // verus!
