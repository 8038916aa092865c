//! What one frame draws: instances grouped by mesh and material, lights, debug boxes.
use crate::handle::Handle;
use crate::material::Material;
use vstd::prelude::*;

verus! {

/// Instances of one mesh with one material, drawn together.
#[derive(Debug)]
pub struct RenderMeshGroup<W> {
    pub mesh: Handle,
    pub material: Material,
    /// Placements of the instances, in the order in which they came.
    pub instances: Vec<W>,
}

/// The contents of a group.
pub struct GroupModel<W> {
    pub mesh: Handle,
    pub material: Material,
    pub instances: Seq<W>,
}

impl<W> View for RenderMeshGroup<W> {
    type V = GroupModel<W>;

    open spec fn view(&self) -> GroupModel<W> {
        GroupModel { mesh: self.mesh, material: self.material, instances: self.instances@ }
    }
}

impl<W> GroupModel<W> {
    /// The instance belongs into the group.
    pub open spec fn takes(self, mesh: Handle, material: Material) -> bool {
        self.mesh == mesh && self.material.equals(material)
    }

    /// With one more instance.
    pub open spec fn with_instance(self, world: W) -> GroupModel<W> {
        GroupModel { instances: self.instances.push(world), ..self }
    }
}

/// The contents of a list of groups.
pub open spec fn groups<W>(list: Seq<RenderMeshGroup<W>>) -> Seq<GroupModel<W>> {
    list.map_values(|g: RenderMeshGroup<W>| g@)
}

/// The first group that takes the instance, or the number of groups.
pub open spec fn group_for<W>(list: Seq<GroupModel<W>>, mesh: Handle, material: Material) -> int
    decreases list.len(),
{
    if list.len() == 0 {
        0
    } else {
        let before = group_for(list.drop_last(), mesh, material);
        if before < list.len() - 1 || list.last().takes(mesh, material) {
            before
        } else {
            list.len() as int
        }
    }
}

/// The groups with one more instance: in the first group that takes it, else in a new one.
pub open spec fn with_instance<W>(
    list: Seq<GroupModel<W>>,
    mesh: Handle,
    material: Material,
    world: W,
) -> Seq<GroupModel<W>> {
    let g = group_for(list, mesh, material);
    if g < list.len() {
        list.update(g, list[g].with_instance(world))
    } else {
        list.push(GroupModel { mesh, material, instances: seq![world] })
    }
}

/// The first group that takes an instance takes it, and none before does.
pub proof fn lemma_group_for<W>(list: Seq<GroupModel<W>>, mesh: Handle, material: Material)
    ensures
        0 <= group_for(list, mesh, material) <= list.len(),
        group_for(list, mesh, material) < list.len() ==> list[group_for(
            list,
            mesh,
            material,
        )].takes(mesh, material),
        forall|i: int|
            0 <= i < group_for(list, mesh, material) ==> !(#[trigger] list[i]).takes(
                mesh,
                material,
            ),
    decreases list.len(),
{
    if list.len() > 0 {
        lemma_group_for(list.drop_last(), mesh, material);
        assert forall|i: int| 0 <= i < group_for(list, mesh, material) implies !(
        #[trigger] list[i]).takes(mesh, material) by {
            if i < list.len() - 1 {
                assert(list.drop_last()[i] == list[i]);
            }
        }
    }
}

proof fn lemma_group_for_is<W>(list: Seq<GroupModel<W>>, mesh: Handle, material: Material, g: int)
    requires
        0 <= g <= list.len(),
        g < list.len() ==> list[g].takes(mesh, material),
        forall|i: int| 0 <= i < g ==> !(#[trigger] list[i]).takes(mesh, material),
    ensures
        group_for(list, mesh, material) == g,
{
    lemma_group_for(list, mesh, material);
    let f = group_for(list, mesh, material);
    if f < g {
        assert(list[f].takes(mesh, material));
    }
    if g < f {
        assert(!list[g].takes(mesh, material));
    }
}

/// One frame: camera, drawing groups, lights, debug boxes.
#[derive(Debug)]
pub struct RenderCommand<C, W, L, B> {
    pub camera: Option<C>,
    pub meshes: Vec<RenderMeshGroup<W>>,
    pub lights: Vec<L>,
    pub colliders: Vec<B>,
    pub show_light_debug: bool,
    pub show_collision_debug: bool,
}

impl<C, W, L, B> RenderCommand<C, W, L, B> {
    /// A frame that draws nothing.
    pub fn new() -> (c: RenderCommand<C, W, L, B>)
        ensures
            c.camera is None,
            c.meshes@.len() == 0,
            c.lights@.len() == 0,
            c.colliders@.len() == 0,
            !c.show_light_debug,
            !c.show_collision_debug,
    {
        RenderCommand {
            camera: None,
            meshes: Vec::new(),
            lights: Vec::new(),
            colliders: Vec::new(),
            show_light_debug: false,
            show_collision_debug: false,
        }
    }

    /// Adds an instance to the group of its mesh and material, or to a new group.
    pub fn push_mesh_instance(&mut self, mesh: Handle, material: Material, world: W)
        ensures
            groups(final(self).meshes@) == with_instance(
                groups(old(self).meshes@),
                mesh,
                material,
                world,
            ),
            final(self).camera == old(self).camera,
            final(self).lights == old(self).lights,
            final(self).colliders == old(self).colliders,
            final(self).show_light_debug == old(self).show_light_debug,
            final(self).show_collision_debug == old(self).show_collision_debug,
    {
        let ghost before = groups(self.meshes@);
        let mut i: usize = 0;
        while i < self.meshes.len()
            invariant
                *self == *old(self),
                before == groups(self.meshes@),
                i <= self.meshes@.len(),
                forall|j: int| 0 <= j < i ==> !(#[trigger] before[j]).takes(mesh, material),
            decreases self.meshes@.len() - i,
        {
            if self.meshes[i].mesh == mesh && self.meshes[i].material.same(&material) {
                self.meshes[i].instances.push(world);
                proof {
                    lemma_group_for_is(before, mesh, material, i as int);
                    assert(groups(self.meshes@) =~= with_instance(before, mesh, material, world));
                }
                return;
            }
            i += 1;
        }
        let mut instances: Vec<W> = Vec::new();
        instances.push(world);
        self.meshes.push(RenderMeshGroup { mesh, material, instances });
        proof {
            lemma_group_for_is(before, mesh, material, before.len() as int);
            assert(instances@ =~= seq![world]);
            assert(groups(self.meshes@) =~= with_instance(before, mesh, material, world));
        }
    }
}

/// The number of instances in all groups.
pub open spec fn instance_count<W>(list: Seq<GroupModel<W>>) -> nat
    decreases list.len(),
{
    if list.len() == 0 {
        0
    } else {
        instance_count(list.drop_last()) + list.last().instances.len()
    }
}

/// Every instance that comes is drawn once: the groups hold one instance more, and the groups
/// that were there keep their meshes, materials and instances.
pub proof fn no_instance_is_lost<W>(
    list: Seq<GroupModel<W>>,
    mesh: Handle,
    material: Material,
    world: W,
)
    ensures
        instance_count(with_instance(list, mesh, material, world)) == instance_count(list) + 1,
        with_instance(list, mesh, material, world).len() >= list.len(),
        forall|i: int|
            0 <= i < list.len() ==> {
                let g = #[trigger] with_instance(list, mesh, material, world)[i];
                &&& g.mesh == list[i].mesh
                &&& g.material == list[i].material
                &&& list[i].instances.is_prefix_of(g.instances)
            },
    decreases list.len(),
{
    lemma_group_for(list, mesh, material);
    let g = group_for(list, mesh, material);
    let after = with_instance(list, mesh, material, world);
    if g == list.len() {
        assert(after.drop_last() =~= list);
    } else if g == list.len() - 1 {
        assert(after.drop_last() =~= list.drop_last());
    } else {
        no_instance_is_lost(list.drop_last(), mesh, material, world);
        assert(after.drop_last() =~= with_instance(list.drop_last(), mesh, material, world));
    }
}

/// An instance goes to the end of the first group with its mesh and the same material, or, where
/// there is none, into a new group of its own after the others. No other group changes.
pub proof fn instances_join_their_group<W>(
    list: Seq<GroupModel<W>>,
    mesh: Handle,
    material: Material,
    world: W,
    i: int,
)
    requires
        0 <= i < list.len(),
    ensures
        list[i].mesh == mesh && list[i].material.equals(material) && (forall|j: int|
            0 <= j < i ==> !((#[trigger] list[j]).mesh == mesh && list[j].material.equals(
                material,
            ))) ==> with_instance(list, mesh, material, world).len() == list.len()
            && with_instance(list, mesh, material, world)[i].instances == list[i].instances.push(
            world,
        ) && with_instance(list, mesh, material, world)[i].mesh == mesh && with_instance(
            list,
            mesh,
            material,
            world,
        )[i].material == list[i].material,
        !(list[i].mesh == mesh && list[i].material.equals(material)) ==> with_instance(
            list,
            mesh,
            material,
            world,
        )[i] == list[i],
        (exists|j: int|
            0 <= j < i && (#[trigger] list[j]).mesh == mesh && list[j].material.equals(material))
            ==> with_instance(list, mesh, material, world)[i] == list[i],
{
    lemma_group_for(list, mesh, material);
    let g = group_for(list, mesh, material);
    if exists|j: int|
        0 <= j < i && (#[trigger] list[j]).mesh == mesh && list[j].material.equals(material) {
        let j = choose|j: int|
            0 <= j < i && (#[trigger] list[j]).mesh == mesh && list[j].material.equals(material);
        assert(list[j].takes(mesh, material));
        assert(g <= j);
    }
    if list[i].mesh == mesh && list[i].material.equals(material) {
        assert(list[i].takes(mesh, material));
        assert(g <= i);
        assert(list[g].takes(mesh, material));
    }
}

/// Without a group that takes it, an instance opens a new one.
pub proof fn strange_instances_open_a_group<W>(
    list: Seq<GroupModel<W>>,
    mesh: Handle,
    material: Material,
    world: W,
)
    requires
        forall|j: int|
            0 <= j < list.len() ==> !((#[trigger] list[j]).mesh == mesh && list[j].material.equals(
                material,
            )),
    ensures
        with_instance(list, mesh, material, world).len() == list.len() + 1,
        with_instance(list, mesh, material, world).last().mesh == mesh,
        with_instance(list, mesh, material, world).last().material == material,
        with_instance(list, mesh, material, world).last().instances == seq![world],
{
    lemma_group_for(list, mesh, material);
    let g = group_for(list, mesh, material);
    if g < list.len() {
        assert(list[g].takes(mesh, material));
    }
}

} // verus!
