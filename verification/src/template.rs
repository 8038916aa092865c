//! Scenes out of glTF files: the node hierarchy becomes a scene tree, each primitive of a mesh an
//! object below the container of its node.
use crate::document::{total, NodeModel, Placement, RawMaterial, RawNode};
use crate::glb::lemma_total_prefix;
use crate::handle::Handle;
use crate::material::Material;
use crate::mesh::Float4;
use crate::scene::{ObjectKey, Scene, SceneModel, SceneNode, SceneObject, SceneObjectKind};
use vstd::prelude::*;

verus! {

/// The parts of a file that make its default scene.
#[derive(Debug)]
pub struct GltfDocument {
    pub nodes: Vec<RawNode>,
    /// Roots of the default scene.
    pub roots: Vec<usize>,
    /// Number of primitives of each mesh.
    pub counts: Vec<usize>,
    /// Material of each primitive, mesh after mesh.
    pub materials: Vec<RawMaterial>,
}

/// The contents of a document.
pub struct DocumentModel {
    pub nodes: Seq<NodeModel>,
    pub roots: Seq<usize>,
    pub counts: Seq<usize>,
    pub materials: Seq<RawMaterial>,
}

impl View for GltfDocument {
    type V = DocumentModel;

    open spec fn view(&self) -> DocumentModel {
        DocumentModel {
            nodes: self.nodes@.map_values(|n: RawNode| n@),
            roots: self.roots@,
            counts: self.counts@,
            materials: self.materials@,
        }
    }
}

/// An object that is going to be put into a scene. Objects name each other by their place in the
/// list.
#[derive(Clone, Copy, Debug)]
pub enum PlanItem {
    /// Stands for a node; its meshes and children hang below it.
    Container { parent: Option<usize>, placement: Placement },
    /// One primitive of the mesh of a node.
    Primitive { container: usize, mesh: Handle, material: Material },
}

/// The texture of an image; `None` where there is no texture with that number.
pub open spec fn texture_at(image: Option<usize>, textures: Seq<Handle>) -> Option<Option<Handle>> {
    match image {
        None => Some(None),
        Some(i) => if i < textures.len() {
            Some(Some(textures[i as int]))
        } else {
            None
        },
    }
}

/// The material with its images replaced by textures; `None` where a texture is missing.
pub open spec fn resolved(raw: RawMaterial, textures: Seq<Handle>) -> Option<Material> {
    match (
        texture_at(raw.base_color_image, textures),
        texture_at(raw.metallic_roughness_image, textures),
        texture_at(raw.normal_image, textures),
    ) {
        (Some(base), Some(metal), Some(normal)) => Some(
            Material {
                base_color: Float4 {
                    x: raw.base_color[0],
                    y: raw.base_color[1],
                    z: raw.base_color[2],
                    w: raw.base_color[3],
                },
                base_color_texture: base,
                metallic_factor: raw.metallic,
                roughness_factor: raw.roughness,
                metallic_roughness_texture: metal,
                normal_texture: normal,
            },
        ),
        _ => None,
    }
}

/// Number of primitives of a mesh.
pub open spec fn count_of(counts: Seq<usize>, mesh: usize) -> nat {
    if mesh < counts.len() {
        counts[mesh as int] as nat
    } else {
        0
    }
}

/// The plan with the first `n` primitives of a mesh added below a container; `None` where a
/// texture is missing.
pub open spec fn with_primitives(
    d: DocumentModel,
    meshes: Seq<Handle>,
    textures: Seq<Handle>,
    plan: Seq<PlanItem>,
    container: usize,
    mesh: usize,
    n: nat,
) -> Option<Seq<PlanItem>>
    decreases n,
{
    if n == 0 {
        Some(plan)
    } else {
        let at = total(d.counts.take(mesh as int)) + n - 1;
        match (
            with_primitives(d, meshes, textures, plan, container, mesh, (n - 1) as nat),
            resolved(d.materials[at], textures),
        ) {
            (Some(p), Some(material)) => Some(
                p.push(PlanItem::Primitive { container, mesh: meshes[at], material }),
            ),
            _ => None,
        }
    }
}

/// The plan with a node and everything below it added: a container, the primitives of its mesh,
/// then its children. A node without mesh and children is left out. `None` where a number leads
/// nowhere, or more than `depth` nodes lie below each other.
pub open spec fn with_planned_node(
    d: DocumentModel,
    meshes: Seq<Handle>,
    textures: Seq<Handle>,
    plan: Seq<PlanItem>,
    node: usize,
    parent: Option<usize>,
    depth: nat,
) -> Option<Seq<PlanItem>>
    decreases depth, 0nat,
{
    if depth == 0 || node >= d.nodes.len() {
        None
    } else {
        let n = d.nodes[node as int];
        if n.mesh is None && n.children.len() == 0 {
            Some(plan)
        } else {
            let container = plan.len() as usize;
            let begun = plan.push(PlanItem::Container { parent, placement: n.placement });
            let drawn = match n.mesh {
                Some(mesh) => with_primitives(
                    d,
                    meshes,
                    textures,
                    begun,
                    container,
                    mesh,
                    count_of(d.counts, mesh),
                ),
                None => Some(begun),
            };
            match drawn {
                Some(p) => with_planned_nodes(
                    d,
                    meshes,
                    textures,
                    p,
                    n.children,
                    Some(container),
                    (depth - 1) as nat,
                ),
                None => None,
            }
        }
    }
}

/// The plan with some nodes and everything below them added, one after another.
pub open spec fn with_planned_nodes(
    d: DocumentModel,
    meshes: Seq<Handle>,
    textures: Seq<Handle>,
    plan: Seq<PlanItem>,
    nodes: Seq<usize>,
    parent: Option<usize>,
    depth: nat,
) -> Option<Seq<PlanItem>>
    decreases depth, nodes.len() + 1,
{
    if nodes.len() == 0 {
        Some(plan)
    } else {
        match with_planned_nodes(d, meshes, textures, plan, nodes.drop_last(), parent, depth) {
            Some(p) => with_planned_node(d, meshes, textures, p, nodes.last(), parent, depth),
            None => None,
        }
    }
}

/// There is a mesh and a material for each primitive.
pub open spec fn enough(d: DocumentModel, meshes: Seq<Handle>) -> bool {
    total(d.counts) <= meshes.len() && total(d.counts) <= d.materials.len()
}

/// The objects of the default scene of a document; `None` where a number in it leads nowhere or
/// a node lies below itself. (In a path of nodes that is longer than the list of nodes some node
/// lies below itself.)
pub open spec fn planned(
    d: DocumentModel,
    meshes: Seq<Handle>,
    textures: Seq<Handle>,
) -> Option<Seq<PlanItem>> {
    if enough(d, meshes) {
        with_planned_nodes(d, meshes, textures, seq![], d.roots, None, d.nodes.len())
    } else {
        None
    }
}

/// The place of a container in the list.
pub open spec fn is_container(plan: Seq<PlanItem>, p: usize) -> bool {
    p < plan.len() && plan[p as int] is Container
}

/// The object of the list that another hangs below.
pub open spec fn item_parent(item: PlanItem) -> Option<usize> {
    match item {
        PlanItem::Container { parent, .. } => parent,
        PlanItem::Primitive { container, .. } => Some(container),
    }
}

/// Every object hangs below a container that comes before it, or below none.
pub open spec fn parents_first(plan: Seq<PlanItem>) -> bool {
    forall|i: int|
        0 <= i < plan.len() ==> (item_parent(#[trigger] plan[i]) matches Some(p) ==> p < i
            && is_container(plan, p))
}

fn find_texture(image: Option<usize>, textures: &Vec<Handle>) -> (r: Option<Option<Handle>>)
    ensures
        r == texture_at(image, textures@),
{
    match image {
        None => Some(None),
        Some(i) => if i < textures.len() {
            Some(Some(textures[i]))
        } else {
            None
        },
    }
}

/// The material with its images replaced by textures; `None` where a texture is missing.
pub fn material_from_primitive(raw: &RawMaterial, textures: &Vec<Handle>) -> (r: Option<Material>)
    ensures
        r == resolved(*raw, textures@),
{
    match (
        find_texture(raw.base_color_image, textures),
        find_texture(raw.metallic_roughness_image, textures),
        find_texture(raw.normal_image, textures),
    ) {
        (Some(base), Some(metal), Some(normal)) => Some(
            Material {
                base_color: Float4 {
                    x: raw.base_color[0],
                    y: raw.base_color[1],
                    z: raw.base_color[2],
                    w: raw.base_color[3],
                },
                base_color_texture: base,
                metallic_factor: raw.metallic,
                roughness_factor: raw.roughness,
                metallic_roughness_texture: metal,
                normal_texture: normal,
            },
        ),
        _ => None,
    }
}

fn first_primitive(counts: &Vec<usize>, mesh: usize) -> (n: usize)
    requires
        mesh <= counts@.len(),
        total(counts@) <= usize::MAX,
    ensures
        n == total(counts@.take(mesh as int)),
{
    let mut n: usize = 0;
    let mut i: usize = 0;
    while i < mesh
        invariant
            i <= mesh <= counts@.len(),
            total(counts@) <= usize::MAX,
            n == total(counts@.take(i as int)),
        decreases mesh - i,
    {
        proof {
            let next = counts@.take(i as int + 1);
            assert(next.drop_last() =~= counts@.take(i as int));
            lemma_total_prefix(counts@, i as int + 1);
        }
        n = n + counts[i];
        i += 1;
    }
    n
}

/// Adds the primitives of a mesh below a container; tells whether all textures were there.
fn register_mesh(
    doc: &GltfDocument,
    meshes: &Vec<Handle>,
    textures: &Vec<Handle>,
    plan: &mut Vec<PlanItem>,
    container: usize,
    mesh: usize,
) -> (done: bool)
    requires
        enough(doc@, meshes@),
        parents_first(old(plan)@),
        is_container(old(plan)@, container),
    ensures
        parents_first(final(plan)@),
        old(plan)@.is_prefix_of(final(plan)@),
        with_primitives(
            doc@,
            meshes@,
            textures@,
            old(plan)@,
            container,
            mesh,
            count_of(doc@.counts, mesh),
        ) == (if done {
            Some(final(plan)@)
        } else {
            None
        }),
{
    if mesh >= doc.counts.len() {
        return true;
    }
    let ghost d = doc@;
    let count = doc.counts[mesh];
    proof {
        let next = d.counts.take(mesh as int + 1);
        assert(next.drop_last() =~= d.counts.take(mesh as int));
        lemma_total_prefix(d.counts, mesh as int + 1);
        assert(meshes@.len() == meshes.len());
    }
    let first = first_primitive(&doc.counts, mesh);
    let mut j: usize = 0;
    while j < count
        invariant
            d == doc@,
            enough(d, meshes@),
            mesh < d.counts.len(),
            count == d.counts[mesh as int],
            first == total(d.counts.take(mesh as int)),
            first + count <= total(d.counts),
            first + count <= usize::MAX,
            j <= count,
            parents_first(plan@),
            old(plan)@.is_prefix_of(plan@),
            is_container(old(plan)@, container),
            with_primitives(d, meshes@, textures@, old(plan)@, container, mesh, j as nat) == Some(
                plan@,
            ),
        decreases count - j,
    {
        let at = first + j;
        match material_from_primitive(&doc.materials[at], textures) {
            Some(material) => {
                let ghost before = plan@;
                plan.push(PlanItem::Primitive { container, mesh: meshes[at], material });
                proof {
                    assert(before[container as int] == old(plan)@[container as int]);
                    lemma_push_item(before, plan@.last());
                }
            },
            None => {
                proof {
                    lemma_primitives_fail(
                        d,
                        meshes@,
                        textures@,
                        old(plan)@,
                        container,
                        mesh,
                        (j + 1) as nat,
                        count as nat,
                    );
                }
                return false;
            },
        }
        j += 1;
    }
    true
}

proof fn lemma_push_item(plan: Seq<PlanItem>, item: PlanItem)
    requires
        parents_first(plan),
        item_parent(item) matches Some(p) ==> is_container(plan, p),
    ensures
        parents_first(plan.push(item)),
{
    let next = plan.push(item);
    assert forall|i: int| 0 <= i < next.len() implies (item_parent(#[trigger] next[i]) matches Some(
        p,
    ) ==> p < i && is_container(next, p)) by {
        if i < plan.len() {
            assert(next[i] == plan[i]);
        }
    }
}

proof fn lemma_primitives_fail(
    d: DocumentModel,
    meshes: Seq<Handle>,
    textures: Seq<Handle>,
    plan: Seq<PlanItem>,
    container: usize,
    mesh: usize,
    m: nat,
    n: nat,
)
    requires
        m <= n,
        with_primitives(d, meshes, textures, plan, container, mesh, m) is None,
    ensures
        with_primitives(d, meshes, textures, plan, container, mesh, n) is None,
    decreases n,
{
    if m < n {
        lemma_primitives_fail(d, meshes, textures, plan, container, mesh, m, (n - 1) as nat);
    }
}

proof fn lemma_nodes_fail(
    d: DocumentModel,
    meshes: Seq<Handle>,
    textures: Seq<Handle>,
    plan: Seq<PlanItem>,
    nodes: Seq<usize>,
    parent: Option<usize>,
    depth: nat,
    m: int,
)
    requires
        0 <= m <= nodes.len(),
        with_planned_nodes(d, meshes, textures, plan, nodes.take(m), parent, depth) is None,
    ensures
        with_planned_nodes(d, meshes, textures, plan, nodes, parent, depth) is None,
    decreases nodes.len(),
{
    if m < nodes.len() {
        assert(nodes.drop_last().take(m) =~= nodes.take(m));
        lemma_nodes_fail(d, meshes, textures, plan, nodes.drop_last(), parent, depth, m);
    } else {
        assert(nodes.take(m) =~= nodes);
    }
}

/// Adds a node and everything below it; tells whether that could be done.
fn load_node(
    doc: &GltfDocument,
    meshes: &Vec<Handle>,
    textures: &Vec<Handle>,
    plan: &mut Vec<PlanItem>,
    node: usize,
    parent: Option<usize>,
    depth: usize,
) -> (done: bool)
    requires
        enough(doc@, meshes@),
        parents_first(old(plan)@),
        parent matches Some(p) ==> is_container(old(plan)@, p),
    ensures
        parents_first(final(plan)@),
        old(plan)@.is_prefix_of(final(plan)@),
        with_planned_node(doc@, meshes@, textures@, old(plan)@, node, parent, depth as nat) == (
        if done {
            Some(final(plan)@)
        } else {
            None
        }),
    decreases depth,
{
    if depth == 0 || node >= doc.nodes.len() {
        return false;
    }
    let ghost d = doc@;
    let n = &doc.nodes[node];
    proof {
        assert(d.nodes[node as int] == n@);
    }
    let kids = &n.children;
    if n.mesh.is_none() && kids.len() == 0 {
        return true;
    }
    let container: usize = plan.len();
    let ghost start = plan@;
    plan.push(PlanItem::Container { parent, placement: n.placement });
    let ghost begun = plan@;
    proof {
        lemma_push_item(start, begun.last());
        assert(is_container(begun, container));
    }
    if let Some(mesh) = n.mesh {
        if !register_mesh(doc, meshes, textures, plan, container, mesh) {
            return false;
        }
    }
    let ghost drawn = plan@;
    let mut i: usize = 0;
    proof {
        assert(kids@.take(0) =~= Seq::<usize>::empty());
    }
    while i < kids.len()
        invariant
            d == doc@,
            enough(d, meshes@),
            depth > 0,
            i <= kids@.len(),
            parents_first(plan@),
            begun.is_prefix_of(plan@),
            old(plan)@.is_prefix_of(begun),
            is_container(begun, container),
            with_planned_node(d, meshes@, textures@, old(plan)@, node, parent, depth as nat)
                == with_planned_nodes(
                d,
                meshes@,
                textures@,
                drawn,
                kids@,
                Some(container),
                (depth - 1) as nat,
            ),
            with_planned_nodes(
                d,
                meshes@,
                textures@,
                drawn,
                kids@.take(i as int),
                Some(container),
                (depth - 1) as nat,
            ) == Some(plan@),
        decreases kids@.len() - i,
    {
        proof {
            let next = kids@.take(i as int + 1);
            assert(next.drop_last() =~= kids@.take(i as int));
            assert(next.last() == kids@[i as int]);
            assert(plan@[container as int] == begun[container as int]);
        }
        if !load_node(doc, meshes, textures, plan, kids[i], Some(container), depth - 1) {
            proof {
                lemma_nodes_fail(
                    d,
                    meshes@,
                    textures@,
                    drawn,
                    kids@,
                    Some(container),
                    (depth - 1) as nat,
                    i as int + 1,
                );
            }
            return false;
        }
        i += 1;
    }
    proof {
        assert(kids@.take(i as int) =~= kids@);
    }
    true
}

fn has_enough(doc: &GltfDocument, meshes: &Vec<Handle>) -> (b: bool)
    ensures
        b == enough(doc@, meshes@),
{
    let mut sum: usize = 0;
    let mut i: usize = 0;
    let ghost counts = doc.counts@;
    while i < doc.counts.len()
        invariant
            counts == doc.counts@,
            i <= counts.len(),
            sum == total(counts.take(i as int)),
        decreases counts.len() - i,
    {
        proof {
            let next = counts.take(i as int + 1);
            assert(next.drop_last() =~= counts.take(i as int));
            assert(meshes@.len() == meshes.len());
            lemma_total_prefix(counts, i as int + 1);
        }
        match sum.checked_add(doc.counts[i]) {
            Some(s) => {
                sum = s;
            },
            None => {
                return false;
            },
        }
        i += 1;
    }
    proof {
        assert(counts.take(i as int) =~= counts);
    }
    sum <= meshes.len() && sum <= doc.materials.len()
}

/// Lists the objects of the default scene of a document.
pub fn plan_scene(doc: &GltfDocument, meshes: &Vec<Handle>, textures: &Vec<Handle>) -> (r: Option<
    Vec<PlanItem>,
>)
    ensures
        planned(doc@, meshes@, textures@) == (match r {
            Some(plan) => Some(plan@),
            None => None,
        }),
        r matches Some(plan) ==> parents_first(plan@),
{
    if !has_enough(doc, meshes) {
        return None;
    }
    let ghost d = doc@;
    let depth: usize = doc.nodes.len();
    let mut plan: Vec<PlanItem> = Vec::new();
    let mut i: usize = 0;
    proof {
        assert(d.roots.take(0) =~= Seq::<usize>::empty());
    }
    while i < doc.roots.len()
        invariant
            d == doc@,
            enough(d, meshes@),
            depth == d.nodes.len(),
            i <= d.roots.len(),
            parents_first(plan@),
            with_planned_nodes(
                d,
                meshes@,
                textures@,
                seq![],
                d.roots.take(i as int),
                None,
                depth as nat,
            ) == Some(plan@),
        decreases d.roots.len() - i,
    {
        proof {
            let next = d.roots.take(i as int + 1);
            assert(next.drop_last() =~= d.roots.take(i as int));
            assert(next.last() == d.roots[i as int]);
        }
        if !load_node(doc, meshes, textures, &mut plan, doc.roots[i], None, depth) {
            proof {
                lemma_nodes_fail(
                    d,
                    meshes@,
                    textures@,
                    seq![],
                    d.roots,
                    None,
                    depth as nat,
                    i as int + 1,
                );
            }
            return None;
        }
        i += 1;
    }
    proof {
        assert(d.roots.take(i as int) =~= d.roots);
    }
    Some(plan)
}

/// All numbers of the document lead somewhere, and the nodes form a hierarchy: each can be given a
/// rank below the number of nodes, so that children rank below their parents.
pub open spec fn sound(
    d: DocumentModel,
    meshes: Seq<Handle>,
    textures: Seq<Handle>,
    rank: spec_fn(usize) -> nat,
) -> bool {
    &&& enough(d, meshes)
    &&& forall|i: int|
        0 <= i < d.materials.len() ==> resolved(#[trigger] d.materials[i], textures) is Some
    &&& forall|i: int| 0 <= i < d.roots.len() ==> ranked(d, rank, #[trigger] d.roots[i])
    &&& forall|n: usize, c: int|
        n < d.nodes.len() && 0 <= c < d.nodes[n as int].children.len() ==> ranked(
            d,
            rank,
            #[trigger] d.nodes[n as int].children[c],
        ) && rank(d.nodes[n as int].children[c]) < rank(n)
}

/// The node exists and its rank is below the number of nodes.
pub open spec fn ranked(d: DocumentModel, rank: spec_fn(usize) -> nat, n: usize) -> bool {
    n < d.nodes.len() && rank(n) < d.nodes.len()
}

proof fn lemma_primitives_succeed(
    d: DocumentModel,
    meshes: Seq<Handle>,
    textures: Seq<Handle>,
    plan: Seq<PlanItem>,
    container: usize,
    mesh: usize,
    n: nat,
)
    requires
        enough(d, meshes),
        forall|i: int|
            0 <= i < d.materials.len() ==> resolved(#[trigger] d.materials[i], textures) is Some,
        n <= count_of(d.counts, mesh),
    ensures
        with_primitives(d, meshes, textures, plan, container, mesh, n) is Some,
    decreases n,
{
    if n > 0 {
        lemma_primitives_succeed(d, meshes, textures, plan, container, mesh, (n - 1) as nat);
        let next = d.counts.take(mesh as int + 1);
        assert(next.drop_last() =~= d.counts.take(mesh as int));
        lemma_total_prefix(d.counts, mesh as int + 1);
        let at = total(d.counts.take(mesh as int)) + n - 1;
        assert(resolved(d.materials[at], textures) is Some);
    }
}

proof fn lemma_node_succeeds(
    d: DocumentModel,
    meshes: Seq<Handle>,
    textures: Seq<Handle>,
    plan: Seq<PlanItem>,
    node: usize,
    parent: Option<usize>,
    depth: nat,
    rank: spec_fn(usize) -> nat,
)
    requires
        sound(d, meshes, textures, rank),
        node < d.nodes.len(),
        rank(node) < depth,
    ensures
        with_planned_node(d, meshes, textures, plan, node, parent, depth) is Some,
    decreases depth, 0nat,
{
    let n = d.nodes[node as int];
    if !(n.mesh is None && n.children.len() == 0) {
        let container = plan.len() as usize;
        let begun = plan.push(PlanItem::Container { parent, placement: n.placement });
        let drawn = match n.mesh {
            Some(mesh) => with_primitives(
                d,
                meshes,
                textures,
                begun,
                container,
                mesh,
                count_of(d.counts, mesh),
            ),
            None => Some(begun),
        };
        if let Some(mesh) = n.mesh {
            lemma_primitives_succeed(
                d,
                meshes,
                textures,
                begun,
                container,
                mesh,
                count_of(d.counts, mesh),
            );
        }
        assert forall|i: int| 0 <= i < n.children.len() implies #[trigger] n.children[i]
            < d.nodes.len() && rank(n.children[i]) < depth - 1 by {
            assert(ranked(d, rank, d.nodes[node as int].children[i]));
        }
        lemma_nodes_succeed(
            d,
            meshes,
            textures,
            drawn->0,
            n.children,
            Some(container),
            (depth - 1) as nat,
            rank,
        );
    }
}

proof fn lemma_nodes_succeed(
    d: DocumentModel,
    meshes: Seq<Handle>,
    textures: Seq<Handle>,
    plan: Seq<PlanItem>,
    nodes: Seq<usize>,
    parent: Option<usize>,
    depth: nat,
    rank: spec_fn(usize) -> nat,
)
    requires
        sound(d, meshes, textures, rank),
        forall|i: int|
            0 <= i < nodes.len() ==> #[trigger] nodes[i] < d.nodes.len() && rank(nodes[i]) < depth,
    ensures
        with_planned_nodes(d, meshes, textures, plan, nodes, parent, depth) is Some,
    decreases depth, nodes.len() + 1,
{
    if nodes.len() > 0 {
        lemma_nodes_succeed(d, meshes, textures, plan, nodes.drop_last(), parent, depth, rank);
        let before = with_planned_nodes(
            d,
            meshes,
            textures,
            plan,
            nodes.drop_last(),
            parent,
            depth,
        )->0;
        lemma_node_succeeds(d, meshes, textures, before, nodes.last(), parent, depth, rank);
    }
}

/// Every document whose numbers lead somewhere and whose nodes form a hierarchy makes a scene.
pub proof fn sound_documents_are_planned(
    d: DocumentModel,
    meshes: Seq<Handle>,
    textures: Seq<Handle>,
    rank: spec_fn(usize) -> nat,
)
    requires
        sound(d, meshes, textures, rank),
    ensures
        planned(d, meshes, textures) is Some,
{
    assert forall|i: int| 0 <= i < d.roots.len() implies #[trigger] d.roots[i] < d.nodes.len()
        && rank(d.roots[i]) < d.nodes.len() by {
        assert(ranked(d, rank, d.roots[i]));
    }
    lemma_nodes_succeed(d, meshes, textures, seq![], d.roots, None, d.nodes.len(), rank);
}

/// The object that an item of the list becomes.
pub open spec fn object_for<T, L>(item: PlanItem, transform: T) -> SceneObject<T, L> {
    SceneObject {
        transform,
        kind: match item {
            PlanItem::Container { .. } => SceneObjectKind::Empty,
            PlanItem::Primitive { mesh, .. } => SceneObjectKind::Mesh(mesh),
        },
    }
}

/// The object that an item of the list hangs below.
pub open spec fn parent_key(item: PlanItem, keys: Seq<ObjectKey>) -> Option<ObjectKey> {
    match item_parent(item) {
        Some(p) => Some(keys[p as int]),
        None => None,
    }
}

/// The scene with the first `n` objects of the list put into it.
pub open spec fn planted<T, L>(
    m: SceneModel<T, L>,
    plan: Seq<PlanItem>,
    keys: Seq<ObjectKey>,
    transforms: Seq<T>,
    n: nat,
) -> SceneModel<T, L>
    decreases n,
{
    if n == 0 {
        m
    } else {
        let i = n as int - 1;
        planted(m, plan, keys, transforms, (n - 1) as nat).with_node(
            keys[i],
            object_for(plan[i], transforms[i]),
            parent_key(plan[i], keys),
        )
    }
}

/// The placement of an item: computed for a container, none of its own for a primitive.
pub open spec fn placed<T, P: Fn(Placement) -> T>(
    place: P,
    identity: T,
    item: PlanItem,
    transform: T,
) -> bool {
    match item {
        PlanItem::Container { placement, .. } => call_ensures(place, (placement,), transform),
        PlanItem::Primitive { .. } => transform == identity,
    }
}

/// The materials of the primitives among the first `n` objects.
pub open spec fn materials_of(plan: Seq<PlanItem>, keys: Seq<ObjectKey>, n: nat) -> Seq<
    (ObjectKey, Material),
>
    decreases n,
{
    if n == 0 {
        seq![]
    } else {
        let i = n as int - 1;
        let before = materials_of(plan, keys, (n - 1) as nat);
        match plan[i] {
            PlanItem::Primitive { material, .. } => before.push((keys[i], material)),
            PlanItem::Container { .. } => before,
        }
    }
}

/// A scene with the materials of its objects.
pub struct SceneTemplate<T: Copy, L: Copy> {
    pub scene: Scene<T, L>,
    pub materials: Vec<(ObjectKey, Material)>,
}

/// The scene holds exactly the listed objects, with their hierarchy and materials, under the
/// given keys and with the given placements.
pub open spec fn template_of<T: Copy, L: Copy, P: Fn(Placement) -> T>(
    plan: Seq<PlanItem>,
    identity: T,
    place: P,
    template: SceneTemplate<T, L>,
    keys: Seq<ObjectKey>,
    transforms: Seq<T>,
) -> bool {
    let empty = SceneModel::<T, L> { nodes: Map::empty(), light_cache: Seq::empty(), next: 0 };
    &&& keys.len() == plan.len()
    &&& transforms.len() == plan.len()
    &&& forall|i: int| 0 <= i < keys.len() ==> (#[trigger] keys[i]).serial == i
    &&& forall|i: int|
        0 <= i < plan.len() ==> placed(place, identity, #[trigger] plan[i], transforms[i])
    &&& template.scene@ == planted(empty, plan, keys, transforms, plan.len())
    &&& template.materials@ == materials_of(plan, keys, plan.len())
}

/// The scene holds exactly the listed objects, with their hierarchy and materials.
pub open spec fn template_made<T: Copy, L: Copy, P: Fn(Placement) -> T>(
    plan: Seq<PlanItem>,
    identity: T,
    place: P,
    template: SceneTemplate<T, L>,
) -> bool {
    exists|keys: Seq<ObjectKey>, transforms: Seq<T>| #[trigger]
        template_of(plan, identity, place, template, keys, transforms)
}

/// Makes a scene of the listed objects.
pub fn build_scene<T: Copy, L: Copy, P: Fn(Placement) -> T>(
    plan: &Vec<PlanItem>,
    identity: T,
    place: P,
) -> (template: SceneTemplate<T, L>)
    requires
        parents_first(plan@),
        forall|p: Placement| call_requires(place, (p,)),
    ensures
        template.scene.wf(),
        template_made(plan@, identity, place, template),
{
    let mut scene: Scene<T, L> = Scene::new();
    let mut materials: Vec<(ObjectKey, Material)> = Vec::new();
    let mut keys: Vec<ObjectKey> = Vec::new();
    let ghost mut transforms: Seq<T> = Seq::empty();
    let ghost empty = SceneModel::<T, L> { nodes: Map::empty(), light_cache: Seq::empty(), next: 0 };
    proof {
        assert(scene@ =~= empty);
    }
    let mut i: usize = 0;
    while i < plan.len()
        invariant
            scene.wf(),
            i <= plan@.len(),
            parents_first(plan@),
            forall|p: Placement| call_requires(place, (p,)),
            empty == (SceneModel::<T, L> {
                nodes: Map::empty(),
                light_cache: Seq::empty(),
                next: 0,
            }),
            keys@.len() == i,
            transforms.len() == i,
            scene@.next == i,
            forall|j: int|
                0 <= j < i ==> (#[trigger] keys@[j]).serial == j && scene@.nodes.contains_key(
                    keys@[j],
                ),
            forall|j: int|
                0 <= j < i ==> placed(place, identity, #[trigger] plan@[j], transforms[j]),
            scene@ == planted(empty, plan@, keys@, transforms, i as nat),
            materials@ == materials_of(plan@, keys@, i as nat),
        decreases plan@.len() - i,
    {
        let ghost keys0 = keys@;
        let ghost transforms0 = transforms;
        let item = plan[i];
        let (transform, kind, parent) = match item {
            PlanItem::Container { parent, placement } => (
                place(placement),
                SceneObjectKind::Empty,
                parent,
            ),
            PlanItem::Primitive { container, mesh, material: _ } => (
                identity,
                SceneObjectKind::Mesh(mesh),
                Some(container),
            ),
        };
        let object = SceneObject::new(kind, transform);
        proof {
            assert(plan@.len() == plan.len());
            assert(item_parent(plan@[i as int]) == parent);
        }
        let key = match parent {
            Some(p) => match scene.attach(keys[p], object) {
                Some(key) => key,
                None => {
                    proof {
                        assert(scene@.nodes.contains_key(keys@[p as int]));
                    }
                    return SceneTemplate { scene, materials };
                },
            },
            None => scene.add_object(object),
        };
        keys.push(key);
        proof {
            transforms = transforms.push(transform);
            lemma_planted_same(empty, plan@, keys0, keys@, transforms0, transforms, i as nat);
            lemma_materials_same(plan@, keys0, keys@, i as nat);
            assert(object == object_for::<T, L>(plan@[i as int], transforms[i as int]));
            assert(parent_key(plan@[i as int], keys@) == parent_key(plan@[i as int], keys0));
        }
        if let PlanItem::Primitive { container: _, mesh: _, material } = item {
            materials.push((key, material));
        }
        i += 1;
    }
    let template = SceneTemplate { scene, materials };
    proof {
        assert(template_of(plan@, identity, place, template, keys@, transforms));
    }
    template
}

proof fn lemma_planted_same<T, L>(
    m: SceneModel<T, L>,
    plan: Seq<PlanItem>,
    k1: Seq<ObjectKey>,
    k2: Seq<ObjectKey>,
    t1: Seq<T>,
    t2: Seq<T>,
    n: nat,
)
    requires
        n <= plan.len(),
        n <= k1.len(),
        n <= t1.len(),
        parents_first(plan),
        k1.is_prefix_of(k2),
        t1.is_prefix_of(t2),
    ensures
        planted(m, plan, k1, t1, n) == planted(m, plan, k2, t2, n),
    decreases n,
{
    if n > 0 {
        lemma_planted_same(m, plan, k1, k2, t1, t2, (n - 1) as nat);
        let i = n as int - 1;
        assert(k1[i] == k2[i]);
        assert(t1[i] == t2[i]);
        assert(item_parent(plan[i]) matches Some(p) ==> k1[p as int] == k2[p as int]);
    }
}

proof fn lemma_materials_same(
    plan: Seq<PlanItem>,
    k1: Seq<ObjectKey>,
    k2: Seq<ObjectKey>,
    n: nat,
)
    requires
        n <= k1.len(),
        k1.is_prefix_of(k2),
    ensures
        materials_of(plan, k1, n) == materials_of(plan, k2, n),
    decreases n,
{
    if n > 0 {
        lemma_materials_same(plan, k1, k2, (n - 1) as nat);
        assert(k1[n as int - 1] == k2[n as int - 1]);
    }
}

proof fn lemma_materials_listed(plan: Seq<PlanItem>, keys: Seq<ObjectKey>, n: nat)
    requires
        n <= keys.len(),
    ensures
        forall|m: int|
            0 <= m < materials_of(plan, keys, n).len() ==> exists|i: int|
                0 <= i < n && (#[trigger] materials_of(plan, keys, n)[m]).0 == #[trigger] keys[i],
    decreases n,
{
    if n > 0 {
        let before = materials_of(plan, keys, (n - 1) as nat);
        let all = materials_of(plan, keys, n);
        lemma_materials_listed(plan, keys, (n - 1) as nat);
        assert forall|m: int| 0 <= m < all.len() implies exists|i: int|
            0 <= i < n && (#[trigger] all[m]).0 == #[trigger] keys[i] by {
            if m < before.len() {
                assert(all[m] == before[m]);
                let i = choose|i: int|
                    0 <= i < n - 1 && before[m].0 == #[trigger] keys[i];
                assert(all[m].0 == keys[i]);
            } else {
                assert(all[m].0 == keys[n as int - 1]);
            }
        }
    }
}

/// The materials of a template belong to objects of its scene.
pub proof fn lemma_materials_belong<T: Copy, L: Copy, P: Fn(Placement) -> T>(
    plan: Seq<PlanItem>,
    identity: T,
    place: P,
    template: SceneTemplate<T, L>,
)
    requires
        template_made(plan, identity, place, template),
    ensures
        forall|i: int|
            0 <= i < template.materials@.len() ==> template.scene@.nodes.contains_key(
                (#[trigger] template.materials@[i]).0,
            ),
{
    let (keys, transforms) = choose|keys: Seq<ObjectKey>, transforms: Seq<T>| #[trigger]
        template_of(plan, identity, place, template, keys, transforms);
    lemma_materials_listed(plan, keys, plan.len());
    listed_objects_are_planted::<T, L>(plan, keys, transforms, plan.len());
    assert forall|m: int| 0 <= m < template.materials@.len() implies template.scene@.nodes.contains_key(
        (#[trigger] template.materials@[m]).0,
    ) by {
        let all = materials_of(plan, keys, plan.len());
        let i = choose|i: int| 0 <= i < plan.len() && all[m].0 == #[trigger] keys[i];
        assert(template.scene@.nodes.contains_key(keys[i]));
    }
}

/// Each listed object stands in the scene that is made of the list, below the object that the
/// list names, and nothing else does.
pub proof fn listed_objects_are_planted<T, L>(
    plan: Seq<PlanItem>,
    keys: Seq<ObjectKey>,
    transforms: Seq<T>,
    n: nat,
)
    requires
        n <= plan.len(),
        keys.len() == plan.len(),
        forall|i: int| 0 <= i < keys.len() ==> (#[trigger] keys[i]).serial == i,
    ensures
        ({
            let empty = SceneModel::<T, L> {
                nodes: Map::empty(),
                light_cache: Seq::empty(),
                next: 0,
            };
            let m = planted(empty, plan, keys, transforms, n);
            &&& forall|i: int|
                0 <= i < n ==> m.nodes.contains_key(#[trigger] keys[i]) && m.nodes[keys[i]] == (
                SceneNode {
                    object: object_for::<T, L>(plan[i], transforms[i]),
                    parent: parent_key(plan[i], keys),
                })
            &&& forall|k: ObjectKey| #[trigger]
                m.nodes.contains_key(k) ==> k.serial < n && k == keys[k.serial as int]
            &&& m.light_cache.len() == 0
        }),
    decreases n,
{
    if n > 0 {
        listed_objects_are_planted::<T, L>(plan, keys, transforms, (n - 1) as nat);
    }
}

/// Each slot of a material holds what the file names for that same slot: where it names an image
/// for base colour, for metalness and roughness, or for normals, the slot holds the texture of that
/// image, and where it names none the slot is empty. The colour and the two factors are those of
/// the file. A material cannot be made only where an image has no texture.
pub proof fn slots_hold_the_textures_named_for_them(raw: RawMaterial, textures: Seq<Handle>)
    ensures
        resolved(raw, textures) is Some <==> {
            &&& raw.base_color_image matches Some(i) ==> i < textures.len()
            &&& raw.metallic_roughness_image matches Some(i) ==> i < textures.len()
            &&& raw.normal_image matches Some(i) ==> i < textures.len()
        },
        resolved(raw, textures) matches Some(m) ==> {
            &&& raw.base_color_image matches Some(i) ==> m.base_color_texture == Some(
                textures[i as int],
            )
            &&& raw.base_color_image is None ==> m.base_color_texture is None
            &&& raw.metallic_roughness_image matches Some(i) ==> m.metallic_roughness_texture
                == Some(textures[i as int])
            &&& raw.metallic_roughness_image is None ==> m.metallic_roughness_texture is None
            &&& raw.normal_image matches Some(i) ==> m.normal_texture == Some(textures[i as int])
            &&& raw.normal_image is None ==> m.normal_texture is None
            &&& m.base_color.x == raw.base_color[0]
            &&& m.base_color.y == raw.base_color[1]
            &&& m.base_color.z == raw.base_color[2]
            &&& m.base_color.w == raw.base_color[3]
            &&& m.metallic_factor == raw.metallic
            &&& m.roughness_factor == raw.roughness
        },
{
}

/// What a mesh adds to a plan: primitive `k` has the handle and the material that the file lists
/// after those of all meshes before and of the first `k` primitives, and hangs in the container.
/// What was planned before stays.
pub proof fn primitives_take_their_own_mesh_and_material(
    d: DocumentModel,
    meshes: Seq<Handle>,
    textures: Seq<Handle>,
    plan: Seq<PlanItem>,
    container: usize,
    mesh: usize,
    n: nat,
    k: int,
)
    requires
        with_primitives(d, meshes, textures, plan, container, mesh, n) is Some,
    ensures
        with_primitives(d, meshes, textures, plan, container, mesh, n)->0.len() == plan.len() + n,
        0 <= k < plan.len() ==> with_primitives(
            d,
            meshes,
            textures,
            plan,
            container,
            mesh,
            n,
        )->0[k] == plan[k],
        0 <= k < n ==> (with_primitives(
            d,
            meshes,
            textures,
            plan,
            container,
            mesh,
            n,
        )->0[plan.len() + k] matches PlanItem::Primitive { container: c, mesh: h, material: m }
            && c == container && h == meshes[total(d.counts.take(mesh as int)) + k] && resolved(
            d.materials[total(d.counts.take(mesh as int)) + k],
            textures,
        ) == Some(m)),
    decreases n,
{
    if n > 0 {
        primitives_take_their_own_mesh_and_material(
            d,
            meshes,
            textures,
            plan,
            container,
            mesh,
            (n - 1) as nat,
            k,
        );
    }
}

/// A node without mesh and children is left out. Any other begins with a container that has the
/// placement of the node and hangs where it was told; in it come the primitives of its mesh, and
/// after them, below that container, its children.
pub proof fn nodes_begin_with_their_container(
    d: DocumentModel,
    meshes: Seq<Handle>,
    textures: Seq<Handle>,
    plan: Seq<PlanItem>,
    node: usize,
    parent: Option<usize>,
    depth: nat,
    k: int,
)
    requires
        with_planned_node(d, meshes, textures, plan, node, parent, depth) is Some,
        plan.len() < usize::MAX,
    ensures
        node < d.nodes.len(),
        ({
            let n = d.nodes[node as int];
            let q = with_planned_node(d, meshes, textures, plan, node, parent, depth)->0;
            let count = if n.mesh is Some && n.mesh->0 < d.counts.len() {
                d.counts[n.mesh->0 as int] as int
            } else {
                0
            };
            if n.mesh is None && n.children.len() == 0 {
                q == plan
            } else {
                &&& q.len() >= plan.len() + 1 + count
                &&& q[plan.len() as int] == (PlanItem::Container { parent, placement: n.placement })
                &&& 0 <= k < plan.len() ==> q[k] == plan[k]
                &&& 0 <= k < count ==> (q[plan.len() + 1 + k] matches PlanItem::Primitive {
                    container,
                    mesh,
                    material,
                } && container == plan.len() && mesh == meshes[total(
                    d.counts.take(n.mesh->0 as int),
                ) + k] && resolved(
                    d.materials[total(d.counts.take(n.mesh->0 as int)) + k],
                    textures,
                ) == Some(material))
                &&& Some(q) == with_planned_nodes(
                    d,
                    meshes,
                    textures,
                    q.take(plan.len() + 1 + count),
                    n.children,
                    Some(plan.len() as usize),
                    (depth - 1) as nat,
                )
            }
        }),
{
    let n = d.nodes[node as int];
    if !(n.mesh is None && n.children.len() == 0) {
        let q = with_planned_node(d, meshes, textures, plan, node, parent, depth)->0;
        let container = plan.len() as usize;
        let begun = plan.push(PlanItem::Container { parent, placement: n.placement });
        let drawn = match n.mesh {
            Some(mesh) => with_primitives(
                d,
                meshes,
                textures,
                begun,
                container,
                mesh,
                count_of(d.counts, mesh),
            ),
            None => Some(begun),
        };
        let p = drawn->0;
        if n.mesh is Some {
            let mesh = n.mesh->0;
            let count = count_of(d.counts, mesh);
            primitives_take_their_own_mesh_and_material(
                d,
                meshes,
                textures,
                begun,
                container,
                mesh,
                count,
                k,
            );
            primitives_take_their_own_mesh_and_material(
                d,
                meshes,
                textures,
                begun,
                container,
                mesh,
                count,
                plan.len() as int,
            );
        }
        lemma_nodes_extend(
            d,
            meshes,
            textures,
            p,
            n.children,
            Some(container),
            (depth - 1) as nat,
        );
        assert(q.take(p.len() as int) =~= p);
        if 0 <= k {
            assert(k < p.len() ==> q.take(p.len() as int)[k] == q[k]);
        }
        assert(q.take(p.len() as int)[plan.len() as int] == q[plan.len() as int]);
    }
}

proof fn lemma_node_extends(
    d: DocumentModel,
    meshes: Seq<Handle>,
    textures: Seq<Handle>,
    plan: Seq<PlanItem>,
    node: usize,
    parent: Option<usize>,
    depth: nat,
)
    requires
        with_planned_node(d, meshes, textures, plan, node, parent, depth) is Some,
    ensures
        ({
            let q = with_planned_node(d, meshes, textures, plan, node, parent, depth)->0;
            q.len() >= plan.len() && q.take(plan.len() as int) == plan
        }),
    decreases depth, 0nat,
{
    let n = d.nodes[node as int];
    let q = with_planned_node(d, meshes, textures, plan, node, parent, depth)->0;
    if n.mesh is None && n.children.len() == 0 {
        assert(q.take(plan.len() as int) =~= plan);
    } else {
        let container = plan.len() as usize;
        let begun = plan.push(PlanItem::Container { parent, placement: n.placement });
        let drawn = match n.mesh {
            Some(mesh) => with_primitives(
                d,
                meshes,
                textures,
                begun,
                container,
                mesh,
                count_of(d.counts, mesh),
            ),
            None => Some(begun),
        };
        let p = drawn->0;
        if n.mesh is Some {
            let mesh = n.mesh->0;
            primitives_take_their_own_mesh_and_material(
                d,
                meshes,
                textures,
                begun,
                container,
                mesh,
                count_of(d.counts, mesh),
                0,
            );
            assert forall|i: int| 0 <= i < plan.len() implies p[i] == plan[i] by {
                primitives_take_their_own_mesh_and_material(
                    d,
                    meshes,
                    textures,
                    begun,
                    container,
                    mesh,
                    count_of(d.counts, mesh),
                    i,
                );
            }
        }
        lemma_nodes_extend(
            d,
            meshes,
            textures,
            p,
            n.children,
            Some(container),
            (depth - 1) as nat,
        );
        assert forall|i: int| 0 <= i < plan.len() implies q[i] == plan[i] by {
            assert(q.take(p.len() as int)[i] == p[i]);
        }
        assert(q.take(plan.len() as int) =~= plan);
    }
}

proof fn lemma_nodes_extend(
    d: DocumentModel,
    meshes: Seq<Handle>,
    textures: Seq<Handle>,
    plan: Seq<PlanItem>,
    nodes: Seq<usize>,
    parent: Option<usize>,
    depth: nat,
)
    requires
        with_planned_nodes(d, meshes, textures, plan, nodes, parent, depth) is Some,
    ensures
        ({
            let q = with_planned_nodes(d, meshes, textures, plan, nodes, parent, depth)->0;
            q.len() >= plan.len() && q.take(plan.len() as int) == plan
        }),
    decreases depth, nodes.len() + 1,
{
    let q = with_planned_nodes(d, meshes, textures, plan, nodes, parent, depth)->0;
    if nodes.len() == 0 {
        assert(q.take(plan.len() as int) =~= plan);
    } else {
        let before = with_planned_nodes(
            d,
            meshes,
            textures,
            plan,
            nodes.drop_last(),
            parent,
            depth,
        )->0;
        lemma_nodes_extend(d, meshes, textures, plan, nodes.drop_last(), parent, depth);
        lemma_node_extends(d, meshes, textures, before, nodes.last(), parent, depth);
        assert forall|i: int| 0 <= i < plan.len() implies q[i] == plan[i] by {
            assert(q.take(before.len() as int)[i] == before[i]);
            assert(before.take(plan.len() as int)[i] == plan[i]);
        }
        assert(q.take(plan.len() as int) =~= plan);
    }
}

/// Nodes are planned one after another, all below the same parent: planning no node changes
/// nothing, and planning one more plans that one after the others.
pub proof fn siblings_are_planned_in_turn(
    d: DocumentModel,
    meshes: Seq<Handle>,
    textures: Seq<Handle>,
    plan: Seq<PlanItem>,
    nodes: Seq<usize>,
    node: usize,
    parent: Option<usize>,
    depth: nat,
)
    ensures
        with_planned_nodes(d, meshes, textures, plan, Seq::empty(), parent, depth) == Some(plan),
        with_planned_nodes(d, meshes, textures, plan, nodes.push(node), parent, depth) == (
        match with_planned_nodes(d, meshes, textures, plan, nodes, parent, depth) {
            Some(p) => with_planned_node(d, meshes, textures, p, node, parent, depth),
            None => None,
        }),
        planned(d, meshes, textures) is Some ==> planned(d, meshes, textures)
            == with_planned_nodes(
            d,
            meshes,
            textures,
            Seq::empty(),
            d.roots,
            None,
            d.nodes.len(),
        ) && total(d.counts) <= meshes.len() && total(d.counts) <= d.materials.len(),
{
    assert(nodes.push(node).drop_last() =~= nodes);
}

/// A template has one object for each item of its plan and no other. A container is empty, with
/// the placement computed of its own; a primitive shows its mesh, unmoved in its container, and
/// is dressed in its material; each hangs below the object of its parent.
pub proof fn templates_follow_their_plan<T: Copy, L: Copy, P: Fn(Placement) -> T>(
    plan: Seq<PlanItem>,
    identity: T,
    place: P,
    template: SceneTemplate<T, L>,
    keys: Seq<ObjectKey>,
    transforms: Seq<T>,
    i: int,
    k: ObjectKey,
)
    requires
        template_of(plan, identity, place, template, keys, transforms),
        0 <= i < plan.len(),
    ensures
        keys.len() == plan.len(),
        keys[i].serial == i,
        template.scene@.nodes.contains_key(keys[i]),
        template.scene@.nodes.contains_key(k) ==> k.serial < plan.len() && k
            == keys[k.serial as int],
        template.scene@.light_cache.len() == 0,
        match plan[i] {
            PlanItem::Container { parent, placement } => {
                &&& template.scene@.nodes[keys[i]].object.kind is Empty
                &&& call_ensures(
                    place,
                    (placement,),
                    template.scene@.nodes[keys[i]].object.transform,
                )
                &&& template.scene@.nodes[keys[i]].parent == (match parent {
                    Some(p) => Some(keys[p as int]),
                    None => None,
                })
            },
            PlanItem::Primitive { container, mesh, material } => {
                &&& template.scene@.nodes[keys[i]].object.kind == SceneObjectKind::<L>::Mesh(mesh)
                &&& template.scene@.nodes[keys[i]].object.transform == identity
                &&& template.scene@.nodes[keys[i]].parent == Some(keys[container as int])
                &&& template.materials@.contains((keys[i], material))
            },
        },
{
    listed_objects_are_planted::<T, L>(plan, keys, transforms, plan.len());
    assert(template.scene@.nodes.contains_key(keys[i]));
    assert(placed(place, identity, plan[i], transforms[i]));
    if plan[i] is Primitive {
        lemma_material_is_listed(plan, keys, plan.len(), i);
    }
}

proof fn lemma_material_is_listed(plan: Seq<PlanItem>, keys: Seq<ObjectKey>, n: nat, i: int)
    requires
        0 <= i < n,
        plan[i] is Primitive,
    ensures
        materials_of(plan, keys, n).contains((keys[i], plan[i]->material)),
    decreases n,
{
    let all = materials_of(plan, keys, n);
    let before = materials_of(plan, keys, (n - 1) as nat);
    if i < n - 1 {
        lemma_material_is_listed(plan, keys, (n - 1) as nat, i);
        let j = choose|j: int|
            0 <= j < before.len() && before[j] == (keys[i], plan[i]->material);
        assert(all[j] == (keys[i], plan[i]->material));
    } else {
        assert(all[before.len() as int] == (keys[i], plan[i]->material));
    }
}

/// Nothing is dressed in a material but the primitives, each in its own.
pub proof fn only_primitives_are_dressed(
    plan: Seq<PlanItem>,
    keys: Seq<ObjectKey>,
    n: nat,
    j: int,
) -> (i: int)
    requires
        n <= plan.len(),
        0 <= j < materials_of(plan, keys, n).len(),
    ensures
        0 <= i < n,
        plan[i] matches PlanItem::Primitive { material, .. } && materials_of(plan, keys, n)[j] == (
            keys[i],
            material,
        ),
    decreases n,
{
    let before = materials_of(plan, keys, (n - 1) as nat);
    if j < before.len() {
        only_primitives_are_dressed(plan, keys, (n - 1) as nat, j)
    } else {
        n - 1
    }
}

/// In a plan every item hangs in a container that comes before it, or in none.
pub proof fn planned_items_come_after_their_container(plan: Seq<PlanItem>, i: int)
    requires
        parents_first(plan),
        0 <= i < plan.len(),
    ensures
        plan[i] matches PlanItem::Primitive { container, .. } ==> container < i
            && plan[container as int] is Container,
        plan[i] matches PlanItem::Container { parent, .. } ==> (parent matches Some(p) ==> p < i
            && plan[p as int] is Container),
{
    assert(item_parent(plan[i]) matches Some(p) ==> p < i && is_container(plan, p));
}

/// What is known of a document is what it holds.
pub proof fn documents_are_seen_as_they_are(d: GltfDocument, i: int)
    ensures
        d@.nodes.len() == d.nodes@.len(),
        0 <= i < d.nodes@.len() ==> d@.nodes[i].mesh == d.nodes@[i].mesh && d@.nodes[i].children
            == d.nodes@[i].children@ && d@.nodes[i].placement == d.nodes@[i].placement,
        d@.roots == d.roots@,
        d@.counts == d.counts@,
        d@.materials == d.materials@,
{
}

/// What `material_from_primitive` answers holds, slot by slot, the textures that the file names; it
/// answers nothing only where a slot names an image that has no texture.
pub proof fn built_materials_hold_their_own_textures(
    raw: &RawMaterial,
    textures: &Vec<Handle>,
    r: Option<Material>,
)
    requires
        call_ensures(material_from_primitive, (raw, textures), r),
    ensures
        r is None <==> (raw.base_color_image is Some && raw.base_color_image->0 >= textures@.len())
            || (raw.metallic_roughness_image is Some && raw.metallic_roughness_image->0
            >= textures@.len()) || (raw.normal_image is Some && raw.normal_image->0
            >= textures@.len()),
        r is Some ==> (r->0.base_color_texture is Some <==> raw.base_color_image is Some) && (
        raw.base_color_image is Some ==> r->0.base_color_texture->0
            == textures@[raw.base_color_image->0 as int]),
        r is Some ==> (r->0.metallic_roughness_texture is Some
            <==> raw.metallic_roughness_image is Some) && (raw.metallic_roughness_image is Some
            ==> r->0.metallic_roughness_texture->0
            == textures@[raw.metallic_roughness_image->0 as int]),
        r is Some ==> (r->0.normal_texture is Some <==> raw.normal_image is Some) && (
        raw.normal_image is Some ==> r->0.normal_texture->0
            == textures@[raw.normal_image->0 as int]),
{
    slots_hold_the_textures_named_for_them(*raw, textures@);
}

} // verus!
