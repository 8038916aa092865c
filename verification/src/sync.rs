//! Playing snapshots of the server: the view of the client is built anew when the entities change,
//! and only moved while they stay the same.
use crate::client_scene::{client_merged, ClientModel, ClientScene};
use crate::game_path::{Address, GamePath};
use crate::memory::MemoryLayer;
use crate::protocol::{
    entity_models, EntityKind, EntityModel, EntityState, KindModel, WorldSnapshot,
};
use crate::scene::{
    any_object, hangs_below, ObjectKey, SceneModel, SceneObject, SceneObjectKind,
};
use crate::scene_merge::{copy_of, sources};
use crate::text::{first_index, lemma_first_index, lemma_first_index_is};
use std::collections::HashMap;
use vstd::prelude::*;

verus! {

broadcast use vstd::std_specs::hash::group_hash_axioms;

/// What makes the structure of an entity: its number, and its model unless it is a light.
pub open spec fn structure_of<T, L>(e: EntityModel<T, L>) -> (u32, Option<Address>) {
    (
        e.id,
        match e.kind {
            KindModel::Mesh(a) => Some(a),
            KindModel::Light(_) => None,
        },
    )
}

/// The structure of a world: which entities there are and what they are, not where.
pub open spec fn structure<T, L>(entities: Seq<EntityModel<T, L>>) -> Seq<(u32, Option<Address>)> {
    entities.map_values(|e: EntityModel<T, L>| structure_of(e))
}

/// A view together with the objects of each entity and their own placements.
pub struct SyncState<T, L, M, C, E, N> {
    pub scene: ClientModel<T, L, M, C, E, N>,
    pub nodes: Map<u32, Seq<(ObjectKey, T)>>,
}

/// Each of the first `n` objects of the list is placed where the entity puts it, everything else
/// stays as it was.
pub open spec fn repositioned<T, L, F: Fn(T, T) -> T>(
    compose: F,
    outer: T,
    m0: SceneModel<T, L>,
    m1: SceneModel<T, L>,
    list: Seq<(ObjectKey, T)>,
    n: int,
) -> bool {
    &&& m1.nodes.dom() == m0.nodes.dom()
    &&& m1.light_cache == m0.light_cache
    &&& m1.next == m0.next
    &&& forall|k: ObjectKey| #[trigger]
        m0.nodes.contains_key(k) ==> m1.nodes[k].parent == m0.nodes[k].parent
            && m1.nodes[k].object.kind == m0.nodes[k].object.kind
    &&& forall|i: int|
        0 <= i < n && m0.nodes.contains_key((#[trigger] list[i]).0) ==> call_ensures(
            compose,
            (outer, list[i].1),
            m1.nodes[list[i].0].object.transform,
        )
    &&& forall|k: ObjectKey| #[trigger]
        m0.nodes.contains_key(k) && (forall|i: int| 0 <= i < n ==> (#[trigger] list[i]).0 != k)
            ==> m1.nodes[k] == m0.nodes[k]
}

/// The list names no object twice.
pub open spec fn distinct<T>(list: Seq<(ObjectKey, T)>) -> bool {
    forall|i: int, j: int|
        0 <= i < list.len() && 0 <= j < list.len() && (#[trigger] list[i]).0 == (
        #[trigger] list[j]).0 ==> i == j
}

/// No object belongs to two entities or twice to one.
pub open spec fn all_distinct<T>(nodes: Map<u32, Seq<(ObjectKey, T)>>) -> bool {
    forall|a: u32, i: int, b: u32, j: int|
        nodes.contains_key(a) && nodes.contains_key(b) && 0 <= i < nodes[a].len() && 0 <= j
            < nodes[b].len() && (#[trigger] nodes[a][i]).0 == (#[trigger] nodes[b][j]).0 ==> a == b
            && i == j
}

/// Places the objects of an entity.
fn reposition<T: Copy, L: Copy, M: Copy, C: Copy, E, N: Copy, F: Fn(T, T) -> T>(
    target: &mut ClientScene<T, L, M, C, E, N>,
    outer: T,
    list: &Vec<(ObjectKey, T)>,
    compose: &F,
)
    requires
        old(target).wf(),
        distinct(list@),
        forall|a: T, b: T| call_requires(*compose, (a, b)),
    ensures
        final(target).wf(),
        repositioned(
            *compose,
            outer,
            old(target)@.tree,
            final(target)@.tree,
            list@,
            list@.len() as int,
        ),
        final(target)@ == (ClientModel { tree: final(target)@.tree, ..old(target)@ }),
{
    let ghost before = target@;
    let mut i: usize = 0;
    while i < list.len()
        invariant
            target.wf(),
            i <= list@.len(),
            distinct(list@),
            forall|a: T, b: T| call_requires(*compose, (a, b)),
            repositioned(*compose, outer, before.tree, target@.tree, list@, i as int),
            target@ == (ClientModel { tree: target@.tree, ..before }),
        decreases list@.len() - i,
    {
        let (key, base) = list[i];
        let found = target.scene().object(key);
        if let Some(object) = found {
            let kind = object.kind;
            let placed = compose(outer, base);
            target.set_object(key, SceneObject { transform: placed, kind });
        }
        proof {
            assert(list@[i as int].0 == key);
            assert(target@.tree.nodes.dom() =~= before.tree.nodes.dom());
            assert forall|j: int|
                0 <= j < i + 1 && before.tree.nodes.contains_key(
                    (#[trigger] list@[j]).0,
                ) implies call_ensures(
                *compose,
                (outer, list@[j].1),
                target@.tree.nodes[list@[j].0].object.transform,
            ) by {
                if j < i {
                    assert(list@[j].0 != key);
                }
            }
            assert forall|k: ObjectKey| #[trigger]
                before.tree.nodes.contains_key(k) && (forall|j: int|
                    0 <= j < i + 1 ==> (#[trigger] list@[j]).0 != k) implies target@.tree.nodes[k]
                == before.tree.nodes[k] by {
                assert(list@[i as int].0 != k);
            }
        }
        i += 1;
    }
}

/// What merging a template makes of a view, and the keys of the copies of its roots.
pub open spec fn merged_roots<T, L, M, C, E, N>(
    before: ClientModel<T, L, M, C, E, N>,
    template: ClientModel<T, L, M, C, E, N>,
    after: ClientModel<T, L, M, C, E, N>,
    roots: Seq<ObjectKey>,
) -> bool {
    exists|remap: Seq<(ObjectKey, ObjectKey)>, old_roots: Seq<ObjectKey>|
        #![trigger
            client_merged(before, template, after, remap),
            template.tree.lists(old_roots, hangs_below(template.tree, None))]
        client_merged(before, template, after, remap) && template.tree.lists(
            old_roots,
            hangs_below(template.tree, None),
        ) && roots == old_roots.map_values(|k: ObjectKey| copy_of(remap, k))
}

pub(crate) proof fn lemma_merged_roots<T, L, M, C, E, N>(
    before: ClientModel<T, L, M, C, E, N>,
    template: ClientModel<T, L, M, C, E, N>,
    after: ClientModel<T, L, M, C, E, N>,
    roots: Seq<ObjectKey>,
)
    requires
        merged_roots(before, template, after, roots),
    ensures
        roots.no_duplicates(),
        forall|i: int|
            0 <= i < roots.len() ==> after.tree.nodes.contains_key(#[trigger] roots[i])
                && before.tree.next <= roots[i].serial < after.tree.next,
        before.tree.next <= after.tree.next,
{
    let (remap, old_roots) = choose|
        remap: Seq<(ObjectKey, ObjectKey)>,
        old_roots: Seq<ObjectKey>,
    |
        #![trigger
            client_merged(before, template, after, remap),
            template.tree.lists(old_roots, hangs_below(template.tree, None))]
        client_merged(before, template, after, remap) && template.tree.lists(
            old_roots,
            hangs_below(template.tree, None),
        ) && roots == old_roots.map_values(|k: ObjectKey| copy_of(remap, k));
    let from = sources(remap);
    assert forall|i: int| 0 <= i < roots.len() implies {
        let at = first_index(from, old_roots[i]);
        &&& 0 <= at < remap.len()
        &&& from[at] == old_roots[i]
        &&& #[trigger] roots[i] == remap[at].1
    } by {
        assert(old_roots.contains(old_roots[i]));
        assert(template.tree.nodes.contains_key(old_roots[i]));
        assert(template.tree.lists(from, any_object()));
        assert(from.contains(old_roots[i]));
        lemma_first_index(from, old_roots[i]);
    }
    assert forall|i: int, j: int|
        0 <= i < roots.len() && 0 <= j < roots.len() && i != j implies roots[i] != roots[j] by {
        assert(old_roots[i] != old_roots[j]) by {
            if i < j {
                assert(old_roots[i].index < old_roots[j].index);
            } else {
                assert(old_roots[j].index < old_roots[i].index);
            }
        }
        let a = first_index(from, old_roots[i]);
        let b = first_index(from, old_roots[j]);
        assert(roots[i] == remap[a].1);
        assert(roots[j] == remap[b].1);
        assert(from[a] == old_roots[i] && from[b] == old_roots[j]);
        assert(a != b);
        assert(remap[a].1.serial == before.tree.next + a);
        assert(remap[b].1.serial == before.tree.next + b);
    }
    assert forall|i: int| 0 <= i < roots.len() implies after.tree.nodes.contains_key(
        #[trigger] roots[i],
    ) && before.tree.next <= roots[i].serial < after.tree.next by {
        let a = first_index(from, old_roots[i]);
        assert(roots[i] == remap[a].1);
        assert(remap[a].1.serial == before.tree.next + a);
    }
}

/// Objects with the placements that they have.
pub open spec fn with_bases<T, L>(m: SceneModel<T, L>, keys: Seq<ObjectKey>) -> Seq<
    (ObjectKey, T),
> {
    keys.map_values(|k: ObjectKey| (k, m.nodes[k].object.transform))
}

/// What a light makes of a view: one object.
pub open spec fn light_spawned<T, L, M, C, E, N>(
    identity: T,
    e: EntityModel<T, L>,
    light: L,
    s0: SyncState<T, L, M, C, E, N>,
    s1: SyncState<T, L, M, C, E, N>,
    key: ObjectKey,
) -> bool {
    &&& key.serial == s0.scene.tree.next
    &&& !s0.scene.tree.nodes.contains_key(key)
    &&& s1.scene == (ClientModel {
        tree: s0.scene.tree.with_node(
            key,
            (SceneObject { transform: e.transform, kind: SceneObjectKind::Light(light) }),
            None,
        ),
        ..s0.scene
    })
    &&& s1.nodes == s0.nodes.insert(e.id, seq![(key, identity)])
}

/// What a model makes of a view: a copy of its template, the roots placed by the entity.
pub open spec fn model_spawned<T, L, M, C, E, N, F: Fn(T, T) -> T>(
    compose: F,
    e: EntityModel<T, L>,
    s0: SyncState<T, L, M, C, E, N>,
    s1: SyncState<T, L, M, C, E, N>,
    mid: ClientModel<T, L, M, C, E, N>,
    roots: Seq<ObjectKey>,
) -> bool {
    &&& s1.nodes == s0.nodes.insert(e.id, with_bases(mid.tree, roots))
    &&& repositioned(
        compose,
        e.transform,
        mid.tree,
        s1.scene.tree,
        with_bases(mid.tree, roots),
        roots.len() as int,
    )
    &&& s1.scene == (ClientModel { tree: s1.scene.tree, ..mid })
}

/// What a light makes of a view, under some new key.
pub open spec fn light_added<T, L, M, C, E, N>(
    identity: T,
    e: EntityModel<T, L>,
    light: L,
    s0: SyncState<T, L, M, C, E, N>,
    s1: SyncState<T, L, M, C, E, N>,
) -> bool {
    exists|key: ObjectKey| #[trigger] light_spawned(identity, e, light, s0, s1, key)
}

/// What a model with the given template makes of a view.
pub open spec fn model_added<T, L, M, C, E, N, F: Fn(T, T) -> T>(
    compose: F,
    e: EntityModel<T, L>,
    template: ClientModel<T, L, M, C, E, N>,
    s0: SyncState<T, L, M, C, E, N>,
    s1: SyncState<T, L, M, C, E, N>,
) -> bool {
    exists|mid: ClientModel<T, L, M, C, E, N>, roots: Seq<ObjectKey>| #[trigger]
        merged_roots(s0.scene, template, mid, roots) && model_spawned(compose, e, s0, s1, mid, roots)
}

/// What an entity makes of a view.
pub open spec fn spawned<T, L, M, C, E, N, F: Fn(T, T) -> T>(
    templates: Map<Address, ClientModel<T, L, M, C, E, N>>,
    identity: T,
    compose: F,
    e: EntityModel<T, L>,
    s0: SyncState<T, L, M, C, E, N>,
    s1: SyncState<T, L, M, C, E, N>,
) -> bool {
    match e.kind {
        KindModel::Light(light) => light_added(identity, e, light, s0, s1),
        KindModel::Mesh(a) => templates.contains_key(a) && model_added(
            compose,
            e,
            templates[a],
            s0,
            s1,
        ),
    }
}

/// The number of objects that an entity needs.
pub open spec fn objects_of<T, L, M, C, E, N>(
    templates: Map<Address, ClientModel<T, L, M, C, E, N>>,
    e: EntityModel<T, L>,
) -> nat {
    match e.kind {
        KindModel::Light(_) => 1,
        KindModel::Mesh(a) => if templates.contains_key(a) {
            templates[a].tree.nodes.dom().len()
        } else {
            0
        },
    }
}

/// The number of objects that some entities need.
pub open spec fn objects_needed<T, L, M, C, E, N>(
    templates: Map<Address, ClientModel<T, L, M, C, E, N>>,
    entities: Seq<EntityModel<T, L>>,
) -> nat
    decreases entities.len(),
{
    if entities.len() == 0 {
        0
    } else {
        objects_needed(templates, entities.drop_last()) + objects_of(templates, entities.last())
    }
}

/// The view can still take all objects that the entities need.
pub open spec fn room_for<T, L, M, C, E, N>(
    view: ClientModel<T, L, M, C, E, N>,
    templates: Map<Address, ClientModel<T, L, M, C, E, N>>,
    entities: Seq<EntityModel<T, L>>,
) -> bool {
    view.tree.next + objects_needed(templates, entities) <= u64::MAX
}

/// A view is built out of the first entities, one after another.
pub open spec fn spawned_all<T, L, M, C, E, N, F: Fn(T, T) -> T>(
    templates: Map<Address, ClientModel<T, L, M, C, E, N>>,
    identity: T,
    compose: F,
    entities: Seq<EntityModel<T, L>>,
    steps: Seq<SyncState<T, L, M, C, E, N>>,
) -> bool {
    &&& 0 < steps.len() <= entities.len() + 1
    &&& forall|i: int|
        0 <= i < steps.len() - 1 ==> spawned(
            templates,
            identity,
            compose,
            #[trigger] entities[i],
            steps[i],
            steps[i + 1],
        )
}

/// The view `last` is built out of the first `n` entities, beginning with an empty one.
pub open spec fn rebuilt<T, L, M, C, E, N, F: Fn(T, T) -> T>(
    templates: Map<Address, ClientModel<T, L, M, C, E, N>>,
    identity: T,
    compose: F,
    entities: Seq<EntityModel<T, L>>,
    empty: ClientModel<T, L, M, C, E, N>,
    last: SyncState<T, L, M, C, E, N>,
    n: int,
) -> bool {
    exists|steps: Seq<SyncState<T, L, M, C, E, N>>| #[trigger]
        spawned_all(templates, identity, compose, entities, steps) && steps.len() == n + 1
            && steps[0] == (SyncState { scene: empty, nodes: Map::empty() }) && steps.last() == last
}

/// The model of the entity has a template.
pub open spec fn can_spawn<T, L, M, C, E, N>(
    templates: Map<Address, ClientModel<T, L, M, C, E, N>>,
    e: EntityModel<T, L>,
) -> bool {
    match e.kind {
        KindModel::Light(_) => true,
        KindModel::Mesh(a) => templates.contains_key(a),
    }
}

/// The numbers of the entities.
pub open spec fn ids<T, L>(entities: Seq<EntityModel<T, L>>) -> Seq<u32> {
    entities.map_values(|e: EntityModel<T, L>| e.id)
}

/// An object of an entity that comes first with its number among the first `n`.
pub open spec fn reached<T, L>(
    entities: Seq<EntityModel<T, L>>,
    nodes: Map<u32, Seq<(ObjectKey, T)>>,
    id: u32,
    k: int,
    n: int,
) -> bool {
    &&& nodes.contains_key(id)
    &&& 0 <= k < nodes[id].len()
    &&& 0 <= first_index(ids(entities), id) < n
}

/// The objects of the first `n` entities are placed anew, everything else stays as it was.
pub open spec fn updated<T, L, F: Fn(T, T) -> T>(
    compose: F,
    entities: Seq<EntityModel<T, L>>,
    nodes: Map<u32, Seq<(ObjectKey, T)>>,
    m0: SceneModel<T, L>,
    m1: SceneModel<T, L>,
    n: int,
) -> bool {
    &&& m1.nodes.dom() == m0.nodes.dom()
    &&& m1.light_cache == m0.light_cache
    &&& m1.next == m0.next
    &&& forall|k: ObjectKey| #[trigger]
        m0.nodes.contains_key(k) ==> m1.nodes[k].parent == m0.nodes[k].parent
            && m1.nodes[k].object.kind == m0.nodes[k].object.kind
    &&& forall|id: u32, k: int| #[trigger]
        reached(entities, nodes, id, k, n) && m0.nodes.contains_key(nodes[id][k].0) ==> call_ensures(
            compose,
            (entities[first_index(ids(entities), id)].transform, nodes[id][k].1),
            m1.nodes[nodes[id][k].0].object.transform,
        )
    &&& forall|key: ObjectKey| #[trigger]
        m0.nodes.contains_key(key) && (forall|id: u32, k: int| #[trigger]
            reached(entities, nodes, id, k, n) ==> nodes[id][k].0 != key) ==> m1.nodes[key]
            == m0.nodes[key]
}

struct StructureItem {
    id: u32,
    model: Option<GamePath>,
}

spec fn item_structure(i: StructureItem) -> (u32, Option<Address>) {
    (
        i.id,
        match i.model {
            Some(p) => Some(p@),
            None => None,
        },
    )
}

/// Plays snapshots: knows the templates of models and which objects belong to which entity.
pub struct SnapshotPlayer<T, L, M, C, E, N> {
    templates: MemoryLayer<ClientScene<T, L, M, C, E, N>>,
    nodes: HashMap<u32, Vec<(ObjectKey, T)>>,
    signature: Option<Vec<StructureItem>>,
}

/// The contents of a player.
#[verifier::ext_equal]
pub struct PlayerModel<T, L, M, C, E, N> {
    pub templates: Map<Address, ClientModel<T, L, M, C, E, N>>,
    pub nodes: Map<u32, Seq<(ObjectKey, T)>>,
    pub signature: Option<Seq<(u32, Option<Address>)>>,
}

spec fn template_models<T, L, M, C, E, N>(
    m: Map<Address, ClientScene<T, L, M, C, E, N>>,
) -> Map<Address, ClientModel<T, L, M, C, E, N>> {
    Map::new(|a: Address| m.contains_key(a), |a: Address| m[a]@)
}

spec fn node_lists<T>(m: Map<u32, Vec<(ObjectKey, T)>>) -> Map<u32, Seq<(ObjectKey, T)>> {
    Map::new(|id: u32| m.contains_key(id), |id: u32| m[id]@)
}

impl<T, L, M, C, E, N> View for SnapshotPlayer<T, L, M, C, E, N> {
    type V = PlayerModel<T, L, M, C, E, N>;

    closed spec fn view(&self) -> PlayerModel<T, L, M, C, E, N> {
        PlayerModel {
            templates: template_models(self.templates@),
            nodes: node_lists(self.nodes@),
            signature: match self.signature {
                Some(list) => Some(list@.map_values(|i: StructureItem| item_structure(i))),
                None => None,
            },
        }
    }
}

impl<T: Copy, L: Copy, M: Copy, C: Copy, E, N: Copy> SnapshotPlayer<T, L, M, C, E, N> {
    /// The templates are in order, and no object belongs to two entities.
    pub closed spec fn wf(&self) -> bool {
        &&& forall|a: Address| #[trigger]
            self.templates@.contains_key(a) ==> self.templates@[a].wf()
        &&& all_distinct(self@.nodes)
    }

    /// Knows no template and has played nothing.
    pub fn new() -> (p: SnapshotPlayer<T, L, M, C, E, N>)
        ensures
            p.wf(),
            p@.templates =~= Map::empty(),
            p@.nodes =~= Map::empty(),
            p@.signature is None,
    {
        SnapshotPlayer { templates: MemoryLayer::new(), nodes: HashMap::new(), signature: None }
    }

    /// Whether the model has a template.
    pub fn has_template(&self, path: &GamePath) -> (b: bool)
        ensures
            b == self@.templates.contains_key(path@),
    {
        self.templates.get(path).is_some()
    }

    /// Remembers the template of a model.
    pub fn add_template(&mut self, path: GamePath, template: ClientScene<T, L, M, C, E, N>)
        requires
            old(self).wf(),
            template.wf(),
        ensures
            final(self).wf(),
            final(self)@ == (PlayerModel {
                templates: old(self)@.templates.insert(path@, template@),
                ..old(self)@
            }),
    {
        let ghost before = self@;
        let ghost a = path@;
        let ghost shown = template@;
        self.templates.insert(path, template);
        proof {
            assert(self@.templates =~= before.templates.insert(a, shown));
        }
    }

    /// Whether the entities are the same as when the view was last built.
    pub fn same_structure(&self, snap: &WorldSnapshot<T, L>) -> (b: bool)
        ensures
            b == (self@.signature == Some(structure(snap@.entities))),
    {
        let list = match &self.signature {
            None => {
                return false;
            },
            Some(list) => list,
        };
        let ghost have = list@.map_values(|i: StructureItem| item_structure(i));
        let ghost want = structure(snap@.entities);
        if list.len() != snap.entities.len() {
            proof {
                assert(have.len() != want.len());
            }
            return false;
        }
        let mut i: usize = 0;
        while i < list.len()
            invariant
                i <= list@.len() == snap.entities@.len(),
                have == list@.map_values(|i: StructureItem| item_structure(i)),
                want == structure(snap@.entities),
                forall|j: int| 0 <= j < i ==> have[j] == want[j],
                self@.signature == Some(have),
            decreases list@.len() - i,
        {
            proof {
                assert(snap@.entities[i as int] == snap.entities@[i as int]@);
                assert(have[i as int] == item_structure(list@[i as int]));
                assert(want[i as int] == structure_of(snap.entities@[i as int]@));
            }
            let same = list[i].id == snap.entities[i].id && match (
                &list[i].model,
                &snap.entities[i].kind,
            ) {
                (Some(a), EntityKind::Mesh(b)) => *a == *b,
                (None, EntityKind::Light(_)) => true,
                _ => false,
            };
            if !same {
                proof {
                    assert(have[i as int] != want[i as int]);
                }
                return false;
            }
            i += 1;
        }
        proof {
            assert(have =~= want);
        }
        true
    }

    /// The models that a snapshot needs and that have no template yet, in the order in which they
    /// come; none where the view need not be built anew.
    pub fn missing_templates(&self, snap: &WorldSnapshot<T, L>) -> (list: Vec<GamePath>)
        ensures
            crate::path_index::addresses(list@) == (if self@.signature == Some(
                structure(snap@.entities),
            ) {
                seq![]
            } else {
                unprepared(self@.templates, snap@.entities)
            }),
            crate::path_index::addresses(list@).no_duplicates(),
            forall|a: Address| #[trigger]
                crate::path_index::addresses(list@).contains(a) <==> self@.signature != Some(
                    structure(snap@.entities),
                ) && !self@.templates.contains_key(a) && exists|i: int|
                    0 <= i < snap@.entities.len() && (#[trigger] snap@.entities[i]).kind
                        == KindModel::<L>::Mesh(a),
    {
        let mut list: Vec<GamePath> = Vec::new();
        proof {
            assert(crate::path_index::addresses(list@) =~= Seq::<Address>::empty());
        }
        if self.same_structure(snap) {
            return list;
        }
        let ghost all = snap@.entities;
        proof {
            assert(all.take(0) =~= Seq::<EntityModel<T, L>>::empty());
        }
        let mut i: usize = 0;
        while i < snap.entities.len()
            invariant
                i <= snap.entities@.len(),
                all == snap@.entities,
                self@.signature != Some(structure(all)),
                crate::path_index::addresses(list@) == unprepared(
                    self@.templates,
                    all.take(i as int),
                ),
                crate::path_index::addresses(list@).no_duplicates(),
                forall|a: Address| #[trigger]
                    crate::path_index::addresses(list@).contains(a) <==> named(all, a, i as int)
                        && !self@.templates.contains_key(a),
            decreases snap.entities@.len() - i,
        {
            let ghost before = crate::path_index::addresses(list@);
            proof {
                assert(all[i as int] == snap.entities@[i as int]@);
                lemma_named_next(all, i as int);
                assert(all.take(i as int + 1).drop_last() =~= all.take(i as int));
            }
            if let EntityKind::Mesh(path) = &snap.entities[i].kind {
                if !self.has_template(path) && !listed(&list, path) {
                    list.push(path.clone());
                    proof {
                        let after = crate::path_index::addresses(list@);
                        assert(after =~= before.push(path@));
                        lemma_push_new(before, path@);
                    }
                }
            }
            i += 1;
        }
        proof {
            assert(all.take(i as int) =~= all);
            assert forall|a: Address| #[trigger]
                crate::path_index::addresses(list@).contains(a) <==> self@.signature != Some(
                    structure(snap@.entities),
                ) && !self@.templates.contains_key(a) && exists|i: int|
                    0 <= i < snap@.entities.len() && (#[trigger] snap@.entities[i]).kind
                        == KindModel::<L>::Mesh(a) by {
                assert(named(all, a, i as int) <==> exists|i: int|
                    0 <= i < snap@.entities.len() && (#[trigger] snap@.entities[i]).kind
                        == KindModel::<L>::Mesh(a));
            }
        }
        list
    }
}

/// The models of some entities that have no template, each where it comes first.
pub open spec fn unprepared<T, L, M, C, E, N>(
    templates: Map<Address, ClientModel<T, L, M, C, E, N>>,
    entities: Seq<EntityModel<T, L>>,
) -> Seq<Address>
    decreases entities.len(),
{
    if entities.len() == 0 {
        seq![]
    } else {
        let before = unprepared(templates, entities.drop_last());
        match entities.last().kind {
            KindModel::Mesh(a) => if templates.contains_key(a) || before.contains(a) {
                before
            } else {
                before.push(a)
            },
            KindModel::Light(_) => before,
        }
    }
}

/// The model is that of one of the first `n` entities.
pub open spec fn named<T, L>(entities: Seq<EntityModel<T, L>>, a: Address, n: int) -> bool {
    exists|i: int| 0 <= i < n && (#[trigger] entities[i]).kind == KindModel::<L>::Mesh(a)
}

proof fn lemma_named_next<T, L>(entities: Seq<EntityModel<T, L>>, n: int)
    requires
        0 <= n < entities.len(),
    ensures
        forall|a: Address| #[trigger]
            named(entities, a, n + 1) <==> named(entities, a, n) || entities[n].kind
                == KindModel::<L>::Mesh(a),
{
    assert forall|a: Address| #[trigger]
        named(entities, a, n + 1) <==> named(entities, a, n) || entities[n].kind == KindModel::<
            L,
        >::Mesh(a) by {
        if named(entities, a, n + 1) {
            let i = choose|i: int|
                0 <= i < n + 1 && (#[trigger] entities[i]).kind == KindModel::<L>::Mesh(a);
            if i < n {
                assert(entities[i].kind == KindModel::<L>::Mesh(a));
            }
        }
    }
}

pub(crate) proof fn lemma_push_new(s: Seq<Address>, x: Address)
    requires
        s.no_duplicates(),
        !s.contains(x),
    ensures
        s.push(x).no_duplicates(),
        forall|a: Address| #[trigger] s.push(x).contains(a) <==> s.contains(a) || a == x,
{
    let t = s.push(x);
    assert forall|a: Address| #[trigger] t.contains(a) <==> s.contains(a) || a == x by {
        if s.contains(a) {
            let i = choose|i: int| 0 <= i < s.len() && s[i] == a;
            assert(t[i] == a);
        }
        if a == x {
            assert(t[s.len() as int] == a);
        }
    }
    assert forall|i: int, j: int|
        0 <= i < t.len() && 0 <= j < t.len() && i != j implies t[i] != t[j] by {
        if i < s.len() {
            assert(s.contains(s[i]));
        }
        if j < s.len() {
            assert(s.contains(s[j]));
        }
    }
}

fn listed(list: &Vec<GamePath>, path: &GamePath) -> (b: bool)
    ensures
        b == crate::path_index::addresses(list@).contains(path@),
{
    let ghost all = crate::path_index::addresses(list@);
    let mut i: usize = 0;
    while i < list.len()
        invariant
            i <= list@.len(),
            all == crate::path_index::addresses(list@),
            forall|j: int| 0 <= j < i ==> all[j] != path@,
        decreases list@.len() - i,
    {
        proof {
            assert(all[i as int] == list@[i as int]@);
        }
        if list[i] == *path {
            return true;
        }
        i += 1;
    }
    false
}

/// All objects of entities are older than the next one.
pub open spec fn aged<T>(nodes: Map<u32, Seq<(ObjectKey, T)>>, next: u64) -> bool {
    forall|id: u32, k: int|
        nodes.contains_key(id) && 0 <= k < nodes[id].len() ==> (#[trigger] nodes[id][k]).0.serial
            < next
}

proof fn lemma_nodes_insert<T>(
    nodes: Map<u32, Seq<(ObjectKey, T)>>,
    id: u32,
    list: Seq<(ObjectKey, T)>,
    next: u64,
    after: u64,
)
    requires
        all_distinct(nodes),
        aged(nodes, next),
        next <= after,
        distinct(list),
        forall|i: int| 0 <= i < list.len() ==> next <= (#[trigger] list[i]).0.serial < after,
    ensures
        all_distinct(nodes.insert(id, list)),
        aged(nodes.insert(id, list), after),
{
    let n2 = nodes.insert(id, list);
    assert forall|a: u32, i: int, b: u32, j: int|
        n2.contains_key(a) && n2.contains_key(b) && 0 <= i < n2[a].len() && 0 <= j < n2[b].len()
            && (#[trigger] n2[a][i]).0 == (#[trigger] n2[b][j]).0 implies a == b && i == j by {
        if a != id && b != id {
            assert(nodes[a][i].0 == nodes[b][j].0);
        } else if a == id && b == id {
            assert(list[i].0 == list[j].0);
        } else if a == id {
            assert(list[i].0.serial >= next);
            assert(nodes[b][j].0.serial < next);
        } else {
            assert(list[j].0.serial >= next);
            assert(nodes[a][i].0.serial < next);
        }
    }
    assert forall|a: u32, k: int|
        n2.contains_key(a) && 0 <= k < n2[a].len() implies (#[trigger] n2[a][k]).0.serial
        < after by {
        if a == id {
            assert(list[k].0.serial < after);
        } else {
            assert(nodes[a][k].0.serial < next);
        }
    }
}

impl<T: Copy, L: Copy, M: Copy, C: Copy, E, N: Copy> SnapshotPlayer<T, L, M, C, E, N> {
    /// Adds the objects of an entity to the view; the model without a template where it has none.
    fn spawn_entity<F: Fn(T, T) -> T>(
        &mut self,
        target: &mut ClientScene<T, L, M, C, E, N>,
        entity: &EntityState<T, L>,
        identity: T,
        compose: &F,
    ) -> (r: Result<(), GamePath>)
        requires
            old(self).wf(),
            old(target).wf(),
            aged(old(self)@.nodes, old(target)@.tree.next),
            old(target)@.tree.next + objects_of(old(self)@.templates, entity@) <= u64::MAX,
            forall|a: T, b: T| call_requires(*compose, (a, b)),
        ensures
            final(self).wf(),
            final(target).wf(),
            aged(final(self)@.nodes, final(target)@.tree.next),
            final(self)@.templates == old(self)@.templates,
            final(self)@.signature == old(self)@.signature,
            r is Ok <==> can_spawn(old(self)@.templates, entity@),
            match r {
                Ok(()) => spawned(
                    old(self)@.templates,
                    identity,
                    *compose,
                    entity@,
                    (SyncState { scene: old(target)@, nodes: old(self)@.nodes }),
                    (SyncState { scene: final(target)@, nodes: final(self)@.nodes }),
                ) && final(target)@.tree.next == old(target)@.tree.next + objects_of(
                    old(self)@.templates,
                    entity@,
                ),
                Err(path) => entity@.kind == KindModel::<L>::Mesh(path@) && final(target)@ == old(target)@
                    && final(self)@ == old(self)@,
            },
    {
        let ghost nodes0 = self@.nodes;
        let ghost before = target@;
        let ghost s0 = SyncState { scene: before, nodes: nodes0 };
        let ghost templates = self@.templates;
        match &entity.kind {
            EntityKind::Light(light) => {
                let key = target.add_object(
                    SceneObject { transform: entity.transform, kind: SceneObjectKind::Light(*light) },
                );
                let mut list: Vec<(ObjectKey, T)> = Vec::new();
                list.push((key, identity));
                let ghost shown = list@;
                self.nodes.insert(entity.id, list);
                proof {
                    assert(shown =~= seq![(key, identity)]);
                    assert(self@.nodes =~= nodes0.insert(entity.id, shown));
                    lemma_nodes_insert(
                        nodes0,
                        entity.id,
                        shown,
                        before.tree.next,
                        target@.tree.next,
                    );
                    let s1 = SyncState { scene: target@, nodes: self@.nodes };
                    assert(entity@.kind == KindModel::Light(*light));
                    assert(light_spawned(identity, entity@, *light, s0, s1, key));
                    assert(light_added(identity, entity@, *light, s0, s1));
                    assert(spawned(templates, identity, *compose, entity@, s0, s1));
                }
                Ok(())
            },
            EntityKind::Mesh(path) => {
                let template = match self.templates.get(path) {
                    None => {
                        return Err(path.clone());
                    },
                    Some(template) => template,
                };
                proof {
                    assert(template@ == templates[path@]);
                }
                let roots = target.merge(template);
                let ghost mid = target@;
                proof {
                    assert(merged_roots(before, templates[path@], mid, roots@));
                    lemma_merged_roots(before, templates[path@], mid, roots@);
                }
                let list = self::bases(target, &roots);
                let ghost shown = list@;
                proof {
                    assert(distinct(shown)) by {
                        assert forall|i: int, j: int|
                            0 <= i < shown.len() && 0 <= j < shown.len() && (#[trigger] shown[i]).0
                                == (#[trigger] shown[j]).0 implies i == j by {
                            assert(roots@[i] == roots@[j]);
                        }
                    }
                    assert forall|i: int| 0 <= i < shown.len() implies before.tree.next <= (
                    #[trigger] shown[i]).0.serial < mid.tree.next by {
                        assert(roots@[i] == shown[i].0);
                    }
                }
                reposition(target, entity.transform, &list, compose);
                self.nodes.insert(entity.id, list);
                proof {
                    assert(self@.nodes =~= nodes0.insert(entity.id, shown));
                    lemma_nodes_insert(
                        nodes0,
                        entity.id,
                        shown,
                        before.tree.next,
                        target@.tree.next,
                    );
                    let s1 = SyncState { scene: target@, nodes: self@.nodes };
                    assert(model_spawned(*compose, entity@, s0, s1, mid, roots@));
                    assert(merged_roots(s0.scene, templates[path@], mid, roots@));
                    assert(model_added(*compose, entity@, templates[path@], s0, s1));
                    lemma_merge_grows(before, templates[path@], mid, roots@);
                    assert(spawned(templates, identity, *compose, entity@, s0, s1));
                }
                Ok(())
            },
        }
    }
}

proof fn lemma_merge_grows<T, L, M, C, E, N>(
    before: ClientModel<T, L, M, C, E, N>,
    template: ClientModel<T, L, M, C, E, N>,
    after: ClientModel<T, L, M, C, E, N>,
    roots: Seq<ObjectKey>,
)
    requires
        merged_roots(before, template, after, roots),
    ensures
        after.tree.next == before.tree.next + template.tree.nodes.dom().len(),
{
    let remap = choose|remap: Seq<(ObjectKey, ObjectKey)>| #[trigger]
        client_merged(before, template, after, remap);
    let from = sources(remap);
    assert(template.tree.lists(from, any_object()));
    assert(from.no_duplicates()) by {
        assert forall|i: int, j: int|
            0 <= i < from.len() && 0 <= j < from.len() && i != j implies from[i] != from[j] by {
            if i < j {
                assert(from[i].index < from[j].index);
            } else {
                assert(from[j].index < from[i].index);
            }
        }
    }
    from.unique_seq_to_set();
    assert(from.to_set() =~= template.tree.nodes.dom()) by {
        assert forall|k: ObjectKey| from.to_set().contains(k) == template.tree.nodes.dom().contains(
            k,
        ) by {
            assert(from.contains(k) <==> template.tree.nodes.contains_key(k));
        }
    }
}

/// The objects with the placements that they have.
fn bases<T: Copy, L: Copy, M: Copy, C: Copy, E, N: Copy>(
    target: &ClientScene<T, L, M, C, E, N>,
    roots: &Vec<ObjectKey>,
) -> (list: Vec<(ObjectKey, T)>)
    requires
        target.wf(),
        forall|i: int|
            0 <= i < roots@.len() ==> target@.tree.nodes.contains_key(#[trigger] roots@[i]),
    ensures
        list@ == with_bases(target@.tree, roots@),
{
    let mut list: Vec<(ObjectKey, T)> = Vec::new();
    let mut i: usize = 0;
    while i < roots.len()
        invariant
            target.wf(),
            i <= roots@.len(),
            forall|i: int|
                0 <= i < roots@.len() ==> target@.tree.nodes.contains_key(#[trigger] roots@[i]),
            list@ =~= with_bases(target@.tree, roots@).take(i as int),
        decreases roots@.len() - i,
    {
        let key = roots[i];
        proof {
            assert(target@.tree.nodes.contains_key(roots@[i as int]));
        }
        if let Some(object) = target.scene().object(key) {
            list.push((key, object.transform));
        }
        i += 1;
    }
    proof {
        assert(with_bases(target@.tree, roots@).take(i as int) =~= with_bases(
            target@.tree,
            roots@,
        ));
    }
    list
}

/// What playing a snapshot with the structure of the last one makes of a view.
pub open spec fn moved_only<T, L, M, C, E, N, F: Fn(T, T) -> T>(
    compose: F,
    entities: Seq<EntityModel<T, L>>,
    nodes: Map<u32, Seq<(ObjectKey, T)>>,
    v0: ClientModel<T, L, M, C, E, N>,
    v1: ClientModel<T, L, M, C, E, N>,
) -> bool {
    &&& updated(compose, entities, nodes, v0.tree, v1.tree, entities.len() as int)
    &&& v1 == (ClientModel { tree: v1.tree, ..v0 })
}

/// What playing a snapshot with another structure makes of player and view: the view is built
/// anew, up to the first model without a template.
pub open spec fn built_anew<T, L, M, C, E, N, F: Fn(T, T) -> T>(
    identity: T,
    compose: F,
    entities: Seq<EntityModel<T, L>>,
    p0: PlayerModel<T, L, M, C, E, N>,
    p1: PlayerModel<T, L, M, C, E, N>,
    v0: ClientModel<T, L, M, C, E, N>,
    v1: ClientModel<T, L, M, C, E, N>,
    failed: Option<Address>,
) -> bool {
    let last = SyncState { scene: v1, nodes: p1.nodes };
    let n = spawnable(p0.templates, entities);
    &&& p1.templates == p0.templates
    &&& rebuilt(p0.templates, identity, compose, entities, v0.cleared(), last, n)
    &&& if n == entities.len() {
        failed is None && p1.signature == Some(structure(entities))
    } else {
        failed is Some && entities[n].kind == KindModel::<L>::Mesh(failed->0) && p1.signature
            == p0.signature
    }
}

/// The number of entities before the first model without a template.
pub open spec fn spawnable<T, L, M, C, E, N>(
    templates: Map<Address, ClientModel<T, L, M, C, E, N>>,
    entities: Seq<EntityModel<T, L>>,
) -> int
    decreases entities.len(),
{
    if entities.len() == 0 {
        0
    } else {
        let before = spawnable(templates, entities.drop_last());
        if before < entities.len() - 1 || !can_spawn(templates, entities.last()) {
            before
        } else {
            entities.len() as int
        }
    }
}

proof fn lemma_spawnable<T, L, M, C, E, N>(
    templates: Map<Address, ClientModel<T, L, M, C, E, N>>,
    entities: Seq<EntityModel<T, L>>,
    n: int,
)
    requires
        0 <= n <= entities.len(),
        forall|i: int| 0 <= i < n ==> can_spawn(templates, #[trigger] entities[i]),
        n < entities.len() ==> !can_spawn(templates, entities[n]),
    ensures
        spawnable(templates, entities) == n,
    decreases entities.len(),
{
    if entities.len() > 0 {
        let head = entities.drop_last();
        if n < entities.len() {
            assert forall|i: int| 0 <= i < n implies can_spawn(templates, #[trigger] head[i]) by {
                assert(entities[i] == head[i]);
            }
            lemma_spawnable(templates, head, n);
        } else {
            assert forall|i: int| 0 <= i < n - 1 implies can_spawn(
                templates,
                #[trigger] head[i],
            ) by {
                assert(entities[i] == head[i]);
            }
            lemma_spawnable(templates, head, n - 1);
        }
    }
}

proof fn lemma_needed_prefix<T, L, M, C, E, N>(
    templates: Map<Address, ClientModel<T, L, M, C, E, N>>,
    entities: Seq<EntityModel<T, L>>,
    n: int,
)
    requires
        0 <= n <= entities.len(),
    ensures
        objects_needed(templates, entities.take(n)) <= objects_needed(templates, entities),
    decreases entities.len(),
{
    if n < entities.len() {
        lemma_needed_prefix(templates, entities.drop_last(), n);
        assert(entities.drop_last().take(n) =~= entities.take(n));
    } else {
        assert(entities.take(n) =~= entities);
    }
}

impl<T: Copy, L: Copy, M: Copy, C: Copy, E, N: Copy> SnapshotPlayer<T, L, M, C, E, N> {
    /// Whether the view can still take all objects that the entities of a snapshot need.
    pub fn has_room(&self, snap: &WorldSnapshot<T, L>, target: &ClientScene<T, L, M, C, E, N>) -> (b:
        bool)
        requires
            self.wf(),
        ensures
            b == room_for(target@, self@.templates, snap@.entities),
    {
        let ghost all = snap@.entities;
        let ghost templates = self@.templates;
        let ghost room = u64::MAX - target@.tree.next;
        let mut left = target.room();
        let mut i: usize = 0;
        proof {
            assert(all.take(0) =~= Seq::<EntityModel<T, L>>::empty());
        }
        while i < snap.entities.len()
            invariant
                self.wf(),
                all == snap@.entities,
                i <= all.len() == snap.entities@.len(),
                templates == self@.templates,
                room == u64::MAX - target@.tree.next,
                left == room - objects_needed(templates, all.take(i as int)),
            decreases all.len() - i,
        {
            proof {
                assert(all[i as int] == snap.entities@[i as int]@);
                let next = all.take(i as int + 1);
                assert(next.drop_last() =~= all.take(i as int));
                assert(next.last() == all[i as int]);
                lemma_needed_prefix(templates, all, i as int + 1);
            }
            let needed: u64 = match &snap.entities[i].kind {
                EntityKind::Light(_) => 1,
                EntityKind::Mesh(path) => match self.templates.get(path) {
                    Some(template) => {
                        proof {
                            assert(self.templates@.contains_key(path@));
                        }
                        template.scene().object_count() as u64
                    },
                    None => 0,
                },
            };
            if needed > left {
                return false;
            }
            left = left - needed;
            i += 1;
        }
        proof {
            assert(all.take(i as int) =~= all);
        }
        true
    }

    /// Plays a snapshot. While the entities stay the same their objects are only moved; else the
    /// view is built anew. Tells whether it was; gives the model that has no template, where
    /// there is one, with the view built up to it.
    pub fn apply<F: Fn(T, T) -> T>(
        &mut self,
        snap: &WorldSnapshot<T, L>,
        target: &mut ClientScene<T, L, M, C, E, N>,
        identity: T,
        compose: &F,
    ) -> (r: Result<bool, GamePath>)
        requires
            old(self).wf(),
            old(target).wf(),
            old(self)@.signature == Some(structure(snap@.entities)) || room_for(
                old(target)@,
                old(self)@.templates,
                snap@.entities,
            ),
            forall|a: T, b: T| call_requires(*compose, (a, b)),
        ensures
            final(self).wf(),
            final(target).wf(),
            if old(self)@.signature == Some(structure(snap@.entities)) {
                r is Ok && !r->Ok_0 && final(self)@ == old(self)@ && moved_only(
                    *compose,
                    snap@.entities,
                    old(self)@.nodes,
                    old(target)@,
                    final(target)@,
                )
            } else {
                (r is Ok ==> r->Ok_0) && built_anew(
                    identity,
                    *compose,
                    snap@.entities,
                    old(self)@,
                    final(self)@,
                    old(target)@,
                    final(target)@,
                    failed_model(r),
                )
            },
    {
        if self.same_structure(snap) {
            self.move_objects(snap, target, compose);
            Ok(false)
        } else {
            self.rebuild(snap, target, identity, compose)
        }
    }

    fn rebuild<F: Fn(T, T) -> T>(
        &mut self,
        snap: &WorldSnapshot<T, L>,
        target: &mut ClientScene<T, L, M, C, E, N>,
        identity: T,
        compose: &F,
    ) -> (r: Result<bool, GamePath>)
        requires
            old(self).wf(),
            old(target).wf(),
            old(target)@.tree.next + objects_needed(old(self)@.templates, snap@.entities)
                <= u64::MAX,
            forall|a: T, b: T| call_requires(*compose, (a, b)),
        ensures
            final(self).wf(),
            final(target).wf(),
            r is Ok ==> r->Ok_0,
            built_anew(
                identity,
                *compose,
                snap@.entities,
                old(self)@,
                final(self)@,
                old(target)@,
                final(target)@,
                failed_model(r),
            ),
    {
        let ghost all = snap@.entities;
        let ghost templates = self@.templates;
        let ghost first = target@;
        target.clear_entities();
        self.nodes = HashMap::new();
        proof {
            assert(self@.nodes =~= Map::empty());
        }
        let ghost mut steps: Seq<SyncState<T, L, M, C, E, N>> = seq![
            SyncState { scene: target@, nodes: self@.nodes },
        ];
        let mut i: usize = 0;
        proof {
            assert(all.take(0) =~= Seq::<EntityModel<T, L>>::empty());
        }
        while i < snap.entities.len()
            invariant
                self.wf(),
                target.wf(),
                all == snap@.entities,
                i <= all.len() == snap.entities@.len(),
                templates == self@.templates,
                templates == old(self)@.templates,
                self@.signature == old(self)@.signature,
                aged(self@.nodes, target@.tree.next),
                first == old(target)@,
                target@.tree.next == first.tree.next + objects_needed(
                    templates,
                    all.take(i as int),
                ),
                first.tree.next + objects_needed(templates, all) <= u64::MAX,
                forall|a: T, b: T| call_requires(*compose, (a, b)),
                steps.len() == i + 1,
                steps[0] == (SyncState::<T, L, M, C, E, N> {
                    scene: first.cleared(),
                    nodes: Map::empty(),
                }),
                steps.last() == (SyncState { scene: target@, nodes: self@.nodes }),
                forall|j: int| 0 <= j < i ==> can_spawn(templates, #[trigger] all[j]),
                forall|j: int|
                    0 <= j < i ==> spawned(
                        templates,
                        identity,
                        *compose,
                        #[trigger] all[j],
                        steps[j],
                        steps[j + 1],
                    ),
            decreases all.len() - i,
        {
            let ghost steps0 = steps;
            proof {
                assert(all[i as int] == snap.entities@[i as int]@);
                let next = all.take(i as int + 1);
                assert(next.drop_last() =~= all.take(i as int));
                assert(next.last() == all[i as int]);
                lemma_needed_prefix(templates, all, i as int + 1);
            }
            match self.spawn_entity(target, &snap.entities[i], identity, compose) {
                Err(path) => {
                    proof {
                        lemma_spawnable(templates, all, i as int);
                        assert(spawned_all(templates, identity, *compose, all, steps));
                        let last = SyncState { scene: target@, nodes: self@.nodes };
                        assert(rebuilt(
                            templates,
                            identity,
                            *compose,
                            all,
                            first.cleared(),
                            last,
                            i as int,
                        ));
                    }
                    return Err(path);
                },
                Ok(()) => {},
            }
            proof {
                steps = steps.push(SyncState { scene: target@, nodes: self@.nodes });
                assert forall|j: int| 0 <= j < i + 1 implies spawned(
                    templates,
                    identity,
                    *compose,
                    #[trigger] all[j],
                    steps[j],
                    steps[j + 1],
                ) by {
                    if j < i {
                        assert(steps[j] == steps0[j] && steps[j + 1] == steps0[j + 1]);
                    }
                }
            }
            i += 1;
        }
        let signature = self::structure_items(&snap.entities);
        let ghost sig = signature@.map_values(|i: StructureItem| item_structure(i));
        self.signature = Some(signature);
        proof {
            lemma_spawnable(templates, all, all.len() as int);
            assert(spawned_all(templates, identity, *compose, all, steps));
            let last = SyncState { scene: target@, nodes: self@.nodes };
            assert(rebuilt(
                templates,
                identity,
                *compose,
                all,
                first.cleared(),
                last,
                all.len() as int,
            ));
            assert(self@.signature == Some(sig));
        }
        Ok(true)
    }

    fn move_objects<F: Fn(T, T) -> T>(
        &self,
        snap: &WorldSnapshot<T, L>,
        target: &mut ClientScene<T, L, M, C, E, N>,
        compose: &F,
    )
        requires
            self.wf(),
            old(target).wf(),
            forall|a: T, b: T| call_requires(*compose, (a, b)),
        ensures
            final(target).wf(),
            moved_only(
                *compose,
                snap@.entities,
                self@.nodes,
                old(target)@,
                final(target)@,
            ),
    {
        let ghost all = snap@.entities;
        let ghost names = ids(all);
        let ghost nodes = self@.nodes;
        let ghost first = target@;
        let mut i: usize = 0;
        while i < snap.entities.len()
            invariant
                self.wf(),
                target.wf(),
                all == snap@.entities,
                names == ids(all),
                nodes == self@.nodes,
                i <= all.len() == snap.entities@.len(),
                forall|a: T, b: T| call_requires(*compose, (a, b)),
                updated(*compose, all, nodes, first.tree, target@.tree, i as int),
                target@ == (ClientModel { tree: target@.tree, ..first }),
            decreases all.len() - i,
        {
            let id = snap.entities[i].id;
            let ghost now = target@.tree;
            proof {
                assert(all[i as int] == snap.entities@[i as int]@);
                assert(names[i as int] == id);
            }
            if !self::comes_before(&snap.entities, i) {
                proof {
                    lemma_first_index_is(names, id, i as int);
                }
                match self.nodes.get(&id) {
                    Some(list) => {
                        proof {
                            assert(nodes[id] == list@);
                            assert(distinct(list@)) by {
                                assert forall|a: int, b: int|
                                    0 <= a < list@.len() && 0 <= b < list@.len() && (
                                    #[trigger] list@[a]).0 == (
                                    #[trigger] list@[b]).0 implies a == b by {
                                    assert(nodes[id][a].0 == nodes[id][b].0);
                                }
                            }
                        }
                        reposition(target, snap.entities[i].transform, list, compose);
                        proof {
                            lemma_update_one(
                                *compose,
                                all,
                                nodes,
                                first.tree,
                                now,
                                target@.tree,
                                i as int,
                            );
                        }
                    },
                    None => {
                        proof {
                            lemma_update_none(
                                *compose,
                                all,
                                nodes,
                                first.tree,
                                now,
                                i as int,
                            );
                        }
                    },
                }
            } else {
                proof {
                    lemma_first_index(names, id);
                    lemma_update_none(*compose, all, nodes, first.tree, now, i as int);
                }
            }
            i += 1;
        }
    }
}

/// The model without a template that ended the building.
pub open spec fn failed_model(r: Result<bool, GamePath>) -> Option<Address> {
    match r {
        Ok(_) => None,
        Err(path) => Some(path@),
    }
}

proof fn lemma_update_none<T, L, F: Fn(T, T) -> T>(
    compose: F,
    entities: Seq<EntityModel<T, L>>,
    nodes: Map<u32, Seq<(ObjectKey, T)>>,
    m0: SceneModel<T, L>,
    m1: SceneModel<T, L>,
    i: int,
)
    requires
        0 <= i < entities.len(),
        updated(compose, entities, nodes, m0, m1, i),
        !nodes.contains_key(entities[i].id) || first_index(ids(entities), entities[i].id) != i,
    ensures
        updated(compose, entities, nodes, m0, m1, i + 1),
{
    assert forall|id: u32, k: int| reached(entities, nodes, id, k, i + 1) == reached(
        entities,
        nodes,
        id,
        k,
        i,
    ) by {
        lemma_first_index(ids(entities), id);
        if first_index(ids(entities), id) == i {
            assert(ids(entities)[i] == id);
            assert(entities[i].id == id);
        }
    }
    assert forall|id: u32, k: int| #[trigger]
        reached(entities, nodes, id, k, i + 1) && m0.nodes.contains_key(
            nodes[id][k].0,
        ) implies call_ensures(
        compose,
        (entities[first_index(ids(entities), id)].transform, nodes[id][k].1),
        m1.nodes[nodes[id][k].0].object.transform,
    ) by {
        assert(reached(entities, nodes, id, k, i));
    }
    assert forall|key: ObjectKey| #[trigger]
        m0.nodes.contains_key(key) && (forall|id: u32, k: int| #[trigger]
            reached(entities, nodes, id, k, i + 1) ==> nodes[id][k].0 != key) implies m1.nodes[key]
        == m0.nodes[key] by {
        assert forall|id: u32, k: int| #[trigger]
            reached(entities, nodes, id, k, i) implies nodes[id][k].0 != key by {
            assert(reached(entities, nodes, id, k, i + 1));
        }
    }
}

proof fn lemma_update_one<T, L, F: Fn(T, T) -> T>(
    compose: F,
    entities: Seq<EntityModel<T, L>>,
    nodes: Map<u32, Seq<(ObjectKey, T)>>,
    m0: SceneModel<T, L>,
    m1: SceneModel<T, L>,
    m2: SceneModel<T, L>,
    i: int,
)
    requires
        0 <= i < entities.len(),
        all_distinct(nodes),
        updated(compose, entities, nodes, m0, m1, i),
        nodes.contains_key(entities[i].id),
        first_index(ids(entities), entities[i].id) == i,
        repositioned(
            compose,
            entities[i].transform,
            m1,
            m2,
            nodes[entities[i].id],
            nodes[entities[i].id].len() as int,
        ),
    ensures
        updated(compose, entities, nodes, m0, m2, i + 1),
{
    let own = entities[i].id;
    let list = nodes[own];
    assert(m2.nodes.dom() =~= m0.nodes.dom());
    assert forall|k: ObjectKey| #[trigger] m0.nodes.contains_key(k) implies m2.nodes[k].parent
        == m0.nodes[k].parent && m2.nodes[k].object.kind == m0.nodes[k].object.kind by {
        assert(m1.nodes.contains_key(k));
    }
    assert forall|id: u32, k: int| #[trigger]
        reached(entities, nodes, id, k, i + 1) && m0.nodes.contains_key(
            nodes[id][k].0,
        ) implies call_ensures(
        compose,
        (entities[first_index(ids(entities), id)].transform, nodes[id][k].1),
        m2.nodes[nodes[id][k].0].object.transform,
    ) by {
        let key = nodes[id][k].0;
        assert(m1.nodes.contains_key(key));
        if id == own {
            assert(list[k].0 == key);
        } else {
            lemma_first_index(ids(entities), id);
            if first_index(ids(entities), id) == i {
                assert(ids(entities)[i] == id);
                assert(entities[i].id == id);
            }
            assert(reached(entities, nodes, id, k, i));
            assert forall|j: int| 0 <= j < list.len() implies (#[trigger] list[j]).0 != key by {
                assert(nodes[own][j].0 != nodes[id][k].0);
            }
            assert(m2.nodes[key] == m1.nodes[key]);
        }
    }
    assert forall|key: ObjectKey| #[trigger]
        m0.nodes.contains_key(key) && (forall|id: u32, k: int| #[trigger]
            reached(entities, nodes, id, k, i + 1) ==> nodes[id][k].0 != key) implies m2.nodes[key]
        == m0.nodes[key] by {
        assert(m1.nodes.contains_key(key));
        assert forall|id: u32, k: int| #[trigger]
            reached(entities, nodes, id, k, i) implies nodes[id][k].0 != key by {
            assert(reached(entities, nodes, id, k, i + 1));
        }
        assert forall|j: int| 0 <= j < list.len() implies (#[trigger] list[j]).0 != key by {
            assert(reached(entities, nodes, own, j, i + 1));
        }
    }
}

/// Whether an earlier entity has the same number.
fn comes_before<T, L>(entities: &Vec<EntityState<T, L>>, i: usize) -> (b: bool)
    requires
        i < entities@.len(),
    ensures
        !b ==> forall|j: int|
            0 <= j < i ==> ids(entity_models(entities@))[j] != entities@[i as int].id,
        b ==> first_index(ids(entity_models(entities@)), entities@[i as int].id) < i,
{
    let ghost names = ids(entity_models(entities@));
    let mut j: usize = 0;
    while j < i
        invariant
            j <= i < entities@.len(),
            names == ids(entity_models(entities@)),
            forall|k: int| 0 <= k < j ==> names[k] != entities@[i as int].id,
        decreases i - j,
    {
        proof {
            assert(names[j as int] == entities@[j as int].id);
        }
        if entities[j].id == entities[i].id {
            proof {
                lemma_first_index_is(names, entities@[i as int].id, j as int);
            }
            return true;
        }
        j += 1;
    }
    false
}

fn structure_items<T, L>(entities: &Vec<EntityState<T, L>>) -> (list: Vec<StructureItem>)
    ensures
        list@.map_values(|i: StructureItem| item_structure(i)) == structure(
            entity_models(entities@),
        ),
{
    let ghost want = structure(entity_models(entities@));
    let mut list: Vec<StructureItem> = Vec::new();
    let mut i: usize = 0;
    while i < entities.len()
        invariant
            i <= entities@.len(),
            want == structure(entity_models(entities@)),
            list@.len() == i,
            forall|j: int| 0 <= j < i ==> item_structure(#[trigger] list@[j]) == want[j],
        decreases entities@.len() - i,
    {
        let model = match &entities[i].kind {
            EntityKind::Mesh(path) => Some(path.clone()),
            EntityKind::Light(_) => None,
        };
        list.push(StructureItem { id: entities[i].id, model });
        proof {
            assert(want[i as int] == structure_of(entities@[i as int]@));
        }
        i += 1;
    }
    proof {
        assert(list@.map_values(|i: StructureItem| item_structure(i)) =~= want);
    }
    list
}

/// Once a view was built, snapshots of the same entities only move it; while building it failed,
/// the next snapshot of the same entities builds it anew.
pub proof fn only_complete_views_are_kept<T, L, M, C, E, N, F: Fn(T, T) -> T>(
    identity: T,
    compose: F,
    entities: Seq<EntityModel<T, L>>,
    p0: PlayerModel<T, L, M, C, E, N>,
    p1: PlayerModel<T, L, M, C, E, N>,
    v0: ClientModel<T, L, M, C, E, N>,
    v1: ClientModel<T, L, M, C, E, N>,
    failed: Option<Address>,
)
    requires
        p0.signature != Some(structure(entities)),
        built_anew(identity, compose, entities, p0, p1, v0, v1, failed),
    ensures
        failed is None <==> p1.signature == Some(structure(entities)),
        failed is None <==> forall|i: int|
            0 <= i < entities.len() ==> can_spawn(p0.templates, #[trigger] entities[i]),
{
    lemma_spawnable_says(p0.templates, entities);
}

pub(crate) proof fn lemma_spawnable_says<T, L, M, C, E, N>(
    templates: Map<Address, ClientModel<T, L, M, C, E, N>>,
    entities: Seq<EntityModel<T, L>>,
)
    ensures
        0 <= spawnable(templates, entities) <= entities.len(),
        forall|i: int|
            0 <= i < spawnable(templates, entities) ==> can_spawn(
                templates,
                #[trigger] entities[i],
            ),
        spawnable(templates, entities) < entities.len() ==> !can_spawn(
            templates,
            entities[spawnable(templates, entities)],
        ),
    decreases entities.len(),
{
    if entities.len() > 0 {
        lemma_spawnable_says(templates, entities.drop_last());
        assert forall|i: int| 0 <= i < spawnable(templates, entities) implies can_spawn(
            templates,
            #[trigger] entities[i],
        ) by {
            if i < entities.len() - 1 {
                assert(entities.drop_last()[i] == entities[i]);
            }
        }
    }
}

/// Two worlds have the same structure only where they have equally many entities and at every
/// place the numbers are equal and both are lights, or both are models of the same address. So the
/// view is built anew whenever an entity came, went or changed its model.
pub proof fn structure_tells_entities_apart<T, L>(
    a: Seq<EntityModel<T, L>>,
    b: Seq<EntityModel<T, L>>,
)
    ensures
        structure(a) == structure(b) <==> a.len() == b.len() && forall|i: int|
            0 <= i < a.len() ==> {
                &&& (#[trigger] a[i]).id == b[i].id
                &&& match (a[i].kind, b[i].kind) {
                    (KindModel::Mesh(x), KindModel::Mesh(y)) => x == y,
                    (KindModel::Light(_), KindModel::Light(_)) => true,
                    _ => false,
                }
            },
{
    let x = structure(a);
    let y = structure(b);
    assert(x.len() == a.len() && y.len() == b.len());
    assert forall|i: int| 0 <= i < a.len() implies #[trigger] x[i] == structure_of(a[i]) by {}
    assert forall|i: int| 0 <= i < b.len() implies #[trigger] y[i] == structure_of(b[i]) by {}
    if x == y {
        assert forall|i: int| 0 <= i < a.len() implies (#[trigger] a[i]).id == b[i].id && match (
            a[i].kind,
            b[i].kind,
        ) {
            (KindModel::Mesh(x), KindModel::Mesh(y)) => x == y,
            (KindModel::Light(_), KindModel::Light(_)) => true,
            _ => false,
        } by {
            assert(x[i] == y[i]);
        }
    } else if a.len() == b.len() && forall|i: int|
        0 <= i < a.len() ==> {
            &&& (#[trigger] a[i]).id == b[i].id
            &&& match (a[i].kind, b[i].kind) {
                (KindModel::Mesh(x), KindModel::Mesh(y)) => x == y,
                (KindModel::Light(_), KindModel::Light(_)) => true,
                _ => false,
            }
        } {
        assert(x =~= y);
    }
}

/// The same for entities as they are sent: their numbers count, whether they are lights, and the
/// addresses of their models, not where they are.
pub proof fn sent_entities_keep_their_structure<T, L>(
    a: Seq<EntityState<T, L>>,
    b: Seq<EntityState<T, L>>,
)
    ensures
        structure(entity_models(a)) == structure(entity_models(b)) <==> a.len() == b.len()
            && forall|i: int|
            0 <= i < a.len() ==> {
                &&& (#[trigger] a[i]).id == b[i].id
                &&& match (a[i].kind, b[i].kind) {
                    (EntityKind::Mesh(x), EntityKind::Mesh(y)) => x@ == y@,
                    (EntityKind::Light(_), EntityKind::Light(_)) => true,
                    _ => false,
                }
            },
{
    let x = entity_models(a);
    let y = entity_models(b);
    structure_tells_entities_apart(x, y);
    assert forall|i: int| 0 <= i < a.len() implies #[trigger] x[i] == a[i]@ by {}
    assert forall|i: int| 0 <= i < b.len() implies #[trigger] y[i] == b[i]@ by {}
    if structure(x) == structure(y) {
        assert forall|i: int| 0 <= i < a.len() implies (#[trigger] a[i]).id == b[i].id && match (
            a[i].kind,
            b[i].kind,
        ) {
            (EntityKind::Mesh(x), EntityKind::Mesh(y)) => x@ == y@,
            (EntityKind::Light(_), EntityKind::Light(_)) => true,
            _ => false,
        } by {
            assert(x[i].id == y[i].id);
        }
    } else {
        if a.len() == b.len() && forall|i: int|
            0 <= i < a.len() ==> {
                &&& (#[trigger] a[i]).id == b[i].id
                &&& match (a[i].kind, b[i].kind) {
                    (EntityKind::Mesh(x), EntityKind::Mesh(y)) => x@ == y@,
                    (EntityKind::Light(_), EntityKind::Light(_)) => true,
                    _ => false,
                }
            } {
            assert forall|i: int| 0 <= i < x.len() implies (#[trigger] x[i]).id == y[i].id
                && match (x[i].kind, y[i].kind) {
                (KindModel::Mesh(p), KindModel::Mesh(q)) => p == q,
                (KindModel::Light(_), KindModel::Light(_)) => true,
                _ => false,
            } by {
                assert(a[i].id == b[i].id);
            }
        }
    }
}

/// What `same_structure` answers of a snapshot, where the last one that was built had some entities:
/// yes exactly where both have equally many, and at every place the numbers are equal and both are
/// lights, or both are models of the same address.
pub proof fn same_structures_have_the_same_entities<
    T: Copy,
    L: Copy,
    M: Copy,
    C: Copy,
    E,
    N: Copy,
>(
    player: &SnapshotPlayer<T, L, M, C, E, N>,
    last: Seq<EntityModel<T, L>>,
    snap: &WorldSnapshot<T, L>,
    b: bool,
)
    requires
        call_ensures(
            SnapshotPlayer::<T, L, M, C, E, N>::same_structure,
            (player, snap),
            b,
        ),
        player@.signature == Some(structure(last)),
    ensures
        b <==> last.len() == snap.entities@.len() && forall|i: int|
            0 <= i < last.len() ==> {
                &&& (#[trigger] last[i]).id == snap.entities@[i].id
                &&& match (last[i].kind, snap.entities@[i].kind) {
                    (KindModel::Mesh(a), EntityKind::Mesh(path)) => a == path@,
                    (KindModel::Light(_), EntityKind::Light(_)) => true,
                    _ => false,
                }
            },
{
    let now = snap@.entities;
    assert(now.len() == snap.entities@.len());
    assert forall|i: int| 0 <= i < now.len() implies #[trigger] now[i] == snap.entities@[i]@ by {}
    let s = structure(last);
    let t = structure(now);
    if b {
        assert(s == t);
        assert(s.len() == last.len() && t.len() == now.len());
        assert forall|i: int| 0 <= i < last.len() implies {
            &&& (#[trigger] last[i]).id == snap.entities@[i].id
            &&& match (last[i].kind, snap.entities@[i].kind) {
                (KindModel::Mesh(a), EntityKind::Mesh(path)) => a == path@,
                (KindModel::Light(_), EntityKind::Light(_)) => true,
                _ => false,
            }
        } by {
            assert(s[i] == structure_of(last[i]));
            assert(t[i] == structure_of(now[i]));
        }
    }
    if last.len() == now.len() && forall|i: int|
        0 <= i < last.len() ==> {
            &&& (#[trigger] last[i]).id == snap.entities@[i].id
            &&& match (last[i].kind, snap.entities@[i].kind) {
                (KindModel::Mesh(a), EntityKind::Mesh(path)) => a == path@,
                (KindModel::Light(_), EntityKind::Light(_)) => true,
                _ => false,
            }
        } {
        assert forall|i: int| 0 <= i < s.len() implies s[i] == t[i] by {
            assert(s[i] == structure_of(last[i]));
            assert(t[i] == structure_of(now[i]));
        }
        assert(s =~= t);
    }
}

} // verus!
