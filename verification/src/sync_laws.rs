//! What playing snapshots promises as a whole.
use crate::client_scene::{client_merged, ClientModel};
use crate::game_path::Address;
use crate::protocol::{EntityModel, KindModel};
use crate::scene::{hangs_below, ObjectKey, SceneModel, SceneObjectKind};
use crate::scene_merge::{copy_of, merged, sources};
use crate::sync::{
    can_spawn, ids, lemma_merged_roots, lemma_push_new, lemma_spawnable_says, light_spawned,
    merged_roots, model_spawned, moved_only, objects_needed, reached, rebuilt, spawnable, spawned,
    spawned_all, unprepared, with_bases, SyncState,
};
use crate::text::{first_index, lemma_first_index, lemma_first_index_is};
use vstd::prelude::*;

verus! {

/// A snapshot of the same entities takes every object along with its entity: a point that the
/// object's own placement takes somewhere is now taken from there by the placement of the entity.
/// What the object is and where it hangs stays. `act` tells where a placement takes a point.
pub proof fn objects_move_with_their_entity<T, L, M, C, E, N, P, F: Fn(T, T) -> T>(
    compose: F,
    act: spec_fn(T, P) -> P,
    entities: Seq<EntityModel<T, L>>,
    nodes: Map<u32, Seq<(ObjectKey, T)>>,
    v0: ClientModel<T, L, M, C, E, N>,
    v1: ClientModel<T, L, M, C, E, N>,
    i: int,
    k: int,
    p: P,
)
    requires
        forall|a: T, b: T, c: T, x: P|
            #![trigger call_ensures(compose, (a, b), c), act(c, x)]
            call_ensures(compose, (a, b), c) ==> act(c, x) == act(a, act(b, x)),
        moved_only(compose, entities, nodes, v0, v1),
        0 <= i < entities.len(),
        forall|j: int| 0 <= j < i ==> (#[trigger] entities[j]).id != entities[i].id,
        nodes.contains_key(entities[i].id),
        0 <= k < nodes[entities[i].id].len(),
        v0.tree.nodes.contains_key(nodes[entities[i].id][k].0),
    ensures
        v1.tree.nodes.contains_key(nodes[entities[i].id][k].0),
        act(v1.tree.nodes[nodes[entities[i].id][k].0].object.transform, p) == act(
            entities[i].transform,
            act(nodes[entities[i].id][k].1, p),
        ),
        v1.tree.nodes[nodes[entities[i].id][k].0].object.kind
            == v0.tree.nodes[nodes[entities[i].id][k].0].object.kind,
        v1.tree.nodes[nodes[entities[i].id][k].0].parent
            == v0.tree.nodes[nodes[entities[i].id][k].0].parent,
{
    let id = entities[i].id;
    let all = ids(entities);
    assert(all[i] == id);
    assert forall|j: int| 0 <= j < i implies #[trigger] all[j] != id by {
        assert(entities[j].id != id);
    }
    lemma_first_index_is(all, id, i);
    assert(reached(entities, nodes, id, k, entities.len() as int));
    assert(v1.tree.nodes.dom().contains(nodes[id][k].0));
}

/// A snapshot of the same entities changes no object that belongs to none of them, and neither
/// brings, takes nor dresses objects, nor turns the camera or the surroundings.
pub proof fn nothing_else_moves<T, L, M, C, E, N, F: Fn(T, T) -> T>(
    compose: F,
    entities: Seq<EntityModel<T, L>>,
    nodes: Map<u32, Seq<(ObjectKey, T)>>,
    v0: ClientModel<T, L, M, C, E, N>,
    v1: ClientModel<T, L, M, C, E, N>,
    key: ObjectKey,
)
    requires
        moved_only(compose, entities, nodes, v0, v1),
    ensures
        v1.tree.nodes.contains_key(key) == v0.tree.nodes.contains_key(key),
        v0.tree.nodes.contains_key(key) && (forall|i: int, k: int|
            0 <= i < entities.len() && nodes.contains_key(entities[i].id) && 0 <= k
                < nodes[entities[i].id].len() ==> (#[trigger] nodes[entities[i].id][k]).0 != key)
            ==> v1.tree.nodes[key] == v0.tree.nodes[key],
        v1.tree.light_cache == v0.tree.light_cache,
        v1.tree.next == v0.tree.next,
        v1.materials == v0.materials,
        v1.camera == v0.camera,
        v1.environment == v0.environment,
        v1.environment_intensity == v0.environment_intensity,
        v1.agx_min_ev == v0.agx_min_ev,
        v1.agx_max_ev == v0.agx_max_ev,
{
    assert(v1.tree.nodes.dom().contains(key) == v0.tree.nodes.dom().contains(key));
    if v0.tree.nodes.contains_key(key) && (forall|i: int, k: int|
        0 <= i < entities.len() && nodes.contains_key(entities[i].id) && 0 <= k
            < nodes[entities[i].id].len() ==> (#[trigger] nodes[entities[i].id][k]).0 != key) {
        assert forall|id: u32, k: int| #[trigger]
            reached(entities, nodes, id, k, entities.len() as int) implies nodes[id][k].0 != key by {
            let i = first_index(ids(entities), id);
            assert(ids(entities).len() == entities.len());
            lemma_first_index(ids(entities), id);
            assert(ids(entities)[i] == id);
            assert(entities[i].id == id);
            assert(nodes[entities[i].id][k] == nodes[id][k]);
        }
    }
}

/// An entity that is a light brings one object: a new light of that kind, where the entity is,
/// below no other, and known as the object of that entity. Everything else stays.
pub proof fn lights_bring_one_object<T, L, M, C, E, N, F: Fn(T, T) -> T>(
    templates: Map<Address, ClientModel<T, L, M, C, E, N>>,
    identity: T,
    compose: F,
    e: EntityModel<T, L>,
    s0: SyncState<T, L, M, C, E, N>,
    s1: SyncState<T, L, M, C, E, N>,
    light: L,
    other: ObjectKey,
    id: u32,
) -> (key: ObjectKey)
    requires
        spawned(templates, identity, compose, e, s0, s1),
        e.kind == KindModel::<L>::Light(light),
        s0.scene.tree.next < u64::MAX,
    ensures
        !s0.scene.tree.nodes.contains_key(key),
        s1.scene.tree.nodes.contains_key(key),
        s1.scene.tree.nodes[key].object.transform == e.transform,
        s1.scene.tree.nodes[key].object.kind == SceneObjectKind::<L>::Light(light),
        s1.scene.tree.nodes[key].parent is None,
        s1.scene.tree.light_cache == s0.scene.tree.light_cache.push(key),
        s1.scene.tree.next == s0.scene.tree.next + 1,
        other != key ==> s1.scene.tree.nodes.contains_key(other)
            == s0.scene.tree.nodes.contains_key(other),
        s0.scene.tree.nodes.contains_key(other) ==> s1.scene.tree.nodes[other]
            == s0.scene.tree.nodes[other],
        s1.scene.materials == s0.scene.materials,
        s1.nodes.contains_key(e.id),
        s1.nodes[e.id].len() == 1,
        s1.nodes[e.id][0].0 == key,
        s1.nodes[e.id][0].1 == identity,
        id != e.id ==> s1.nodes.contains_key(id) == s0.nodes.contains_key(id),
        id != e.id && s0.nodes.contains_key(id) ==> s1.nodes[id] == s0.nodes[id],
{
    choose|key: ObjectKey| #[trigger] light_spawned(identity, e, light, s0, s1, key)
}

/// The copies of roots, and only those, belong to the entity.
proof fn lemma_copy_among_roots<T, L>(
    before: SceneModel<T, L>,
    template: SceneModel<T, L>,
    mid: SceneModel<T, L>,
    remap: Seq<(ObjectKey, ObjectKey)>,
    old_roots: Seq<ObjectKey>,
    roots: Seq<ObjectKey>,
    k: ObjectKey,
)
    requires
        merged(before, template, mid, remap),
        template.lists(old_roots, hangs_below(template, None)),
        roots == old_roots.map_values(|k: ObjectKey| copy_of(remap, k)),
        template.nodes.contains_key(k),
    ensures
        with_bases(mid, roots).len() == roots.len(),
        template.nodes[k].parent is None ==> with_bases(mid, roots).contains(
            (copy_of(remap, k), template.nodes[k].object.transform),
        ),
        template.nodes[k].parent is Some ==> forall|r: int|
            0 <= r < roots.len() ==> (#[trigger] with_bases(mid, roots)[r]).0 != copy_of(remap, k),
{
    let bases = with_bases(mid, roots);
    let c = copy_of(remap, k);
    crate::scene_laws::copies_hang_as_their_originals(before, template, mid, remap, k, k);
    if template.nodes[k].parent is None {
        assert(hangs_below(template, None)(k));
        assert(old_roots.contains(k));
        let r = choose|r: int| 0 <= r < old_roots.len() && old_roots[r] == k;
        assert(roots[r] == c);
        assert(bases[r] == (c, template.nodes[k].object.transform));
    } else {
        assert forall|r: int| 0 <= r < roots.len() implies (#[trigger] bases[r]).0 != c by {
            assert(bases[r].0 == roots[r]);
            assert(old_roots.contains(old_roots[r]));
            assert(hangs_below(template, None)(old_roots[r]));
            crate::scene_laws::copies_hang_as_their_originals(
                before,
                template,
                mid,
                remap,
                k,
                old_roots[r],
            );
        }
    }
}

/// An entity with a model brings a copy of every object of the template, dressed as it is there and
/// hung among the copies as it hangs there. The copies of roots belong to the entity, with the
/// placement that they have in the template as their own, and are placed by the entity; the others
/// keep their placement. `c` is the copy of `k`, and `up` that of its parent, where it has one.
pub proof fn models_bring_copies_of_their_template<T, L, M, C, E, N, F: Fn(T, T) -> T>(
    templates: Map<Address, ClientModel<T, L, M, C, E, N>>,
    identity: T,
    compose: F,
    e: EntityModel<T, L>,
    s0: SyncState<T, L, M, C, E, N>,
    s1: SyncState<T, L, M, C, E, N>,
    a: Address,
    k: ObjectKey,
) -> (copies: (ObjectKey, ObjectKey))
    requires
        spawned(templates, identity, compose, e, s0, s1),
        e.kind == KindModel::<L>::Mesh(a),
        templates[a].tree.well_rooted(),
        templates[a].tree.nodes.contains_key(k),
    ensures
        ({
            let (c, up) = copies;
            let from = templates[a].tree.nodes[k];
            &&& templates.contains_key(a)
            &&& !s0.scene.tree.nodes.contains_key(c)
            &&& s1.scene.tree.nodes.contains_key(c)
            &&& s1.scene.tree.nodes[c].object.kind == from.object.kind
            &&& templates[a].materials.contains_key(k) ==> s1.scene.materials.contains_key(c)
                && s1.scene.materials[c] == templates[a].materials[k]
            &&& match from.parent {
                None => {
                    &&& s1.scene.tree.nodes[c].parent is None
                    &&& call_ensures(
                        compose,
                        (e.transform, from.object.transform),
                        s1.scene.tree.nodes[c].object.transform,
                    )
                    &&& s1.nodes.contains_key(e.id)
                    &&& s1.nodes[e.id].contains((c, from.object.transform))
                },
                Some(p) => {
                    &&& s1.scene.tree.nodes[c].parent == Some(up)
                    &&& s1.scene.tree.nodes[c].object.transform == from.object.transform
                    &&& s1.scene.tree.nodes.contains_key(up)
                    &&& !s0.scene.tree.nodes.contains_key(up)
                    &&& s1.scene.tree.nodes[up].object.kind
                        == templates[a].tree.nodes[p].object.kind
                },
            }
        }),
{
    let template = templates[a];
    let (mid, roots) = choose|mid: ClientModel<T, L, M, C, E, N>, roots: Seq<ObjectKey>| #[trigger]
        merged_roots(s0.scene, template, mid, roots) && model_spawned(
            compose,
            e,
            s0,
            s1,
            mid,
            roots,
        );
    let (remap, old_roots) = choose|
        remap: Seq<(ObjectKey, ObjectKey)>,
        old_roots: Seq<ObjectKey>,
    |
        #![trigger
            client_merged(s0.scene, template, mid, remap),
            template.tree.lists(old_roots, hangs_below(template.tree, None))]
        client_merged(s0.scene, template, mid, remap) && template.tree.lists(
            old_roots,
            hangs_below(template.tree, None),
        ) && roots == old_roots.map_values(|k: ObjectKey| copy_of(remap, k));
    let c = copy_of(remap, k);
    let bases = with_bases(mid.tree, roots);
    let t0 = s0.scene.tree;
    crate::scene_laws::copies_hang_as_their_originals(t0, template.tree, mid.tree, remap, k, k);
    lemma_copy_among_roots(t0, template.tree, mid.tree, remap, old_roots, roots, k);
    assert(s1.scene.tree.nodes.dom().contains(c));
    assert(sources(remap).contains(k));
    lemma_first_index(sources(remap), k);
    let at = first_index(sources(remap), k);
    assert(remap[at].0 == k && remap[at].1 == c);
    if template.materials.contains_key(k) {
        assert(mid.materials.contains_key(c));
        assert(s1.scene.materials == mid.materials);
    }
    match template.tree.nodes[k].parent {
        None => {
            let r = choose|r: int|
                0 <= r < bases.len() && bases[r] == (
                    c,
                    template.tree.nodes[k].object.transform,
                );
            assert(bases[r].0 == c);
            assert(mid.tree.nodes.contains_key(bases[r].0));
            (c, c)
        },
        Some(p) => {
            let up = copy_of(remap, p);
            assert(template.tree.nodes.contains_key(p));
            crate::scene_laws::copies_hang_as_their_originals(
                t0,
                template.tree,
                mid.tree,
                remap,
                p,
                p,
            );
            assert(s1.scene.tree.nodes.dom().contains(up));
            assert(s1.scene.tree.nodes[c] == mid.tree.nodes[c]);
            (c, up)
        },
    }
}

/// An entity with a model leaves the objects that were there as they were, and what is known of
/// other entities too; nothing belongs to the entity but the new copies.
pub proof fn models_change_nothing_that_was_there<T, L, M, C, E, N, F: Fn(T, T) -> T>(
    templates: Map<Address, ClientModel<T, L, M, C, E, N>>,
    identity: T,
    compose: F,
    e: EntityModel<T, L>,
    s0: SyncState<T, L, M, C, E, N>,
    s1: SyncState<T, L, M, C, E, N>,
    a: Address,
    key: ObjectKey,
    id: u32,
    i: int,
)
    requires
        spawned(templates, identity, compose, e, s0, s1),
        e.kind == KindModel::<L>::Mesh(a),
    ensures
        s0.scene.tree.nodes.contains_key(key) && key.serial < s0.scene.tree.next
            ==> s1.scene.tree.nodes.contains_key(key) && s1.scene.tree.nodes[key]
            == s0.scene.tree.nodes[key],
        s1.nodes.contains_key(e.id),
        0 <= i < s1.nodes[e.id].len() ==> s1.scene.tree.nodes.contains_key(
            s1.nodes[e.id][i].0,
        ) && s1.nodes[e.id][i].0.serial >= s0.scene.tree.next,
        id != e.id ==> s1.nodes.contains_key(id) == s0.nodes.contains_key(id),
        id != e.id && s0.nodes.contains_key(id) ==> s1.nodes[id] == s0.nodes[id],
{
    let template = templates[a];
    let (mid, roots) = choose|mid: ClientModel<T, L, M, C, E, N>, roots: Seq<ObjectKey>| #[trigger]
        merged_roots(s0.scene, template, mid, roots) && model_spawned(
            compose,
            e,
            s0,
            s1,
            mid,
            roots,
        );
    let bases = with_bases(mid.tree, roots);
    lemma_merged_roots(s0.scene, template, mid, roots);
    if 0 <= i < s1.nodes[e.id].len() {
        assert(s1.nodes[e.id][i] == bases[i]);
        assert(bases[i].0 == roots[i]);
        assert(s1.scene.tree.nodes.dom().contains(roots[i]));
    }
    if s0.scene.tree.nodes.contains_key(key) && key.serial < s0.scene.tree.next {
        assert(mid.tree.nodes.contains_key(key) && mid.tree.nodes[key]
            == s0.scene.tree.nodes[key]) by {
            lemma_merge_keeps_nodes(s0.scene, template, mid, roots, key);
        }
        assert(s1.scene.tree.nodes.dom().contains(key));
        assert forall|r: int| 0 <= r < bases.len() implies (#[trigger] bases[r]).0 != key by {
            assert(bases[r].0 == roots[r]);
        }
    }
}

proof fn lemma_merge_keeps_nodes<T, L, M, C, E, N>(
    before: ClientModel<T, L, M, C, E, N>,
    template: ClientModel<T, L, M, C, E, N>,
    after: ClientModel<T, L, M, C, E, N>,
    roots: Seq<ObjectKey>,
    key: ObjectKey,
)
    requires
        merged_roots(before, template, after, roots),
        before.tree.nodes.contains_key(key),
    ensures
        after.tree.nodes.contains_key(key),
        after.tree.nodes[key] == before.tree.nodes[key],
{
}

/// A view that is built anew begins without any object, keeps camera and surroundings, and in the
/// end knows the objects of exactly those entities that it was built of.
pub proof fn built_views_know_their_entities<T, L, M, C, E, N, F: Fn(T, T) -> T>(
    templates: Map<Address, ClientModel<T, L, M, C, E, N>>,
    identity: T,
    compose: F,
    entities: Seq<EntityModel<T, L>>,
    empty: ClientModel<T, L, M, C, E, N>,
    last: SyncState<T, L, M, C, E, N>,
    n: int,
    id: u32,
)
    requires
        rebuilt(templates, identity, compose, entities, empty, last, n),
        0 <= n <= entities.len(),
    ensures
        last.nodes.contains_key(id) <==> exists|i: int|
            0 <= i < n && (#[trigger] entities[i]).id == id,
        last.scene.camera == empty.camera,
        last.scene.environment == empty.environment,
        last.scene.environment_intensity == empty.environment_intensity,
        last.scene.agx_min_ev == empty.agx_min_ev,
        last.scene.agx_max_ev == empty.agx_max_ev,
{
    let steps = choose|steps: Seq<SyncState<T, L, M, C, E, N>>| #[trigger]
        spawned_all(templates, identity, compose, entities, steps) && steps.len() == n + 1
            && steps[0] == (SyncState { scene: empty, nodes: Map::empty() }) && steps.last()
            == last;
    lemma_steps_know(templates, identity, compose, entities, steps, n, id);
}

proof fn lemma_steps_know<T, L, M, C, E, N, F: Fn(T, T) -> T>(
    templates: Map<Address, ClientModel<T, L, M, C, E, N>>,
    identity: T,
    compose: F,
    entities: Seq<EntityModel<T, L>>,
    steps: Seq<SyncState<T, L, M, C, E, N>>,
    n: int,
    id: u32,
)
    requires
        spawned_all(templates, identity, compose, entities, steps),
        0 <= n < steps.len(),
        steps[0].nodes == Map::<u32, Seq<(ObjectKey, T)>>::empty(),
    ensures
        steps[n].nodes.contains_key(id) <==> exists|i: int|
            0 <= i < n && (#[trigger] entities[i]).id == id,
        steps[n].scene.same_view(steps[0].scene),
    decreases n,
{
    if n > 0 {
        lemma_steps_know(templates, identity, compose, entities, steps, n - 1, id);
        let e = entities[n - 1];
        assert(spawned(templates, identity, compose, e, steps[n - 1], steps[n - 1 + 1]));
        match e.kind {
            KindModel::Light(light) => {
                let key = choose|key: ObjectKey| #[trigger]
                    light_spawned(identity, e, light, steps[n - 1], steps[n], key);
            },
            KindModel::Mesh(a) => {
                let (mid, roots) = choose|
                    mid: ClientModel<T, L, M, C, E, N>,
                    roots: Seq<ObjectKey>,
                | #[trigger]
                    merged_roots(steps[n - 1].scene, templates[a], mid, roots) && model_spawned(
                        compose,
                        e,
                        steps[n - 1],
                        steps[n],
                        mid,
                        roots,
                    );
            },
        }
        assert(steps[n].nodes.contains_key(id) <==> e.id == id || steps[
            n - 1
        ].nodes.contains_key(id));
        if steps[n - 1].nodes.contains_key(id) {
            let i = choose|i: int| 0 <= i < n - 1 && (#[trigger] entities[i]).id == id;
            assert(0 <= i < n && entities[i].id == id);
        }
    }
}

/// Before the place up to which a view can be built stand lights and models with a template, and
/// at that place, unless all entities are through, a model without one.
pub proof fn building_stops_at_the_first_missing_model<T, L, M, C, E, N>(
    templates: Map<Address, ClientModel<T, L, M, C, E, N>>,
    entities: Seq<EntityModel<T, L>>,
)
    ensures
        0 <= spawnable(templates, entities) <= entities.len(),
        forall|i: int, a: Address|
            #![trigger entities[i], templates.contains_key(a)]
            0 <= i < spawnable(templates, entities) && entities[i].kind == KindModel::<L>::Mesh(a)
                ==> templates.contains_key(a),
        spawnable(templates, entities) < entities.len() ==> (entities[spawnable(
            templates,
            entities,
        )].kind matches KindModel::Mesh(a) && !templates.contains_key(a)),
{
    lemma_spawnable_says(templates, entities);
    assert forall|i: int, a: Address|
        #![trigger entities[i], templates.contains_key(a)]
        0 <= i < spawnable(templates, entities) && entities[i].kind == KindModel::<L>::Mesh(
            a,
        ) implies templates.contains_key(a) by {
        assert(can_spawn(templates, entities[i]));
    }
}

/// Every light needs one object, every model as many as its template has, and nothing else any.
pub proof fn needed_objects_add_up<T, L, M, C, E, N>(
    templates: Map<Address, ClientModel<T, L, M, C, E, N>>,
    entities: Seq<EntityModel<T, L>>,
    e: EntityModel<T, L>,
)
    ensures
        objects_needed(templates, Seq::<EntityModel<T, L>>::empty()) == 0,
        objects_needed(templates, entities.push(e)) == objects_needed(templates, entities) + (
        match e.kind {
            KindModel::Light(_) => 1int,
            KindModel::Mesh(a) => if templates.contains_key(a) {
                templates[a].tree.nodes.dom().len() as int
            } else {
                0int
            },
        }),
{
    assert(entities.push(e).drop_last() =~= entities);
}

/// The models to be prepared are those that some entity has and that have no template, each once.
pub proof fn missing_models_are_listed_once<T, L, M, C, E, N>(
    templates: Map<Address, ClientModel<T, L, M, C, E, N>>,
    entities: Seq<EntityModel<T, L>>,
    a: Address,
)
    ensures
        unprepared(templates, entities).no_duplicates(),
        unprepared(templates, entities).contains(a) <==> !templates.contains_key(a)
            && exists|i: int|
            0 <= i < entities.len() && (#[trigger] entities[i]).kind == KindModel::<L>::Mesh(a),
    decreases entities.len(),
{
    if entities.len() > 0 {
        let all = unprepared(templates, entities);
        let front = entities.drop_last();
        let before = unprepared(templates, front);
        let last = entities.len() - 1;
        missing_models_are_listed_once(templates, front, a);
        if let KindModel::Mesh(b) = entities[last].kind {
            if !templates.contains_key(b) && !before.contains(b) {
                lemma_push_new(before, b);
            }
        }
        if before.contains(a) {
            let i = choose|i: int|
                0 <= i < front.len() && (#[trigger] front[i]).kind == KindModel::<L>::Mesh(a);
            assert(entities[i].kind == KindModel::<L>::Mesh(a));
        }
        if exists|i: int|
            0 <= i < entities.len() && (#[trigger] entities[i]).kind == KindModel::<L>::Mesh(a) {
            let i = choose|i: int|
                0 <= i < entities.len() && (#[trigger] entities[i]).kind == KindModel::<L>::Mesh(a);
            if i < last {
                assert(front[i].kind == KindModel::<L>::Mesh(a));
            }
        }
    }
}

/// Of two models to be prepared the one that an entity has first comes first.
pub proof fn missing_models_come_in_order<T, L, M, C, E, N>(
    templates: Map<Address, ClientModel<T, L, M, C, E, N>>,
    entities: Seq<EntityModel<T, L>>,
    x: int,
    y: int,
    j: int,
)
    requires
        0 <= x < y < unprepared(templates, entities).len(),
        0 <= j < entities.len(),
        entities[j].kind == KindModel::<L>::Mesh(unprepared(templates, entities)[y]),
    ensures
        exists|i: int|
            0 <= i < j && (#[trigger] entities[i]).kind == KindModel::<L>::Mesh(
                unprepared(templates, entities)[x],
            ),
    decreases entities.len(),
{
    let all = unprepared(templates, entities);
    let front = entities.drop_last();
    let before = unprepared(templates, front);
    let last = entities.len() - 1;
    missing_models_are_listed_once(templates, entities, all[y]);
    missing_models_are_listed_once(templates, front, all[y]);
    assert(all.contains(all[y]));
    assert(all[x] == before[x]);
    if y < before.len() && j < last {
        assert(front[j] == entities[j]);
        missing_models_come_in_order(templates, front, x, y, j);
        let i = choose|i: int|
            0 <= i < j && (#[trigger] front[i]).kind == KindModel::<L>::Mesh(before[x]);
        assert(entities[i].kind == KindModel::<L>::Mesh(all[x]));
    } else {
        if j < last {
            assert(front[j].kind == KindModel::<L>::Mesh(all[y]));
            assert(before.contains(all[y]));
        }
        missing_models_are_listed_once(templates, front, before[x]);
        assert(before.contains(before[x]));
        let i = choose|i: int|
            0 <= i < front.len() && (#[trigger] front[i]).kind == KindModel::<L>::Mesh(before[x]);
        assert(entities[i].kind == KindModel::<L>::Mesh(all[x]));
    }
}

} // verus!
