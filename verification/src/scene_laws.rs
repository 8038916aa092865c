//! What the scene promises as a whole.
use crate::bounds::placed_in_world;
use crate::lists::lemma_filter_contains;
use crate::scene::{
    any_object, folds, hangs_below, is_light, placed_above, placements, ObjectKey, SceneModel,
    SceneObject,
};
use crate::scene_merge::{copied_lights, copied_parent, copy_of, merged, sources};
use crate::text::{first_index, lemma_first_index};
use vstd::prelude::*;

verus! {

/// A key whose object is gone never names another object: new objects get new serial numbers.
pub proof fn dead_keys_stay_dead<T, L>(
    m: SceneModel<T, L>,
    dead: ObjectKey,
    new: ObjectKey,
    object: SceneObject<T, L>,
    parent: Option<ObjectKey>,
)
    requires
        dead.serial < m.next,
        !m.nodes.contains_key(dead),
        new.serial == m.next,
        m.next < u64::MAX,
    ensures
        !m.with_node(new, object, parent).nodes.contains_key(dead),
        dead.serial < m.with_node(new, object, parent).next,
{
}

/// Removing an object takes everything below it and nothing else; nobody is left without the
/// parent it had.
pub proof fn removal_leaves_no_orphans<T, L>(m: SceneModel<T, L>, key: ObjectKey, k: ObjectKey)
    requires
        m.well_rooted(),
        m.nodes.contains_key(key),
        m.nodes.contains_key(k),
    ensures
        m.without_subtree(key).nodes.contains_key(k) <==> !m.at_or_above(key, k),
        m.without_subtree(key).nodes.contains_key(k) ==> m.without_subtree(key).nodes[k]
            == m.nodes[k],
        m.without_subtree(key).nodes.contains_key(k) ==> (m.nodes[k].parent matches Some(p)
            ==> m.without_subtree(key).nodes.contains_key(p)),
        !m.without_subtree(key).nodes.contains_key(key),
{
    assert(m.up(key, 0) == Some(key));
    if !m.at_or_above(key, k) {
        if let Some(p) = m.nodes[k].parent {
            if m.at_or_above(key, p) {
                let n = choose|n: nat| #[trigger] m.up(p, n) == Some(key);
                reveal_with_fuel(SceneModel::up, 2);
                assert(m.up(k, 1) == Some(p));
                crate::scene_merge::lemma_up_add(m, k, p, 1, n);
                assert(m.up(k, 1 + n) == Some(key));
            }
        }
    }
}

/// An object that was moved hangs where it was put, and every other object stays where it was.
pub proof fn moving_is_exact<T, L>(
    m: SceneModel<T, L>,
    key: ObjectKey,
    parent: Option<ObjectKey>,
    other: ObjectKey,
)
    requires
        m.can_hang(key, parent),
    ensures
        m.with_parent(key, parent).nodes[key].parent == parent,
        m.with_parent(key, parent).nodes[key].object == m.nodes[key].object,
        other != key ==> m.with_parent(key, parent).nodes.contains_key(other)
            == m.nodes.contains_key(other),
        other != key && m.nodes.contains_key(other) ==> m.with_parent(key, parent).nodes[other]
            == m.nodes[other],
{
}

/// The cache holds exactly the lights.
pub open spec fn cache_exact<T, L>(m: SceneModel<T, L>) -> bool {
    forall|k: ObjectKey| #[trigger]
        m.light_cache.contains(k) <==> m.nodes.contains_key(k) && m.nodes[k].object.kind is Light
}

/// Adding, moving and removing objects keep the light cache exact.
pub proof fn light_cache_stays_exact<T, L>(
    m: SceneModel<T, L>,
    new: ObjectKey,
    object: SceneObject<T, L>,
    parent: Option<ObjectKey>,
    key: ObjectKey,
)
    requires
        cache_exact(m),
        !m.nodes.contains_key(new),
    ensures
        cache_exact(m.with_node(new, object, parent)),
        m.nodes.contains_key(key) ==> cache_exact(m.with_parent(key, parent)),
        cache_exact(m.without_subtree(key)),
{
    let a = m.with_node(new, object, parent);
    assert forall|k: ObjectKey| #[trigger]
        a.light_cache.contains(k) <==> a.nodes.contains_key(k) && a.nodes[k].object.kind is Light by {
        if m.light_cache.contains(k) {
            let i = choose|i: int| 0 <= i < m.light_cache.len() && m.light_cache[i] == k;
            assert(a.light_cache[i] == k);
        }
        if a.light_cache.contains(k) {
            let i = choose|i: int| 0 <= i < a.light_cache.len() && a.light_cache[i] == k;
            if i < m.light_cache.len() {
                assert(m.light_cache[i] == k);
                assert(m.light_cache.contains(k));
            }
        }
        if k == new && object.kind is Light {
            assert(a.light_cache[m.light_cache.len() as int] == k);
        }
        if k != new && a.nodes.contains_key(k) && a.nodes[k].object.kind is Light {
            assert(m.light_cache.contains(k));
        }
    }
    if m.nodes.contains_key(key) {
        let b = m.with_parent(key, parent);
        assert forall|k: ObjectKey| #[trigger]
            b.light_cache.contains(k) <==> b.nodes.contains_key(k)
                && b.nodes[k].object.kind is Light by {
            assert(m.light_cache.contains(k) <==> m.nodes.contains_key(k)
                && m.nodes[k].object.kind is Light);
        }
    }
    let c = m.without_subtree(key);
    let keep = |j: ObjectKey| !m.at_or_above(key, j);
    lemma_filter_contains(m.light_cache, keep);
    assert(c.light_cache == m.light_cache.filter(keep));
    assert forall|k: ObjectKey| #[trigger]
        c.light_cache.contains(k) <==> c.nodes.contains_key(k) && c.nodes[k].object.kind is Light by {
        assert(m.light_cache.contains(k) <==> m.nodes.contains_key(k)
            && m.nodes[k].object.kind is Light);
    }
}

proof fn lemma_copy_up<T, L>(
    before: SceneModel<T, L>,
    other: SceneModel<T, L>,
    after: SceneModel<T, L>,
    remap: Seq<(ObjectKey, ObjectKey)>,
    k: ObjectKey,
    n: nat,
)
    requires
        other.well_rooted(),
        merged(before, other, after, remap),
        other.nodes.contains_key(k),
    ensures
        after.up(copy_of(remap, k), n) == (match other.up(k, n) {
            Some(a) => Some(copy_of(remap, a)),
            None => None,
        }),
        other.up(k, n) matches Some(a) ==> other.nodes.contains_key(a),
    decreases n,
{
    if n > 0 {
        lemma_copy_up(before, other, after, remap, k, (n - 1) as nat);
        if let Some(a) = other.up(k, (n - 1) as nat) {
            lemma_copy_at(before, other, after, remap, a);
        }
    }
}

proof fn lemma_copy_at<T, L>(
    before: SceneModel<T, L>,
    other: SceneModel<T, L>,
    after: SceneModel<T, L>,
    remap: Seq<(ObjectKey, ObjectKey)>,
    a: ObjectKey,
)
    requires
        merged(before, other, after, remap),
        other.nodes.contains_key(a),
    ensures
        after.nodes.contains_key(copy_of(remap, a)),
        after.nodes[copy_of(remap, a)].object == other.nodes[a].object,
        after.nodes[copy_of(remap, a)].parent == copied_parent(other, remap, a),
{
    assert(sources(remap).contains(a));
    lemma_first_index(sources(remap), a);
    let i = first_index(sources(remap), a);
    assert(sources(remap)[i] == remap[i].0);
    assert(remap[i].1 == copy_of(remap, a));
    assert(after.nodes.contains_key(remap[i].1));
}

/// The copy of an object stands in the world where its original stands: the placements from the
/// root down to it are the same.
pub proof fn merged_copies_keep_their_placement<T, L>(
    before: SceneModel<T, L>,
    other: SceneModel<T, L>,
    after: SceneModel<T, L>,
    remap: Seq<(ObjectKey, ObjectKey)>,
    k: ObjectKey,
    chain: Seq<T>,
)
    requires
        other.well_rooted(),
        merged(before, other, after, remap),
        other.nodes.contains_key(k),
        placements(other, k, chain),
    ensures
        placements(after, copy_of(remap, k), chain),
{
    lemma_copy_up(before, other, after, remap, k, chain.len());
    assert forall|i: int| 0 <= i < chain.len() implies placed_above(
        after,
        copy_of(remap, k),
        (chain.len() - 1 - i) as nat,
        #[trigger] chain[i],
    ) by {
        let n = (chain.len() - 1 - i) as nat;
        assert(placed_above(other, k, n, chain[i]));
        lemma_copy_up(before, other, after, remap, k, n);
        let a = other.up(k, n)->0;
        lemma_copy_at(before, other, after, remap, a);
    }
}

/// Merging keeps every object that was there.
pub proof fn merging_keeps_what_was_there<T, L>(
    before: SceneModel<T, L>,
    other: SceneModel<T, L>,
    after: SceneModel<T, L>,
    remap: Seq<(ObjectKey, ObjectKey)>,
    k: ObjectKey,
)
    requires
        merged(before, other, after, remap),
        before.nodes.contains_key(k),
    ensures
        after.nodes.contains_key(k),
        after.nodes[k] == before.nodes[k],
{
}

/// A new object is what it was given as and hangs where it was hung; all others stay as they
/// are; it becomes the last of the lights if it is one, and the next object gets the next number.
pub proof fn adding_is_exact<T, L>(
    m: SceneModel<T, L>,
    new: ObjectKey,
    object: SceneObject<T, L>,
    parent: Option<ObjectKey>,
    other: ObjectKey,
)
    requires
        m.next < u64::MAX,
        !m.nodes.contains_key(new),
    ensures
        m.with_node(new, object, parent).nodes.contains_key(new),
        m.with_node(new, object, parent).nodes[new].object.transform == object.transform,
        m.with_node(new, object, parent).nodes[new].object.kind == object.kind,
        m.with_node(new, object, parent).nodes[new].parent == parent,
        other != new ==> m.with_node(new, object, parent).nodes.contains_key(other)
            == m.nodes.contains_key(other),
        m.nodes.contains_key(other) ==> m.with_node(new, object, parent).nodes[other]
            == m.nodes[other],
        m.with_node(new, object, parent).next == m.next + 1,
        m.with_node(new, object, parent).light_cache.len() == m.light_cache.len() + (
        if object.kind is Light {
            1int
        } else {
            0int
        }),
        object.kind is Light ==> m.with_node(new, object, parent).light_cache.last() == new,
        forall|i: int|
            0 <= i < m.light_cache.len() ==> #[trigger] m.with_node(
                new,
                object,
                parent,
            ).light_cache[i] == m.light_cache[i],
{
}

/// Replacing an object changes what it is and nothing else.
pub proof fn replacing_is_exact<T, L>(
    m: SceneModel<T, L>,
    key: ObjectKey,
    object: SceneObject<T, L>,
    other: ObjectKey,
)
    requires
        m.nodes.contains_key(key),
    ensures
        m.with_object(key, object).nodes[key].object.transform == object.transform,
        m.with_object(key, object).nodes[key].object.kind == object.kind,
        m.with_object(key, object).nodes[key].parent == m.nodes[key].parent,
        m.with_object(key, object).nodes.contains_key(other) == m.nodes.contains_key(other),
        other != key && m.nodes.contains_key(other) ==> m.with_object(key, object).nodes[other]
            == m.nodes[other],
        m.with_object(key, object).light_cache == m.light_cache,
        m.with_object(key, object).next == m.next,
{
}

/// Moving an object leaves the lights and the numbering alone, and so does a removal with the
/// numbering.
pub proof fn moving_and_removing_keep_the_count<T, L>(
    m: SceneModel<T, L>,
    key: ObjectKey,
    parent: Option<ObjectKey>,
)
    ensures
        m.with_parent(key, parent).light_cache == m.light_cache,
        m.with_parent(key, parent).next == m.next,
        m.without_subtree(key).next == m.next,
        forall|i: int|
            0 <= i < m.without_subtree(key).light_cache.len() ==> m.light_cache.contains(
                #[trigger] m.without_subtree(key).light_cache[i],
            ),
{
    let keep = |j: ObjectKey| !m.at_or_above(key, j);
    lemma_filter_contains(m.light_cache, keep);
    let rest = m.light_cache.filter(keep);
    assert(m.without_subtree(key).light_cache == rest);
    assert forall|i: int| 0 <= i < rest.len() implies m.light_cache.contains(
        #[trigger] rest[i],
    ) by {
        assert(rest.contains(rest[i]));
    }
}

/// What lies above an object is the object itself, and what lies above its parent: nothing else.
pub proof fn above_is_above_the_parent<T, L>(m: SceneModel<T, L>, a: ObjectKey, k: ObjectKey)
    ensures
        m.at_or_above(a, k) <==> a == k || (m.nodes[k].parent is Some && m.at_or_above(
            a,
            m.nodes[k].parent->0,
        )),
{
    reveal_with_fuel(SceneModel::up, 2);
    assert(m.up(k, 0) == Some(k));
    if m.nodes[k].parent is Some {
        let p = m.nodes[k].parent->0;
        assert(m.up(k, 1) == Some(p));
        if m.at_or_above(a, p) {
            let n = choose|n: nat| #[trigger] m.up(p, n) == Some(a);
            crate::scene_merge::lemma_up_add(m, k, p, 1, n);
            assert(m.up(k, 1 + n) == Some(a));
        }
    }
    if m.at_or_above(a, k) && a != k {
        let n = choose|n: nat| #[trigger] m.up(k, n) == Some(a);
        assert(n > 0);
        lemma_up_first(m, k, n);
        let p = m.nodes[k].parent->0;
        assert(m.up(p, (n - 1) as nat) == Some(a));
    }
}

/// Going up from an object is going up from its parent, one step less.
proof fn lemma_up_first<T, L>(m: SceneModel<T, L>, k: ObjectKey, n: nat)
    requires
        n > 0,
        m.up(k, n) is Some,
    ensures
        m.nodes[k].parent is Some,
        m.up(k, n) == m.up(m.nodes[k].parent->0, (n - 1) as nat),
    decreases n,
{
    reveal_with_fuel(SceneModel::up, 2);
    if n > 1 {
        lemma_up_first(m, k, (n - 1) as nat);
    }
}

/// An object can be hung below another unless it is that one or lies above it; to be made a root
/// it need only be there.
pub proof fn only_loops_and_strangers_are_refused<T, L>(
    m: SceneModel<T, L>,
    k: ObjectKey,
    p: ObjectKey,
)
    requires
        m.nodes.contains_key(k),
        m.nodes.contains_key(p),
    ensures
        m.can_hang(k, None),
        !m.can_hang(k, Some(k)),
        m.nodes[p].parent is None && p != k ==> m.can_hang(k, Some(p)),
        m.nodes[p].parent is Some && p != k ==> (m.can_hang(k, Some(p)) <==> !m.at_or_above(
            k,
            m.nodes[p].parent->0,
        )),
{
    above_is_above_the_parent(m, k, k);
    above_is_above_the_parent(m, k, p);
}

/// A listing of objects holds every one that it is about, once, and no other: all objects, the
/// roots, or those whose parent is the given one.
pub proof fn listings_are_complete<T, L>(
    m: SceneModel<T, L>,
    list: Seq<ObjectKey>,
    parent: Option<ObjectKey>,
    k: ObjectKey,
)
    ensures
        m.lists(list, any_object()) ==> (list.contains(k) <==> m.nodes.contains_key(k)),
        m.lists(list, hangs_below(m, parent)) ==> (list.contains(k) <==> m.nodes.contains_key(k)
            && m.nodes[k].parent == parent),
        m.lists(list, any_object()) || m.lists(list, hangs_below(m, parent)) ==> list.no_duplicates()
            && forall|a: int, b: int|
            0 <= a < b < list.len() ==> (#[trigger] list[a]).index < (#[trigger] list[b]).index,
        m.light_cache.filter(is_light(m)).contains(k) <==> m.light_cache.contains(k)
            && m.nodes[k].object.kind is Light,
{
    lemma_filter_contains(m.light_cache, is_light(m));
}

/// The placements down to an object end with its own; before it come those of its parent, and
/// nothing where it is a root.
pub proof fn placements_end_with_the_own<T, L>(
    m: SceneModel<T, L>,
    k: ObjectKey,
    chain: Seq<T>,
)
    requires
        placements(m, k, chain),
    ensures
        chain.len() > 0,
        chain.last() == m.nodes[k].object.transform,
        m.nodes[k].parent is None ==> chain.len() == 1,
        m.nodes[k].parent is Some ==> chain.len() > 1 && placements(
            m,
            m.nodes[k].parent->0,
            chain.drop_last(),
        ),
{
    reveal_with_fuel(SceneModel::up, 2);
    assert(m.up(k, 0) == Some(k));
    let n = chain.len();
    assert(n > 0);
    assert(placed_above(m, k, 0, chain[n - 1]));
    if n > 1 {
        assert(placed_above(m, k, (n - 1) as nat, chain[0]));
        lemma_up_first(m, k, (n - 1) as nat);
    }
    if m.nodes[k].parent is Some {
        let p = m.nodes[k].parent->0;
        assert(m.up(k, 1) == Some(p));
        assert(n > 1);
        crate::scene_merge::lemma_up_add(m, k, p, 1, (n - 1) as nat);
        let rest = chain.drop_last();
        assert forall|i: int| 0 <= i < rest.len() implies placed_above(
            m,
            p,
            (rest.len() - 1 - i) as nat,
            #[trigger] rest[i],
        ) by {
            assert(placed_above(m, k, (n - 1 - i) as nat, chain[i]));
            crate::scene_merge::lemma_up_add(m, k, p, 1, (n - 2 - i) as nat);
        }
    }
}

/// A root stands in the world where its own placement puts it, and every other object where its
/// own placement puts it inside its parent's.
pub proof fn objects_stand_inside_their_parent<T, L, M, F: Fn(M, T) -> M>(
    m: SceneModel<T, L>,
    k: ObjectKey,
    identity: M,
    apply: F,
    w: M,
)
    requires
        placed_in_world(m, k, identity, apply, w),
    ensures
        m.nodes[k].parent is None ==> call_ensures(
            apply,
            (identity, m.nodes[k].object.transform),
            w,
        ),
        m.nodes[k].parent is Some ==> exists|wp: M|
            #![trigger placed_in_world(m, m.nodes[k].parent->0, identity, apply, wp)]
            placed_in_world(m, m.nodes[k].parent->0, identity, apply, wp) && call_ensures(
                apply,
                (wp, m.nodes[k].object.transform),
                w,
            ),
{
    let (chain, steps) = choose|chain: Seq<T>, steps: Seq<M>|
        #![trigger placements(m, k, chain), folds(apply, chain, steps)]
        placements(m, k, chain) && folds(apply, chain, steps) && steps[0] == identity
            && steps.last() == w;
    placements_end_with_the_own(m, k, chain);
    let n = chain.len();
    assert(call_ensures(apply, (steps[n - 1], chain[n - 1]), steps[n - 1 + 1]));
    if m.nodes[k].parent is Some {
        let p = m.nodes[k].parent->0;
        let before = steps.drop_last();
        let rest = chain.drop_last();
        assert forall|i: int| 0 <= i < rest.len() implies call_ensures(
            apply,
            (before[i], #[trigger] rest[i]),
            before[i + 1],
        ) by {
            assert(call_ensures(apply, (steps[i], chain[i]), steps[i + 1]));
        }
        assert(folds(apply, rest, before));
        assert(placed_in_world(m, p, identity, apply, before.last()));
    }
}

/// The copy of an object is a new object, unlike the copy of any other; it is what the original
/// is, and hangs below the copy of the original's parent.
pub proof fn copies_hang_as_their_originals<T, L>(
    before: SceneModel<T, L>,
    other: SceneModel<T, L>,
    after: SceneModel<T, L>,
    remap: Seq<(ObjectKey, ObjectKey)>,
    k: ObjectKey,
    j: ObjectKey,
)
    requires
        merged(before, other, after, remap),
        other.nodes.contains_key(k),
        other.nodes.contains_key(j),
    ensures
        after.nodes.contains_key(copy_of(remap, k)),
        !before.nodes.contains_key(copy_of(remap, k)),
        before.next <= copy_of(remap, k).serial < after.next,
        after.nodes[copy_of(remap, k)].object == other.nodes[k].object,
        other.nodes[k].parent is None ==> after.nodes[copy_of(remap, k)].parent is None,
        other.nodes[k].parent is Some ==> after.nodes[copy_of(remap, k)].parent == Some(
            copy_of(remap, other.nodes[k].parent->0),
        ),
        copy_of(remap, k) == copy_of(remap, j) ==> k == j,
{
    lemma_copy_at(before, other, after, remap, k);
    assert(sources(remap).contains(k));
    assert(sources(remap).contains(j));
    lemma_first_index(sources(remap), k);
    lemma_first_index(sources(remap), j);
    let a = first_index(sources(remap), k);
    let b = first_index(sources(remap), j);
    assert(remap[a].1.serial == before.next + a);
    assert(remap[b].1.serial == before.next + b);
}

/// Merging adds nothing but copies.
pub proof fn merging_adds_only_copies<T, L>(
    before: SceneModel<T, L>,
    other: SceneModel<T, L>,
    after: SceneModel<T, L>,
    remap: Seq<(ObjectKey, ObjectKey)>,
    new: ObjectKey,
) -> (k: ObjectKey)
    requires
        merged(before, other, after, remap),
        after.nodes.contains_key(new),
        !before.nodes.contains_key(new),
    ensures
        other.nodes.contains_key(k),
        copy_of(remap, k) == new,
{
    let i = choose|i: int| 0 <= i < remap.len() && (#[trigger] remap[i]).1 == new;
    let k = remap[i].0;
    assert(sources(remap)[i] == k);
    assert(sources(remap).contains(k));
    lemma_first_index(sources(remap), k);
    let a = first_index(sources(remap), k);
    let from = sources(remap);
    assert(a == i) by {
        if a < i {
            assert(from[a].index < from[i].index);
        } else if i < a {
            assert(from[i].index < from[a].index);
        }
    }
    k
}

proof fn lemma_copied_lights<T, L>(
    other: SceneModel<T, L>,
    remap: Seq<(ObjectKey, ObjectKey)>,
    c: ObjectKey,
)
    ensures
        copied_lights(other, remap).contains(c) <==> exists|i: int|
            0 <= i < remap.len() && (#[trigger] remap[i]).1 == c
                && other.nodes[remap[i].0].object.kind is Light,
    decreases remap.len(),
{
    if remap.len() > 0 {
        let front = remap.drop_last();
        let rest = copied_lights(other, front);
        let all = copied_lights(other, remap);
        let last = remap.len() - 1;
        lemma_copied_lights(other, front, c);
        if rest.contains(c) {
            let i = choose|i: int| 0 <= i < rest.len() && rest[i] == c;
            assert(all[i] == c);
            let j = choose|j: int|
                0 <= j < front.len() && (#[trigger] front[j]).1 == c
                    && other.nodes[front[j].0].object.kind is Light;
            assert(remap[j].1 == c);
        }
        if all.contains(c) && !rest.contains(c) {
            let i = choose|i: int| 0 <= i < all.len() && all[i] == c;
            if i < rest.len() {
                assert(rest[i] == c);
            }
            assert(remap[last].1 == c);
        }
        if exists|i: int|
            0 <= i < remap.len() && (#[trigger] remap[i]).1 == c
                && other.nodes[remap[i].0].object.kind is Light {
            let i = choose|i: int|
                0 <= i < remap.len() && (#[trigger] remap[i]).1 == c
                    && other.nodes[remap[i].0].object.kind is Light;
            if i < last {
                assert(front[i].1 == c);
                assert(rest.contains(c));
            } else {
                assert(all[rest.len() as int] == c);
            }
        }
    }
}

/// The lights after a merge are those that were there and, after them, the copies of lights.
pub proof fn merging_keeps_the_cache_exact<T, L>(
    before: SceneModel<T, L>,
    other: SceneModel<T, L>,
    after: SceneModel<T, L>,
    remap: Seq<(ObjectKey, ObjectKey)>,
)
    requires
        merged(before, other, after, remap),
        cache_exact(before),
    ensures
        cache_exact(after),
        before.light_cache.is_prefix_of(after.light_cache),
{
    let added = copied_lights(other, remap);
    assert(before.light_cache =~= after.light_cache.take(before.light_cache.len() as int));
    assert forall|k: ObjectKey| #[trigger]
        after.light_cache.contains(k) <==> after.nodes.contains_key(k)
            && after.nodes[k].object.kind is Light by {
        lemma_copied_lights(other, remap, k);
        if after.light_cache.contains(k) {
            let i = choose|i: int| 0 <= i < after.light_cache.len() && after.light_cache[i] == k;
            if i < before.light_cache.len() {
                assert(before.light_cache[i] == k);
                assert(before.light_cache.contains(k));
            } else {
                assert(added[i - before.light_cache.len()] == k);
                assert(added.contains(k));
            }
        }
        if before.light_cache.contains(k) {
            let i = choose|i: int| 0 <= i < before.light_cache.len() && before.light_cache[i] == k;
            assert(after.light_cache[i] == k);
        }
        if added.contains(k) {
            let i = choose|i: int| 0 <= i < added.len() && added[i] == k;
            assert(after.light_cache[before.light_cache.len() + i] == k);
        }
        if after.nodes.contains_key(k) && after.nodes[k].object.kind is Light {
            if before.nodes.contains_key(k) {
                assert(before.light_cache.contains(k));
            } else {
                let i = choose|i: int| 0 <= i < remap.len() && (#[trigger] remap[i]).1 == k;
                assert(after.nodes[remap[i].1].object == other.nodes[remap[i].0].object);
                assert(added.contains(k));
            }
        }
    }
}

} // verus!
