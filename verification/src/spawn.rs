//! Bringing a scene to life: in which order its objects become entities, which assets it needs,
//! and how these are kept while it is shown.
use crate::aabb::{enclosing, positions, Aabb};
use crate::client_scene::{ClientModel, ClientScene};
use crate::handle::Handle;
use crate::hierarchy::{
    child_lists, follows, is_walk, reachable, visit_order, walk_from, ChildLists,
};
use crate::lists::reversed;
use crate::material::{present, Material};
use crate::mesh::Mesh;
use crate::scene::{
    any_object, hangs_below, ObjectKey, Scene, SceneModel, SceneObject, SceneObjectKind,
};
use crate::text::{first_index, lemma_first_index, lemma_first_index_is};
use vstd::prelude::*;

verus! {

/// An object that becomes an entity, below the entity of an earlier object or below none.
#[derive(Clone, Copy, Debug)]
pub struct SpawnItem {
    pub key: ObjectKey,
    pub parent: Option<usize>,
}

/// The list brings every object of the tree to life once, behind its parent and below it.
pub open spec fn spawns<T, L>(tree: SceneModel<T, L>, items: Seq<SpawnItem>) -> bool {
    &&& forall|i: int, j: int|
        0 <= i < items.len() && 0 <= j < items.len() && (#[trigger] items[i]).key == (
        #[trigger] items[j]).key ==> i == j
    &&& forall|i: int| 0 <= i < items.len() ==> tree.nodes.contains_key((#[trigger] items[i]).key)
    &&& forall|k: ObjectKey| #[trigger]
        tree.nodes.contains_key(k) ==> exists|i: int|
            0 <= i < items.len() && (#[trigger] items[i]).key == k
    &&& forall|i: int|
        0 <= i < items.len() ==> match (#[trigger] items[i]).parent {
            Some(p) => p < i && tree.nodes[items[i].key].parent == Some(items[p as int].key),
            None => tree.nodes[items[i].key].parent is None,
        }
}

fn position_of(list: &Vec<ObjectKey>, key: ObjectKey) -> (i: usize)
    ensures
        i == first_index(list@, key),
        i <= list@.len(),
        i < list@.len() <==> list@.contains(key),
        i < list@.len() ==> list@[i as int] == key,
{
    let mut i: usize = 0;
    while i < list.len()
        invariant
            i <= list@.len(),
            forall|j: int| 0 <= j < i ==> list@[j] != key,
        decreases list@.len() - i,
    {
        if list[i] == key {
            proof {
                lemma_first_index_is(list@, key, i as int);
            }
            return i;
        }
        i += 1;
    }
    proof {
        lemma_first_index(list@, key);
    }
    i
}

/// The places of some keys in a list, in order.
fn places(list: &Vec<ObjectKey>, keys: &Vec<ObjectKey>) -> (out: Vec<usize>)
    requires
        forall|i: int| 0 <= i < keys@.len() ==> list@.contains(#[trigger] keys@[i]),
    ensures
        out@.len() == keys@.len(),
        forall|i: int|
            0 <= i < out@.len() ==> (#[trigger] out@[i]) < list@.len() && list@[out@[i] as int]
                == keys@[i],
{
    let mut out: Vec<usize> = Vec::new();
    let mut i: usize = 0;
    while i < keys.len()
        invariant
            i <= keys@.len(),
            out@.len() == i,
            forall|i: int| 0 <= i < keys@.len() ==> list@.contains(#[trigger] keys@[i]),
            forall|j: int|
                0 <= j < i ==> (#[trigger] out@[j]) < list@.len() && list@[out@[j] as int]
                    == keys@[j],
        decreases keys@.len() - i,
    {
        proof {
            assert(list@.contains(keys@[i as int]));
        }
        out.push(position_of(list, keys[i]));
        i += 1;
    }
    out
}

/// The list of places stands for the objects below `parent`, or for the roots; the last object
/// comes first.
pub open spec fn stands_for<T, L>(
    tree: SceneModel<T, L>,
    list: Seq<ObjectKey>,
    parent: Option<ObjectKey>,
    at: Seq<usize>,
) -> bool {
    &&& forall|a: int, b: int| 0 <= a < b < at.len() ==> (#[trigger] at[a]) > (#[trigger] at[b])
    &&& forall|p: usize| #[trigger]
        at.contains(p) <==> p < list.len() && tree.nodes[list[p as int]].parent == parent
}

/// The tree by numbers: its objects, the roots and the children of each object.
pub open spec fn numbered<T, L>(
    tree: SceneModel<T, L>,
    list: Seq<ObjectKey>,
    roots: Seq<usize>,
    children: ChildLists,
) -> bool {
    &&& tree.lists(list, any_object())
    &&& stands_for(tree, list, None, roots)
    &&& children.len() == list.len()
    &&& forall|i: int|
        0 <= i < list.len() ==> stands_for(tree, list, Some(list[i]), #[trigger] children[i])
}

/// The objects come in the order of the walk through the tree that takes the first root with all
/// that is below it, then the next, and the same with the children of each object.
pub open spec fn in_walk_order<T, L>(tree: SceneModel<T, L>, items: Seq<SpawnItem>) -> bool {
    exists|list: Seq<ObjectKey>, roots: Seq<usize>, children: ChildLists| #[trigger]
        numbered(tree, list, roots, children) && items.map_values(|i: SpawnItem| i.key)
            == walk_from(children, roots, seq![]).map_values(|n: usize| list[n as int])
}

proof fn lemma_stands_for<T, L>(
    tree: SceneModel<T, L>,
    list: Seq<ObjectKey>,
    keys: Seq<ObjectKey>,
    parent: Option<ObjectKey>,
    at: Seq<usize>,
)
    requires
        tree.lists(list, any_object()),
        tree.lists(keys, hangs_below(tree, parent)),
        at.len() == keys.len(),
        forall|i: int|
            0 <= i < at.len() ==> (#[trigger] at[i]) < list.len() && list[at[i] as int]
                == keys[keys.len() - 1 - i],
    ensures
        stands_for(tree, list, parent, at),
{
    assert forall|a: int, b: int| 0 <= a < b < at.len() implies (#[trigger] at[a]) > (
    #[trigger] at[b]) by {
        assert(keys[keys.len() - 1 - b].index < keys[keys.len() - 1 - a].index);
        if at[a] < at[b] {
            assert(list[at[a] as int].index < list[at[b] as int].index);
        }
    }
    assert forall|p: usize| #[trigger] at.contains(p) <==> p < list.len()
        && tree.nodes[list[p as int]].parent == parent by {
        if at.contains(p) {
            let i = choose|i: int| 0 <= i < at.len() && at[i] == p;
            assert(at[i] < list.len());
            let k = keys[keys.len() - 1 - i];
            assert(keys.contains(k));
            assert(tree.nodes.contains_key(k) && hangs_below(tree, parent)(k));
        }
        if p < list.len() && tree.nodes[list[p as int]].parent == parent {
            let k = list[p as int];
            assert(list.contains(k));
            assert(tree.nodes.contains_key(k));
            assert(hangs_below(tree, parent)(k));
            assert(keys.contains(k));
            let j = choose|j: int| 0 <= j < keys.len() && keys[j] == k;
            let i = keys.len() - 1 - j;
            assert(list[at[i] as int] == k);
            assert(at[i] == p) by {
                if at[i] < p {
                    assert(list[at[i] as int].index < list[p as int].index);
                }
                if p < at[i] {
                    assert(list[p as int].index < list[at[i] as int].index);
                }
            }
            assert(at.contains(p));
        }
    }
}

proof fn lemma_all_reachable<T, L>(
    tree: SceneModel<T, L>,
    list: Seq<ObjectKey>,
    roots: Seq<usize>,
    children: ChildLists,
    k: ObjectKey,
    n: nat,
)
    requires
        tree.well_rooted(),
        tree.lists(list, any_object()),
        list.len() <= usize::MAX,
        stands_for(tree, list, None, roots),
        children.len() == list.len(),
        forall|i: int|
            0 <= i < list.len() ==> stands_for(
                tree,
                list,
                Some(list[i]),
                #[trigger] children[i],
            ),
        tree.nodes.contains_key(k),
        tree.up(k, n) is None,
    ensures
        exists|p: usize|
            p < list.len() && #[trigger] list[p as int] == k && reachable(roots, children, p),
    decreases n,
{
    assert(any_object()(k));
    assert(list.contains(k));
    let at = choose|i: int| 0 <= i < list.len() && list[i] == k;
    let p = at as usize;
    if tree.nodes[k].parent is None {
        assert(roots.contains(p));
        crate::hierarchy::lemma_root_reachable(roots, children, p);
        assert(list[p as int] == k);
    } else {
        let up = tree.nodes[k].parent->0;
        assert(tree.nodes.contains_key(up));
        reveal_with_fuel(SceneModel::up, 2);
        assert(n > 0);
        assert(tree.up(k, 1) == Some(up));
        crate::scene_merge::lemma_up_add(tree, k, up, 1, (n - 1) as nat);
        lemma_all_reachable(tree, list, roots, children, up, (n - 1) as nat);
        let q = choose|q: usize|
            q < list.len() && #[trigger] list[q as int] == up && reachable(roots, children, q);
        assert(stands_for(tree, list, Some(list[q as int]), children[q as int]));
        assert(children[q as int].contains(p));
        crate::hierarchy::lemma_child_reachable(roots, children, q, p);
        assert(list[p as int] == k);
    }
}

/// Lists the objects of a scene in the order in which the running world makes entities of them:
/// branch by branch, from each root down, parents before children.
pub fn spawn_order<T: Copy, L: Copy>(scene: &Scene<T, L>) -> (items: Vec<SpawnItem>)
    requires
        scene.wf(),
    ensures
        spawns(scene@, items@),
        in_walk_order(scene@, items@),
{
    proof {
        scene.contents_are_well_rooted();
    }
    let ghost tree = scene@;
    let list = scene.objects();
    let top = scene.roots();
    proof {
        assert forall|i: int| 0 <= i < top@.len() implies list@.contains(#[trigger] top@[i]) by {
            assert(top@.contains(top@[i]));
            assert(any_object()(top@[i]));
        }
    }
    let roots = reversed(places(&list, &top));
    proof {
        lemma_stands_for(tree, list@, top@, None, roots@);
    }
    let mut children: Vec<Vec<usize>> = Vec::new();
    let mut i: usize = 0;
    while i < list.len()
        invariant
            scene.wf(),
            tree == scene@,
            i <= list@.len(),
            tree.lists(list@, any_object()),
            children@.len() == i,
            forall|j: int|
                0 <= j < i ==> stands_for(
                    tree,
                    list@,
                    Some(list@[j]),
                    (#[trigger] children@[j])@,
                ),
        decreases list@.len() - i,
    {
        let below = scene.children_of(list[i]);
        proof {
            assert forall|j: int| 0 <= j < below@.len() implies list@.contains(
                #[trigger] below@[j],
            ) by {
                assert(below@.contains(below@[j]));
                assert(any_object()(below@[j]));
            }
        }
        let at = reversed(places(&list, &below));
        proof {
            lemma_stands_for(tree, list@, below@, Some(list@[i as int]), at@);
        }
        children.push(at);
        i += 1;
    }
    let order = visit_order(&roots, &children);
    let ghost lists = child_lists(children@);
    proof {
        assert forall|j: int| 0 <= j < list@.len() implies stands_for(
            tree,
            list@,
            Some(list@[j]),
            #[trigger] lists[j],
        ) by {
            assert(lists[j] == children@[j]@);
        }
        assert forall|j: int| 0 <= j < order@.len() implies (#[trigger] order@[j])
            < list@.len() by {
            assert(order@.contains(order@[j]));
            crate::hierarchy::lemma_reachable_exists(roots@, lists, order@[j]);
        }
        assert forall|a: int, b: int| 0 <= a < list@.len() && 0 <= b < list@.len() && a
            != b implies list@[a] != list@[b] by {
            if a < b {
                assert(list@[a].index < list@[b].index);
            } else {
                assert(list@[b].index < list@[a].index);
            }
        }
    }
    let mut items: Vec<SpawnItem> = Vec::new();
    let mut k: usize = 0;
    while k < order.len()
        invariant
            scene.wf(),
            tree == scene@,
            k <= order@.len(),
            items@.len() == k,
            tree.lists(list@, any_object()),
            lists.len() == list@.len(),
            is_walk(roots@, lists, order@),
            stands_for(tree, list@, None, roots@),
            forall|j: int|
                0 <= j < list@.len() ==> stands_for(tree, list@, Some(list@[j]), #[trigger] lists[j]),
            forall|j: int| 0 <= j < order@.len() ==> (#[trigger] order@[j]) < list@.len(),
            forall|j: int| 0 <= j < k ==> (#[trigger] items@[j]).key == list@[order@[j] as int],
            forall|j: int|
                0 <= j < k ==> match (#[trigger] items@[j]).parent {
                    Some(p) => p < j && tree.nodes[items@[j].key].parent == Some(
                        items@[p as int].key,
                    ),
                    None => tree.nodes[items@[j].key].parent is None,
                },
        decreases order@.len() - k,
    {
        let key = list[order[k]];
        let ghost before = items@;
        proof {
            assert(list@.contains(key));
            assert(tree.nodes.contains_key(key));
        }
        let parent = match scene.parent_of(key) {
            None => None,
            Some(up) => {
                proof {
                    assert(follows(roots@, lists, order@, k as int, order@[k as int]));
                    assert(!roots@.contains(order@[k as int]));
                    let j = choose|j: int|
                        0 <= j < k && #[trigger] lists[order@[j] as int].contains(
                            order@[k as int],
                        );
                    assert(order@[j] < list@.len());
                    assert(stands_for(
                        tree,
                        list@,
                        Some(list@[order@[j] as int]),
                        lists[order@[j] as int],
                    ));
                    assert(items@[j].key == up);
                }
                Some(find_item(&items, up))
            },
        };
        items.push(SpawnItem { key, parent });
        proof {
            assert forall|j: int| 0 <= j < k + 1 implies match (#[trigger] items@[j]).parent {
                Some(p) => p < j && tree.nodes[items@[j].key].parent == Some(items@[p as int].key),
                None => tree.nodes[items@[j].key].parent is None,
            } by {
                if j < k {
                    assert(items@[j] == before[j]);
                }
            }
        }
        k += 1;
    }
    proof {
        assert(numbered(tree, list@, roots@, lists));
        assert(items@.map_values(|i: SpawnItem| i.key) =~= order@.map_values(
            |n: usize| list@[n as int],
        ));
        assert forall|a: int, b: int|
            0 <= a < items@.len() && 0 <= b < items@.len() && (#[trigger] items@[a]).key == (
            #[trigger] items@[b]).key implies a == b by {
            assert(list@[order@[a] as int] == list@[order@[b] as int]);
            assert(order@[a] == order@[b]);
        }
        assert forall|j: int| 0 <= j < items@.len() implies tree.nodes.contains_key(
            (#[trigger] items@[j]).key,
        ) by {
            assert(list@.contains(list@[order@[j] as int]));
        }
        assert forall|key: ObjectKey| #[trigger] tree.nodes.contains_key(key) implies exists|j: int|
            0 <= j < items@.len() && (#[trigger] items@[j]).key == key by {
            let n = choose|n: nat| #[trigger] tree.up(key, n) is None;
            assert(list@.len() == list.len());
            lemma_all_reachable(tree, list@, roots@, lists, key, n);
            let p = choose|p: usize|
                p < list@.len() && #[trigger] list@[p as int] == key && reachable(
                    roots@,
                    lists,
                    p,
                );
            assert(order@.contains(p));
            let j = choose|j: int| 0 <= j < order@.len() && order@[j] == p;
            assert(items@[j].key == key);
        }
    }
    items
}

fn find_item(items: &Vec<SpawnItem>, key: ObjectKey) -> (i: usize)
    requires
        exists|j: int| 0 <= j < items@.len() && (#[trigger] items@[j]).key == key,
    ensures
        i < items@.len(),
        items@[i as int].key == key,
{
    let ghost j = choose|j: int| 0 <= j < items@.len() && (#[trigger] items@[j]).key == key;
    let mut i: usize = 0;
    proof {
        assert(items@.len() == items.len());
    }
    while items[i].key != key
        invariant
            i <= j < items@.len() <= usize::MAX,
            items@[j].key == key,
        decreases items@.len() - i,
    {
        i += 1;
    }
    i
}

/// Objects that become entities below the same one.
pub open spec fn siblings(keys: Seq<ObjectKey>, parent: Option<usize>) -> Seq<SpawnItem> {
    keys.map_values(|key: ObjectKey| SpawnItem { key, parent })
}

/// What is below the first `n` entities: first all that is below the first, then all that is below
/// the second, and so on.
pub open spec fn offspring(below: Seq<Seq<ObjectKey>>, n: nat) -> Seq<SpawnItem>
    decreases n,
{
    if n == 0 {
        seq![]
    } else {
        offspring(below, (n - 1) as nat) + siblings(below[n - 1], Some((n - 1) as usize))
    }
}

/// The roots of the tree, and what is below each item, both in the order of their nodes.
pub open spec fn families<T, L>(
    tree: SceneModel<T, L>,
    items: Seq<SpawnItem>,
    roots: Seq<ObjectKey>,
    below: Seq<Seq<ObjectKey>>,
) -> bool {
    &&& tree.lists(roots, hangs_below(tree, None))
    &&& forall|i: int|
        0 <= i < below.len() ==> tree.lists(
            #[trigger] below[i],
            hangs_below(tree, Some(items[i].key)),
        )
}

/// The objects come level by level: the roots, then what is below them, and so on.
pub open spec fn level_by_level<T, L>(tree: SceneModel<T, L>, items: Seq<SpawnItem>) -> bool {
    exists|roots: Seq<ObjectKey>, below: Seq<Seq<ObjectKey>>| #[trigger]
        families(tree, items, roots, below) && below.len() == items.len() && items == siblings(
            roots,
            None,
        ) + offspring(below, below.len())
}

spec fn listed(items: Seq<SpawnItem>, k: ObjectKey) -> bool {
    exists|i: int| 0 <= i < items.len() && (#[trigger] items[i]).key == k
}

/// The roots and all objects below the first `n` items are listed.
spec fn spawned_below<T, L>(tree: SceneModel<T, L>, items: Seq<SpawnItem>, n: int) -> bool {
    &&& forall|i: int, j: int|
        0 <= i < items.len() && 0 <= j < items.len() && (#[trigger] items[i]).key == (
        #[trigger] items[j]).key ==> i == j
    &&& forall|i: int| 0 <= i < items.len() ==> tree.nodes.contains_key((#[trigger] items[i]).key)
    &&& forall|i: int|
        0 <= i < items.len() ==> match (#[trigger] items[i]).parent {
            Some(p) => p < i && p < n && tree.nodes[items[i].key].parent == Some(
                items[p as int].key,
            ),
            None => tree.nodes[items[i].key].parent is None,
        }
    &&& forall|k: ObjectKey| #[trigger]
        tree.nodes.contains_key(k) && tree.nodes[k].parent is None ==> listed(items, k)
    &&& forall|k: ObjectKey, q: int|
        0 <= q < n && #[trigger] tree.nodes.contains_key(k) && tree.nodes[k].parent == Some(
            (#[trigger] items[q]).key,
        ) ==> listed(items, k)
}

proof fn lemma_lists_distinct<T, L>(
    tree: SceneModel<T, L>,
    list: Seq<ObjectKey>,
    pass: spec_fn(ObjectKey) -> bool,
)
    requires
        tree.lists(list, pass),
    ensures
        forall|a: int, b: int|
            0 <= a < list.len() && 0 <= b < list.len() && list[a] == list[b] ==> a == b,
        forall|a: int|
            0 <= a < list.len() ==> tree.nodes.contains_key(#[trigger] list[a]) && pass(list[a]),
{
    assert forall|a: int, b: int|
        0 <= a < list.len() && 0 <= b < list.len() && list[a] == list[b] implies a == b by {
        if a < b {
            assert(list[a].index < list[b].index);
        } else if b < a {
            assert(list[b].index < list[a].index);
        }
    }
    assert forall|a: int| 0 <= a < list.len() implies tree.nodes.contains_key(#[trigger] list[a])
        && pass(list[a]) by {
        assert(list.contains(list[a]));
    }
}

proof fn lemma_roots_spawned<T, L>(tree: SceneModel<T, L>, roots: Seq<ObjectKey>)
    requires
        tree.lists(roots, hangs_below(tree, None)),
    ensures
        spawned_below(tree, siblings(roots, None), 0),
{
    let items = siblings(roots, None);
    lemma_lists_distinct(tree, roots, hangs_below(tree, None));
    assert forall|i: int, j: int|
        0 <= i < items.len() && 0 <= j < items.len() && (#[trigger] items[i]).key == (
        #[trigger] items[j]).key implies i == j by {
        assert(roots[i] == roots[j]);
    }
    assert forall|i: int| 0 <= i < items.len() implies tree.nodes.contains_key(
        (#[trigger] items[i]).key,
    ) && tree.nodes[items[i].key].parent is None by {
        assert(items[i].key == roots[i]);
    }
    assert forall|k: ObjectKey| #[trigger]
        tree.nodes.contains_key(k) && tree.nodes[k].parent is None implies listed(items, k) by {
        assert(hangs_below(tree, None)(k));
        assert(roots.contains(k));
        let i = choose|i: int| 0 <= i < roots.len() && roots[i] == k;
        assert(items[i].key == k);
    }
}

proof fn lemma_children_spawned<T, L>(
    tree: SceneModel<T, L>,
    items: Seq<SpawnItem>,
    keys: Seq<ObjectKey>,
    n: int,
)
    requires
        spawned_below(tree, items, n),
        0 <= n < items.len() <= usize::MAX,
        tree.lists(keys, hangs_below(tree, Some(items[n].key))),
    ensures
        spawned_below(tree, items + siblings(keys, Some(n as usize)), n + 1),
{
    let up = items[n].key;
    let added = siblings(keys, Some(n as usize));
    let all = items + added;
    let m = items.len();
    lemma_lists_distinct(tree, keys, hangs_below(tree, Some(up)));
    assert forall|i: int| m <= i < all.len() implies (#[trigger] all[i]).key == keys[i - m]
        && all[i].parent == Some(n as usize) && tree.nodes.contains_key(all[i].key)
        && tree.nodes[all[i].key].parent == Some(up) by {
        assert(all[i] == added[i - m]);
        assert(hangs_below(tree, Some(up))(keys[i - m]));
    }
    assert forall|i: int, j: int|
        0 <= i < m && m <= j < all.len() implies (#[trigger] all[i]).key != (
    #[trigger] all[j]).key by {
        assert(all[i] == items[i]);
        if items[i].key == all[j].key {
            assert(items[i].parent is Some);
            let p = items[i].parent->0;
            assert(items[p as int].key == items[n].key);
        }
    }
    assert forall|i: int, j: int|
        0 <= i < all.len() && 0 <= j < all.len() && (#[trigger] all[i]).key == (
        #[trigger] all[j]).key implies i == j by {
        if i < m && j < m {
            assert(all[i] == items[i] && all[j] == items[j]);
        } else if i >= m && j >= m {
            assert(keys[i - m] == keys[j - m]);
        }
    }
    assert forall|i: int| 0 <= i < all.len() implies tree.nodes.contains_key(
        (#[trigger] all[i]).key,
    ) && match all[i].parent {
        Some(p) => p < i && p < n + 1 && tree.nodes[all[i].key].parent == Some(all[p as int].key),
        None => tree.nodes[all[i].key].parent is None,
    } by {
        if i < m {
            assert(all[i] == items[i]);
        }
    }
    assert forall|k: ObjectKey| #[trigger] listed(items, k) implies listed(all, k) by {
        let i = choose|i: int| 0 <= i < items.len() && (#[trigger] items[i]).key == k;
        assert(all[i].key == k);
    }
    assert forall|k: ObjectKey, q: int|
        0 <= q < n + 1 && #[trigger] tree.nodes.contains_key(k) && tree.nodes[k].parent == Some(
            (#[trigger] all[q]).key,
        ) implies listed(all, k) by {
        assert(all[q] == items[q]);
        if q == n {
            assert(hangs_below(tree, Some(up))(k));
            assert(keys.contains(k));
            let i = choose|i: int| 0 <= i < keys.len() && keys[i] == k;
            assert(all[m + i].key == k);
        } else {
            assert(tree.nodes[k].parent == Some(items[q].key));
            assert(listed(items, k));
        }
    }
}

proof fn lemma_all_spawned<T, L>(
    tree: SceneModel<T, L>,
    items: Seq<SpawnItem>,
    k: ObjectKey,
    n: nat,
)
    requires
        tree.well_rooted(),
        spawned_below(tree, items, items.len() as int),
        tree.nodes.contains_key(k),
        tree.up(k, n) is None,
    ensures
        listed(items, k),
    decreases n,
{
    if let Some(up) = tree.nodes[k].parent {
        assert(tree.nodes.contains_key(up));
        reveal_with_fuel(SceneModel::up, 2);
        assert(n > 0);
        assert(tree.up(k, 1) == Some(up));
        crate::scene_merge::lemma_up_add(tree, k, up, 1, (n - 1) as nat);
        lemma_all_spawned(tree, items, up, (n - 1) as nat);
        let q = choose|q: int| 0 <= q < items.len() && (#[trigger] items[q]).key == up;
        assert(tree.nodes[k].parent == Some(items[q].key));
    }
}

proof fn lemma_no_more_than_objects<T, L>(tree: SceneModel<T, L>, items: Seq<SpawnItem>)
    requires
        tree.nodes.dom().finite(),
        forall|i: int, j: int|
            0 <= i < items.len() && 0 <= j < items.len() && (#[trigger] items[i]).key == (
            #[trigger] items[j]).key ==> i == j,
        forall|i: int| 0 <= i < items.len() ==> tree.nodes.contains_key((#[trigger] items[i]).key),
    ensures
        items.len() <= tree.nodes.dom().len(),
{
    let keys = items.map_values(|i: SpawnItem| i.key);
    assert(keys.no_duplicates()) by {
        assert forall|a: int, b: int|
            0 <= a < keys.len() && 0 <= b < keys.len() && a != b implies keys[a] != keys[b] by {
            assert(items[a].key == keys[a] && items[b].key == keys[b]);
        }
    }
    keys.unique_seq_to_set();
    assert(keys.to_set().subset_of(tree.nodes.dom())) by {
        assert forall|k: ObjectKey| keys.to_set().contains(k) implies tree.nodes.dom().contains(
            k,
        ) by {
            let i = choose|i: int| 0 <= i < keys.len() && keys[i] == k;
            assert(items[i].key == k);
        }
    }
    vstd::set_lib::lemma_len_subset(keys.to_set(), tree.nodes.dom());
}

proof fn lemma_offspring_push(below: Seq<Seq<ObjectKey>>, keys: Seq<ObjectKey>, n: nat)
    requires
        n <= below.len(),
    ensures
        offspring(below.push(keys), n) == offspring(below, n),
    decreases n,
{
    if n > 0 {
        lemma_offspring_push(below, keys, (n - 1) as nat);
        assert(below.push(keys)[n - 1] == below[n - 1]);
    }
}

/// How a scene is brought to life: its objects in an order in which they can become entities, and
/// the place of the main camera among them.
#[derive(Debug)]
pub struct SpawnPlan {
    pub items: Vec<SpawnItem>,
    pub main_camera: Option<usize>,
}

fn add_siblings(items: &mut Vec<SpawnItem>, keys: &Vec<ObjectKey>, parent: Option<usize>)
    ensures
        final(items)@ == old(items)@ + siblings(keys@, parent),
{
    let ghost before = items@;
    let mut i: usize = 0;
    proof {
        assert(before + siblings(keys@.take(0), parent) =~= before);
    }
    while i < keys.len()
        invariant
            i <= keys@.len(),
            items@ == before + siblings(keys@.take(i as int), parent),
        decreases keys@.len() - i,
    {
        items.push(SpawnItem { key: keys[i], parent });
        proof {
            assert(items@ =~= before + siblings(keys@.take(i as int + 1), parent));
        }
        i += 1;
    }
    proof {
        assert(keys@.take(i as int) =~= keys@);
    }
}

/// Plans how a scene comes to life: every object becomes an entity once, level by level, below the
/// entity of its parent. The entity of the main camera is named where the scene has it.
pub fn spawn_scene<T: Copy, L: Copy>(
    scene: &Scene<T, L>,
    main_camera: Option<ObjectKey>,
) -> (plan: SpawnPlan)
    requires
        scene.wf(),
    ensures
        spawns(scene@, plan.items@),
        level_by_level(scene@, plan.items@),
        match plan.main_camera {
            Some(i) => i < plan.items@.len() && main_camera == Some(plan.items@[i as int].key),
            None => main_camera matches Some(k) ==> !scene@.nodes.contains_key(k),
        },
{
    proof {
        scene.contents_are_well_rooted();
    }
    let ghost tree = scene@;
    let total = scene.object_count();
    let roots = scene.roots();
    let mut items: Vec<SpawnItem> = Vec::new();
    let ghost mut below: Seq<Seq<ObjectKey>> = seq![];
    add_siblings(&mut items, &roots, None);
    proof {
        assert(items@ =~= siblings(roots@, None));
        assert(items@ =~= siblings(roots@, None) + offspring(below, 0));
        lemma_roots_spawned(tree, roots@);
    }
    let mut i: usize = 0;
    while i < items.len()
        invariant
            scene.wf(),
            tree == scene@,
            tree.nodes.dom().finite(),
            total == tree.nodes.dom().len(),
            i <= items@.len(),
            below.len() == i,
            families(tree, items@, roots@, below),
            items@ == siblings(roots@, None) + offspring(below, below.len()),
            spawned_below(tree, items@, i as int),
        decreases total - i,
    {
        let ghost before = items@;
        let keys = scene.children_of(items[i].key);
        add_siblings(&mut items, &keys, Some(i));
        proof {
            lemma_no_more_than_objects(tree, before);
            lemma_children_spawned(tree, before, keys@, i as int);
            lemma_offspring_push(below, keys@, below.len());
            assert(below.push(keys@)[i as int] == keys@);
            assert(items@ =~= siblings(roots@, None) + offspring(
                below.push(keys@),
                (below.len() + 1) as nat,
            ));
            assert forall|j: int| 0 <= j < i + 1 implies tree.lists(
                #[trigger] below.push(keys@)[j],
                hangs_below(tree, Some(items@[j].key)),
            ) by {
                assert(items@[j] == before[j]);
                if j < i {
                    assert(below.push(keys@)[j] == below[j]);
                }
            }
            below = below.push(keys@);
        }
        i += 1;
    }
    let main_camera = match main_camera {
        Some(k) => place_of(&items, k),
        None => None,
    };
    proof {
        assert forall|k: ObjectKey| #[trigger] tree.nodes.contains_key(k) implies exists|j: int|
            0 <= j < items@.len() && (#[trigger] items@[j]).key == k by {
            let n = choose|n: nat| #[trigger] tree.up(k, n) is None;
            lemma_all_spawned(tree, items@, k, n);
            assert(listed(items@, k));
        }
        assert(families(tree, items@, roots@, below));
    }
    SpawnPlan { items, main_camera }
}

/// The place of an object in a list, if it is there.
pub fn place_of(items: &Vec<SpawnItem>, key: ObjectKey) -> (r: Option<usize>)
    ensures
        match r {
            Some(i) => i < items@.len() && items@[i as int].key == key,
            None => forall|i: int| 0 <= i < items@.len() ==> (#[trigger] items@[i]).key != key,
        },
{
    let mut i: usize = 0;
    while i < items.len()
        invariant
            i <= items@.len(),
            forall|j: int| 0 <= j < i ==> (#[trigger] items@[j]).key != key,
        decreases items@.len() - i,
    {
        if items[i].key == key {
            return Some(i);
        }
        i += 1;
    }
    None
}

/// The box in which something can bump into an object: for a mesh the smallest box around it, or
/// the empty box where its data is not there; none for other objects.
pub fn collider_of<T, L>(object: &SceneObject<T, L>, mesh: Option<&Mesh>) -> (r: Option<Aabb>)
    ensures
        r == (match (object.kind, mesh) {
            (SceneObjectKind::Mesh(_), Some(m)) => Some(enclosing(positions(*m))),
            (SceneObjectKind::Mesh(_), None) => Some(Aabb::nothing()),
            _ => None,
        }),
{
    match object.kind {
        SceneObjectKind::Mesh(_) => match mesh {
            Some(m) => Some(m.bounds()),
            None => Some(Aabb::empty()),
        },
        _ => None,
    }
}

/// The asset is the mesh of an object of the view or a texture of its material.
pub open spec fn needs<T, L, C, E, N>(
    view: ClientModel<T, L, Material, C, E, N>,
    h: Handle,
) -> bool {
    exists|k: ObjectKey| #[trigger] view.tree.nodes.contains_key(k) && object_needs(view, k, h)
}

/// The asset is the mesh of the object or a texture of its material.
pub open spec fn object_needs<T, L, C, E, N>(
    view: ClientModel<T, L, Material, C, E, N>,
    k: ObjectKey,
    h: Handle,
) -> bool {
    ||| view.tree.nodes[k].object.kind == SceneObjectKind::<L>::Mesh(h)
    ||| view.materials.contains_key(k) && textures_of(view.materials[k]).contains(h)
}

/// The textures of a material.
pub open spec fn textures_of(m: Material) -> Seq<Handle> {
    present(seq![m.base_color_texture, m.metallic_roughness_texture, m.normal_texture])
}

fn add_new(list: &mut Vec<Handle>, h: Handle)
    requires
        old(list)@.no_duplicates(),
    ensures
        final(list)@.no_duplicates(),
        forall|x: Handle| #[trigger]
            final(list)@.contains(x) <==> old(list)@.contains(x) || x == h,
{
    let ghost before = list@;
    let mut i: usize = 0;
    while i < list.len()
        invariant
            *list == *old(list),
            old(list)@.no_duplicates(),
            i <= list@.len(),
            forall|j: int| 0 <= j < i ==> list@[j] != h,
        decreases list@.len() - i,
    {
        if list[i] == h {
            proof {
                assert(list@.contains(h));
            }
            return;
        }
        i += 1;
    }
    list.push(h);
    proof {
        assert forall|x: Handle| #[trigger] list@.contains(x) <==> before.contains(x) || x == h by {
            if before.contains(x) {
                let j = choose|j: int| 0 <= j < before.len() && before[j] == x;
                assert(list@[j] == x);
            }
            if x == h {
                assert(list@[before.len() as int] == x);
            }
        }
        assert forall|a: int, b: int|
            0 <= a < list@.len() && 0 <= b < list@.len() && a != b implies list@[a] != list@[b] by {
            if a < before.len() {
                assert(before[a] == list@[a]);
            }
            if b < before.len() {
                assert(before[b] == list@[b]);
            }
        }
    }
}

/// The assets that a view needs, each once, however many objects share it.
pub fn scene_assets<T: Copy, L: Copy, C: Copy, E, N: Copy>(
    view: &ClientScene<T, L, Material, C, E, N>,
) -> (handles: Vec<Handle>)
    requires
        view.wf(),
    ensures
        handles@.no_duplicates(),
        forall|h: Handle| #[trigger] handles@.contains(h) <==> needs(view@, h),
{
    let list = view.scene().objects();
    let ghost v = view@;
    let mut handles: Vec<Handle> = Vec::new();
    let mut i: usize = 0;
    while i < list.len()
        invariant
            view.wf(),
            v == view@,
            i <= list@.len(),
            v.tree.lists(list@, any_object()),
            handles@.no_duplicates(),
            forall|h: Handle| #[trigger]
                handles@.contains(h) <==> exists|j: int|
                    0 <= j < i && object_needs(v, #[trigger] list@[j], h),
        decreases list@.len() - i,
    {
        let key = list[i];
        let ghost before = handles@;
        proof {
            assert(list@.contains(key));
            assert(v.tree.nodes.contains_key(key));
        }
        if let Some(object) = view.scene().object(key) {
            if let Some(h) = object.mesh_handle() {
                add_new(&mut handles, h);
            }
        }
        let ghost drawn = handles@;
        if let Some(material) = view.material(key) {
            let textures = material.texture_handles();
            let mut k: usize = 0;
            while k < textures.len()
                invariant
                    k <= textures@.len(),
                    handles@.no_duplicates(),
                    forall|h: Handle| #[trigger]
                        handles@.contains(h) <==> drawn.contains(h) || exists|j: int|
                            0 <= j < k && #[trigger] textures@[j] == h,
                decreases textures@.len() - k,
            {
                let ghost now = handles@;
                add_new(&mut handles, textures[k]);
                proof {
                    assert forall|h: Handle| #[trigger]
                        handles@.contains(h) <==> drawn.contains(h) || exists|j: int|
                            0 <= j < k + 1 && #[trigger] textures@[j] == h by {
                        if now.contains(h) && !drawn.contains(h) {
                            let j = choose|j: int| 0 <= j < k && #[trigger] textures@[j] == h;
                            assert(textures@[j] == h);
                        }
                        if h == textures@[k as int] {
                            assert(textures@[k as int] == h);
                        }
                        if exists|j: int| 0 <= j < k + 1 && #[trigger] textures@[j] == h {
                            let j = choose|j: int| 0 <= j < k + 1 && #[trigger] textures@[j] == h;
                            if j < k {
                                assert(now.contains(h));
                            }
                        }
                    }
                }
                k += 1;
            }
        }
        proof {
            assert forall|h: Handle| #[trigger] handles@.contains(h) <==> exists|j: int|
                0 <= j < i + 1 && object_needs(v, #[trigger] list@[j], h) by {
                assert(handles@.contains(h) <==> before.contains(h) || object_needs(v, key, h));
                if before.contains(h) {
                    let j = choose|j: int| 0 <= j < i && object_needs(v, #[trigger] list@[j], h);
                    assert(object_needs(v, list@[j], h));
                }
                if object_needs(v, key, h) {
                    assert(object_needs(v, list@[i as int], h));
                }
                if exists|j: int| 0 <= j < i + 1 && object_needs(v, #[trigger] list@[j], h) {
                    let j = choose|j: int|
                        0 <= j < i + 1 && object_needs(v, #[trigger] list@[j], h);
                    if j < i {
                        assert(before.contains(h));
                    }
                }
            }
        }
        i += 1;
    }
    proof {
        assert forall|h: Handle| #[trigger] handles@.contains(h) <==> needs(v, h) by {
            if handles@.contains(h) {
                let j = choose|j: int|
                    0 <= j < list@.len() && object_needs(v, #[trigger] list@[j], h);
                assert(list@.contains(list@[j]));
                assert(v.tree.nodes.contains_key(list@[j]));
            }
            if needs(v, h) {
                let k = choose|k: ObjectKey| #[trigger]
                    v.tree.nodes.contains_key(k) && object_needs(v, k, h);
                assert(any_object()(k));
                assert(list@.contains(k));
                let j = choose|j: int| 0 <= j < list@.len() && list@[j] == k;
                assert(object_needs(v, list@[j], h));
            }
        }
    }
    handles
}

/// Every object is spawned once, after its parent, and knows the place of its parent; roots know
/// none.
pub proof fn objects_are_spawned_below_their_parent<T, L>(
    tree: SceneModel<T, L>,
    items: Seq<SpawnItem>,
    i: int,
    j: int,
    k: ObjectKey,
)
    requires
        spawns(tree, items),
    ensures
        tree.nodes.contains_key(k) <==> exists|x: int|
            0 <= x < items.len() && (#[trigger] items[x]).key == k,
        0 <= i < items.len() && 0 <= j < items.len() && items[i].key == items[j].key ==> i == j,
        0 <= i < items.len() && items[i].parent is None ==> tree.nodes[items[i].key].parent is None,
        0 <= i < items.len() && items[i].parent is Some ==> items[i].parent->0 < i
            && tree.nodes[items[i].key].parent == Some(items[items[i].parent->0 as int].key),
{
}

proof fn lemma_offspring(below: Seq<Seq<ObjectKey>>, n: nat, x: int, y: int)
    requires
        n <= below.len(),
        n <= usize::MAX,
        0 <= x < y < offspring(below, n).len(),
    ensures
        offspring(below, n)[x].parent is Some,
        offspring(below, n)[y].parent is Some,
        offspring(below, n)[x].parent->0 <= offspring(below, n)[y].parent->0 < n,
        offspring(below, n)[x].parent == offspring(below, n)[y].parent && (forall|q: int, a: int, b: int|
            0 <= q < below.len() && 0 <= a < b < below[q].len() ==> (#[trigger] below[q][a]).index
                < (#[trigger] below[q][b]).index) ==> offspring(below, n)[x].key.index < offspring(
            below,
            n,
        )[y].key.index,
    decreases n,
{
    let all = offspring(below, n);
    let before = offspring(below, (n - 1) as nat);
    let last = siblings(below[n - 1], Some((n - 1) as usize));
    if y < before.len() {
        lemma_offspring(below, (n - 1) as nat, x, y);
    } else {
        assert(all[y] == last[y - before.len()]);
        if x < before.len() {
            if before.len() > 1 {
                if x == 0 {
                    lemma_offspring(below, (n - 1) as nat, x, x + 1);
                } else {
                    lemma_offspring(below, (n - 1) as nat, x - 1, x);
                }
            } else {
                lemma_offspring_one(below, (n - 1) as nat, x);
            }
        } else {
            assert(all[x] == last[x - before.len()]);
        }
    }
}

proof fn lemma_offspring_one(below: Seq<Seq<ObjectKey>>, n: nat, x: int)
    requires
        n <= below.len(),
        n <= usize::MAX,
        0 <= x < offspring(below, n).len(),
    ensures
        offspring(below, n)[x].parent is Some,
        offspring(below, n)[x].parent->0 < n,
    decreases n,
{
    let before = offspring(below, (n - 1) as nat);
    if x < before.len() {
        lemma_offspring_one(below, (n - 1) as nat, x);
    } else {
        assert(offspring(below, n)[x] == siblings(below[n - 1], Some((n - 1) as usize))[x
            - before.len()]);
    }
}

/// A scene is spawned level by level: the roots first, then the children of whoever was spawned
/// first, and so on; brothers by ascending node.
pub proof fn scenes_are_spawned_level_by_level<T, L>(
    tree: SceneModel<T, L>,
    items: Seq<SpawnItem>,
    i: int,
    j: int,
)
    requires
        level_by_level(tree, items),
        items.len() <= usize::MAX,
        0 <= i < j < items.len(),
    ensures
        items[j].parent is None ==> items[i].parent is None,
        items[i].parent is Some ==> items[j].parent is Some && items[i].parent->0
            <= items[j].parent->0,
        items[i].parent == items[j].parent ==> items[i].key.index < items[j].key.index,
{
    let (roots, below) = choose|roots: Seq<ObjectKey>, below: Seq<Seq<ObjectKey>>| #[trigger]
        families(tree, items, roots, below) && below.len() == items.len() && items == siblings(
            roots,
            None,
        ) + offspring(below, below.len());
    let n = roots.len();
    let rest = offspring(below, below.len());
    assert forall|q: int, a: int, b: int|
        0 <= q < below.len() && 0 <= a < b < below[q].len() implies (#[trigger] below[q][a]).index
        < (#[trigger] below[q][b]).index by {
        assert(tree.lists(below[q], hangs_below(tree, Some(items[q].key))));
    }
    if i >= n {
        assert(items[i] == rest[i - n]);
        assert(items[j] == rest[j - n]);
        lemma_offspring(below, below.len(), i - n, j - n);
    } else {
        assert(items[i] == siblings(roots, None)[i]);
        if j < n {
            assert(items[j] == siblings(roots, None)[j]);
            assert(roots[i].index < roots[j].index);
        } else {
            assert(items[j] == rest[j - n]);
            lemma_offspring_one(below, below.len(), j - n);
        }
    }
}

/// A view needs a handle exactly where some object of it shows that mesh, or is dressed in a
/// material with that texture in one of its slots.
pub proof fn needed_handles_are_meshes_and_textures<T, L, C, E, N>(
    view: ClientModel<T, L, Material, C, E, N>,
    h: Handle,
)
    ensures
        needs(view, h) <==> exists|k: ObjectKey| #[trigger]
            view.tree.nodes.contains_key(k) && (view.tree.nodes[k].object.kind
                == SceneObjectKind::<L>::Mesh(h) || (view.materials.contains_key(k) && (
            view.materials[k].base_color_texture == Some(h)
                || view.materials[k].metallic_roughness_texture == Some(h)
                || view.materials[k].normal_texture == Some(h)))),
{
    assert forall|k: ObjectKey| object_needs(view, k, h) <==> (#[trigger] view.tree.nodes[k].object.kind
        == SceneObjectKind::<L>::Mesh(h) || (view.materials.contains_key(k) && (
    view.materials[k].base_color_texture == Some(h) || view.materials[k].metallic_roughness_texture
        == Some(h) || view.materials[k].normal_texture == Some(h)))) by {
        lemma_textures_of(view.materials[k], h);
    }
    if needs(view, h) {
        let k = choose|k: ObjectKey| #[trigger]
            view.tree.nodes.contains_key(k) && object_needs(view, k, h);
        assert(view.tree.nodes.contains_key(k));
        assert(object_needs(view, k, h) <==> (view.tree.nodes[k].object.kind
            == SceneObjectKind::<L>::Mesh(h) || (view.materials.contains_key(k) && (
        view.materials[k].base_color_texture == Some(h)
            || view.materials[k].metallic_roughness_texture == Some(h)
            || view.materials[k].normal_texture == Some(h)))));
    }
}

pub(crate) proof fn lemma_textures_of(m: Material, h: Handle)
    ensures
        textures_of(m).contains(h) <==> m.base_color_texture == Some(h)
            || m.metallic_roughness_texture == Some(h) || m.normal_texture == Some(h),
{
    crate::material::textures_come_in_the_order_of_their_slots(m);
    let list = textures_of(m);
    if m.base_color_texture == Some(h) {
        assert(list[0] == h);
    }
    if m.metallic_roughness_texture == Some(h) {
        assert(list[0] == h || list[1] == h);
    }
    if m.normal_texture == Some(h) {
        assert(list[list.len() - 1] == h);
    }
}

/// The walk of a scene begins with the root of the least node, and goes from each object that has
/// children straight to the one of the least node among them.
pub proof fn walks_go_to_the_least_child_first<T, L>(
    tree: SceneModel<T, L>,
    items: Seq<SpawnItem>,
    i: int,
    k: ObjectKey,
)
    requires
        spawns(tree, items),
        in_walk_order(tree, items),
        items.len() < usize::MAX,
        tree.nodes.contains_key(k),
    ensures
        tree.nodes[k].parent is None ==> items.len() > 0 && items[0].parent is None
            && items[0].key.index <= k.index,
        0 <= i < items.len() && tree.nodes[k].parent == Some(items[i].key) ==> i + 1 < items.len()
            && items[i + 1].parent == Some(i as usize) && items[i + 1].key.index <= k.index,
{
    let (list, roots, children) = choose|
        list: Seq<ObjectKey>,
        roots: Seq<usize>,
        children: ChildLists,
    | #[trigger]
        numbered(tree, list, roots, children) && items.map_values(|i: SpawnItem| i.key)
            == walk_from(children, roots, seq![]).map_values(|n: usize| list[n as int]);
    let order = walk_from(children, roots, seq![]);
    let names = items.map_values(|i: SpawnItem| i.key);
    assert(names.len() == items.len() && order.len() == items.len());
    assert forall|x: int| 0 <= x < items.len() implies #[trigger] items[x].key
        == list[order[x] as int] by {
        assert(names[x] == items[x].key);
    }
    lemma_list_fits(tree, list, items);
    assert(any_object()(k));
    assert(list.contains(k));
    let p = choose|p: int| 0 <= p < list.len() && list[p] == k;
    crate::hierarchy::walks_take_the_last_child_next(children, roots, i);
    if tree.nodes[k].parent is None {
        assert(stands_for(tree, list, None, roots));
        assert(roots.contains(p as usize));
        let at = choose|at: int| 0 <= at < roots.len() && roots[at] == p as usize;
        let last = roots.len() - 1;
        assert(roots.contains(roots[last]));
        assert(roots.last() < list.len());
        if at < last {
            assert(roots[at] > roots[last]);
            assert(list[roots[last] as int].index < list[p].index);
        }
        assert(order[0] == roots.last());
        assert(items[0].key == list[roots.last() as int]);
        assert(tree.nodes[items[0].key].parent is None);
    }
    if 0 <= i < items.len() && tree.nodes[k].parent == Some(items[i].key) {
        assert(items[i].key == list[order[i] as int]);
        lemma_order_within(children, roots, i);
        let own = children[order[i] as int];
        assert(stands_for(tree, list, Some(list[order[i] as int]), own));
        assert(own.contains(p as usize));
        let at = choose|at: int| 0 <= at < own.len() && own[at] == p as usize;
        let last = own.len() - 1;
        let c = own.last();
        assert(own.contains(own[last]));
        assert(c < list.len());
        if at < last {
            assert(own[at] > own[last]);
            assert(list[c as int].index < list[p].index);
        }
        if order.take(i + 1).contains(c) {
            let taken = order.take(i + 1);
            let x = choose|x: int| 0 <= x < taken.len() && taken[x] == c;
            assert(order[x] == c);
            assert(items[x].key == list[c as int]);
            assert(tree.nodes[items[x].key].parent == Some(items[i].key));
            let q = items[x].parent->0;
            assert(items[q as int].key == items[i].key);
            assert(q == i);
        }
        assert(items[i + 1].key == list[c as int]);
        let q = items[i + 1].parent->0;
        assert(items[q as int].key == items[i].key);
    }
}

proof fn lemma_list_fits<T, L>(
    tree: SceneModel<T, L>,
    list: Seq<ObjectKey>,
    items: Seq<SpawnItem>,
)
    requires
        spawns(tree, items),
        tree.lists(list, any_object()),
    ensures
        list.len() <= items.len(),
{
    let names = items.map_values(|i: SpawnItem| i.key);
    assert(list.no_duplicates()) by {
        assert forall|a: int, b: int|
            0 <= a < list.len() && 0 <= b < list.len() && a != b implies list[a] != list[b] by {
            if a < b {
                assert(list[a].index < list[b].index);
            } else {
                assert(list[b].index < list[a].index);
            }
        }
    }
    list.unique_seq_to_set();
    assert(list.to_set().subset_of(names.to_set())) by {
        assert forall|k: ObjectKey| list.to_set().contains(k) implies names.to_set().contains(
            k,
        ) by {
            assert(list.contains(k));
            assert(tree.nodes.contains_key(k));
            let x = choose|x: int| 0 <= x < items.len() && (#[trigger] items[x]).key == k;
            assert(names[x] == k);
        }
    }
    names.lemma_cardinality_of_set();
    vstd::set_lib::lemma_len_subset(list.to_set(), names.to_set());
}

proof fn lemma_order_within(children: ChildLists, roots: Seq<usize>, i: int)
    requires
        0 <= i < walk_from(children, roots, seq![]).len(),
    ensures
        walk_from(children, roots, seq![])[i] < children.len(),
{
    crate::hierarchy::lemma_walk_within(children, roots, seq![], i);
}

/// What `collider_of` answers: a mesh has the box around its vertices, one without data a box
/// without any point, and nothing else has any.
pub proof fn only_meshes_have_colliders<T, L>(
    object: &SceneObject<T, L>,
    mesh: Option<&Mesh>,
    r: Option<Aabb>,
)
    requires
        call_ensures(collider_of::<T, L>, (object, mesh), r),
    ensures
        r is Some <==> object.kind is Mesh,
        r is Some && mesh is Some ==> r->0 == enclosing(positions(*mesh->0)),
        r is Some && mesh is None ==> r->0.hollow(),
{
}

} // verus!
