//! Copying one scene into another.
use crate::scene::{any_object, ObjectKey, Scene, SceneModel};
use crate::text::{first_index, lemma_first_index, lemma_first_index_is};
use vstd::prelude::*;

verus! {

/// The keys of the source scene, in the order in which they were copied.
pub open spec fn sources(remap: Seq<(ObjectKey, ObjectKey)>) -> Seq<ObjectKey> {
    remap.map_values(|e: (ObjectKey, ObjectKey)| e.0)
}

/// The key of the copy of an object.
pub open spec fn copy_of(remap: Seq<(ObjectKey, ObjectKey)>, k: ObjectKey) -> ObjectKey {
    remap[first_index(sources(remap), k)].1
}

/// The copies of lights, in the order in which they were copied.
pub open spec fn copied_lights<T, L>(
    other: SceneModel<T, L>,
    remap: Seq<(ObjectKey, ObjectKey)>,
) -> Seq<ObjectKey>
    decreases remap.len(),
{
    if remap.len() == 0 {
        seq![]
    } else {
        let rest = copied_lights(other, remap.drop_last());
        if other.nodes[remap.last().0].object.kind is Light {
            rest.push(remap.last().1)
        } else {
            rest
        }
    }
}

/// Where the copy of an object hangs: below the copy of its parent.
pub open spec fn copied_parent<T, L>(
    other: SceneModel<T, L>,
    remap: Seq<(ObjectKey, ObjectKey)>,
    k: ObjectKey,
) -> Option<ObjectKey> {
    match other.nodes[k].parent {
        Some(p) => Some(copy_of(remap, p)),
        None => None,
    }
}

/// What copying the objects of `other` makes of a scene. The first `linked` copies hang where
/// they belong, the others are still roots.
pub open spec fn copied_in<T, L>(
    before: SceneModel<T, L>,
    other: SceneModel<T, L>,
    after: SceneModel<T, L>,
    remap: Seq<(ObjectKey, ObjectKey)>,
    linked: int,
) -> bool {
    &&& forall|k: ObjectKey| #[trigger]
        after.nodes.contains_key(k) <==> before.nodes.contains_key(k) || exists|i: int|
            0 <= i < remap.len() && (#[trigger] remap[i]).1 == k
    &&& forall|k: ObjectKey| #[trigger]
        before.nodes.contains_key(k) ==> after.nodes[k] == before.nodes[k]
    &&& forall|i: int|
        0 <= i < remap.len() ==> {
            &&& !before.nodes.contains_key((#[trigger] remap[i]).1)
            &&& remap[i].1.serial == before.next + i
            &&& other.nodes.contains_key(remap[i].0)
            &&& after.nodes[remap[i].1].object == other.nodes[remap[i].0].object
            &&& after.nodes[remap[i].1].parent == (if i < linked {
                copied_parent(other, remap, remap[i].0)
            } else {
                None
            })
        }
    &&& after.light_cache == before.light_cache + copied_lights(other, remap)
    &&& after.next == before.next + remap.len()
}

/// What merging `other` makes of a scene: every object has a copy with a new key, the copies
/// hang among each other as the originals do, and everything else stays as it was.
pub open spec fn merged<T, L>(
    before: SceneModel<T, L>,
    other: SceneModel<T, L>,
    after: SceneModel<T, L>,
    remap: Seq<(ObjectKey, ObjectKey)>,
) -> bool {
    &&& other.lists(sources(remap), any_object())
    &&& copied_in(before, other, after, remap, remap.len() as int)
}

proof fn lemma_up_none<T, L>(m: SceneModel<T, L>, k: ObjectKey, n: nat, j: nat)
    requires
        m.up(k, n) is None,
        n <= j,
    ensures
        m.up(k, j) is None,
    decreases j,
{
    if n < j {
        lemma_up_none(m, k, n, (j - 1) as nat);
    }
}

/// Going up `n` steps and then `j` is going up `n + j`.
pub proof fn lemma_up_add<T, L>(m: SceneModel<T, L>, k: ObjectKey, a: ObjectKey, n: nat, j: nat)
    requires
        m.up(k, n) == Some(a),
    ensures
        m.up(k, n + j) == m.up(a, j),
    decreases j,
{
    if j > 0 {
        lemma_up_add(m, k, a, n, (j - 1) as nat);
    }
}

proof fn lemma_up_loop<T, L>(m: SceneModel<T, L>, k: ObjectKey, n: nat, times: nat)
    requires
        m.up(k, n) == Some(k),
        n > 0,
    ensures
        m.up(k, times * n) == Some(k),
        times * n >= times,
    decreases times,
{
    if times > 0 {
        lemma_up_loop(m, k, n, (times - 1) as nat);
        assert(times * n == (times - 1) * n + n) by (nonlinear_arith)
            requires
                times > 0,
        ;
        lemma_up_add(m, k, k, ((times - 1) * n) as nat, n);
    } else {
        assert(times * n == 0) by (nonlinear_arith)
            requires
                times == 0,
        ;
    }
}

/// No object lies above itself.
pub proof fn no_object_above_itself<T, L>(m: SceneModel<T, L>, k: ObjectKey, n: nat)
    requires
        m.well_rooted(),
        m.nodes.contains_key(k),
        n > 0,
    ensures
        m.up(k, n) != Some(k),
{
    if m.up(k, n) == Some(k) {
        let top = choose|j: nat| #[trigger] m.up(k, j) is None;
        lemma_up_loop(m, k, n, top);
        lemma_up_none(m, k, top, top * n);
    }
}

/// The way up from a copy mirrors the way up from its original.
proof fn lemma_mirror<T, L>(
    before: SceneModel<T, L>,
    other: SceneModel<T, L>,
    now: SceneModel<T, L>,
    remap: Seq<(ObjectKey, ObjectKey)>,
    linked: int,
    i: int,
    n: nat,
)
    requires
        other.lists(sources(remap), any_object()),
        other.well_rooted(),
        copied_in(before, other, now, remap, linked),
        0 <= i < remap.len(),
    ensures
        now.up(remap[i].1, n) matches Some(y) ==> exists|j: int|
            0 <= j < remap.len() && y == (#[trigger] remap[j]).1 && other.up(remap[i].0, n) == Some(
                remap[j].0,
            ),
    decreases n,
{
    if n == 0 {
        assert(remap[i].1 == remap[i].1);
    } else {
        lemma_mirror(before, other, now, remap, linked, i, (n - 1) as nat);
        if now.up(remap[i].1, n) is Some {
            let x = now.up(remap[i].1, (n - 1) as nat)->0;
            let j = choose|j: int|
                0 <= j < remap.len() && x == (#[trigger] remap[j]).1 && other.up(
                    remap[i].0,
                    (n - 1) as nat,
                ) == Some(remap[j].0);
            assert(now.nodes[remap[j].1].parent is Some);
            assert(j < linked);
            let p = other.nodes[remap[j].0].parent->0;
            assert(other.nodes.contains_key(remap[j].0));
            assert(other.nodes.contains_key(p));
            assert(sources(remap).contains(p));
            lemma_first_index(sources(remap), p);
            let q = first_index(sources(remap), p);
            assert(sources(remap)[q] == remap[q].0);
            assert(now.up(remap[i].1, n) == Some(remap[q].1));
        }
    }
}

impl<T: Copy, L: Copy> Scene<T, L> {
    /// Copies all objects of another scene into this one, with the way they hang. Tells for each
    /// object the key of its copy.
    pub fn merge(&mut self, other: &Scene<T, L>) -> (remap: Vec<(ObjectKey, ObjectKey)>)
        requires
            old(self).wf(),
            other.wf(),
            old(self)@.next + other@.nodes.dom().len() <= u64::MAX,
        ensures
            final(self).wf(),
            merged(old(self)@, other@, final(self)@, remap@),
    {
        let ghost before = self@;
        let ghost om = other@;
        let all = other.objects();
        let mut remap: Vec<(ObjectKey, ObjectKey)> = Vec::new();
        let mut i: usize = 0;
        proof {
            other.contents_are_well_rooted();
            assert(all@.no_duplicates()) by {
                assert forall|a: int, b: int|
                    0 <= a < all@.len() && 0 <= b < all@.len() && a != b implies all@[a]
                    != all@[b] by {
                    if a < b {
                        assert(all@[a].index < all@[b].index);
                    } else {
                        assert(all@[b].index < all@[a].index);
                    }
                }
            }
            all@.unique_seq_to_set();
            assert(all@.to_set() =~= om.nodes.dom()) by {
                assert forall|k: ObjectKey|
                    all@.to_set().contains(k) == om.nodes.dom().contains(k) by {
                    assert(all@.contains(k) <==> om.nodes.contains_key(k) && any_object()(k));
                }
            }
            assert(before.light_cache + copied_lights(om, remap@) =~= before.light_cache);
        }
        while i < all.len()
            invariant
                self.wf(),
                other.wf(),
                om == other@,
                om.lists(all@, any_object()),
                all@.len() == om.nodes.dom().len(),
                before == old(self)@,
                before.next + all@.len() <= u64::MAX,
                i <= all@.len(),
                remap@.len() == i,
                sources(remap@) =~= all@.take(i as int),
                copied_in(before, om, self@, remap@, 0),
            decreases all@.len() - i,
        {
            let k = all[i];
            proof {
                assert(all@.contains(all@[i as int]));
                assert(om.nodes.contains_key(k));
            }
            match other.object(k) {
                Some(o) => {
                    let ghost now = self@;
                    let ghost done = remap@;
                    let object = *o;
                    let new_key = self.add_object(object);
                    remap.push((k, new_key));
                    proof {
                        let r2 = remap@;
                        assert(sources(r2) =~= all@.take(i as int + 1));
                        assert(r2.drop_last() =~= done);
                        assert(copied_lights(om, r2) =~= (if object.kind is Light {
                            copied_lights(om, done).push(new_key)
                        } else {
                            copied_lights(om, done)
                        }));
                        assert(self@.light_cache =~= before.light_cache + copied_lights(om, r2));
                        assert(!before.nodes.contains_key(new_key));
                        assert forall|x: ObjectKey| #[trigger]
                            self@.nodes.contains_key(x) <==> before.nodes.contains_key(x) || exists|
                                j: int,
                            |
                                0 <= j < r2.len() && (#[trigger] r2[j]).1 == x by {
                            if now.nodes.contains_key(x) && !before.nodes.contains_key(x) {
                                let j = choose|j: int|
                                    0 <= j < done.len() && (#[trigger] done[j]).1 == x;
                                assert(r2[j].1 == x);
                            }
                            if x == new_key {
                                assert(r2[done.len() as int].1 == x);
                            }
                            if exists|j: int| 0 <= j < r2.len() && (#[trigger] r2[j]).1 == x {
                                let j = choose|j: int|
                                    0 <= j < r2.len() && (#[trigger] r2[j]).1 == x;
                                if j < done.len() {
                                    assert(done[j].1 == x);
                                    assert(now.nodes.contains_key(x));
                                }
                            }
                        }
                        assert forall|j: int| 0 <= j < r2.len() implies {
                            &&& !before.nodes.contains_key((#[trigger] r2[j]).1)
                            &&& r2[j].1.serial == before.next + j
                            &&& om.nodes.contains_key(r2[j].0)
                            &&& self@.nodes[r2[j].1].object == om.nodes[r2[j].0].object
                            &&& self@.nodes[r2[j].1].parent is None
                        } by {
                            if j < done.len() {
                                assert(done[j] == r2[j]);
                                assert(now.nodes.contains_key(done[j].1));
                                assert(r2[j].1 != new_key);
                            }
                        }
                    }
                },
                None => {},
            }
            i += 1;
        }
        proof {
            assert(all@.take(i as int) =~= all@);
        }
        let mut i: usize = 0;
        while i < remap.len()
            invariant
                self.wf(),
                other.wf(),
                om == other@,
                om.well_rooted(),
                before == old(self)@,
                i <= remap@.len(),
                om.lists(sources(remap@), any_object()),
                copied_in(before, om, self@, remap@, i as int),
            decreases remap@.len() - i,
        {
            let ghost now = self@;
            let ghost r = remap@;
            let child = remap[i].0;
            let new_child = remap[i].1;
            match other.parent_of(child) {
                Some(p) => {
                    let at = find_source(&remap, p);
                    proof {
                        assert(om.nodes.contains_key(p));
                        assert(sources(r).contains(p));
                        lemma_first_index(sources(r), p);
                        assert(sources(r)[at as int] == r[at as int].0);
                    }
                    let new_parent = remap[at].1;
                    proof {
                        assert(new_parent == copy_of(r, p));
                        assert(now.nodes.contains_key(new_child));
                        assert(now.nodes.contains_key(new_parent));
                        assert(!now.at_or_above(new_child, new_parent)) by {
                            if now.at_or_above(new_child, new_parent) {
                                let n = choose|n: nat| #[trigger]
                                    now.up(new_parent, n) == Some(new_child);
                                lemma_mirror(before, om, now, r, i as int, at as int, n);
                                let j = choose|j: int|
                                    0 <= j < r.len() && new_child == (#[trigger] r[j]).1 && om.up(
                                        r[at as int].0,
                                        n,
                                    ) == Some(r[j].0);
                                assert(r[j].1.serial == before.next + j);
                                assert(r[i as int].1.serial == before.next + i);
                                assert(j == i);
                                reveal_with_fuel(SceneModel::up, 2);
                                assert(om.up(child, 1) == Some(p));
                                lemma_up_add(om, child, p, 1, n);
                                no_object_above_itself(om, child, 1 + n);
                            }
                        }
                    }
                    self.reparent(new_child, Some(new_parent));
                    proof {
                        assert forall|j: int| 0 <= j < r.len() implies {
                            &&& !before.nodes.contains_key((#[trigger] r[j]).1)
                            &&& r[j].1.serial == before.next + j
                            &&& om.nodes.contains_key(r[j].0)
                            &&& self@.nodes[r[j].1].object == om.nodes[r[j].0].object
                            &&& self@.nodes[r[j].1].parent == (if j < i + 1 {
                                copied_parent(om, r, r[j].0)
                            } else {
                                None
                            })
                        } by {
                            if j != i {
                                assert(r[j].1.serial == before.next + j);
                                assert(r[j].1 != new_child);
                            }
                        }
                        assert(self@.nodes.dom() =~= now.nodes.dom());
                        assert forall|k: ObjectKey| #[trigger]
                            self@.nodes.contains_key(k) == now.nodes.contains_key(k) by {
                            assert(self@.nodes.dom().contains(k) == now.nodes.dom().contains(k));
                        }
                    }
                },
                None => {},
            }
            i += 1;
        }
        remap
    }
}

pub(crate) fn find_source(remap: &Vec<(ObjectKey, ObjectKey)>, k: ObjectKey) -> (i: usize)
    ensures
        i == first_index(sources(remap@), k),
        i <= remap@.len(),
{
    let mut i: usize = 0;
    while i < remap.len()
        invariant
            i <= remap@.len(),
            forall|j: int| 0 <= j < i ==> sources(remap@)[j] != k,
        decreases remap@.len() - i,
    {
        if remap[i].0 == k {
            proof {
                lemma_first_index_is(sources(remap@), k, i as int);
            }
            return i;
        }
        i += 1;
    }
    proof {
        lemma_first_index(sources(remap@), k);
    }
    i
}

} // verus!
