//! The scene: a forest of objects, each placed relative to its parent.
use crate::handle::Handle;
use crate::tree::{
    above, arena_add, arena_ancestors, arena_append, arena_descendants, arena_detach, arena_ids,
    arena_new, arena_nodes, arena_parent, arena_remove, arena_value, at_or_above, is_forest,
    lemma_above_live, lemma_forest_add, lemma_forest_append, lemma_forest_detach,
    lemma_forest_remove, without_subtree,
};
use indextree::Arena;
use std::collections::hash_map::Entry;
use std::collections::HashMap;
use vstd::prelude::*;

verus! {

broadcast use vstd::std_specs::hash::group_hash_axioms;

/// Names an object of a scene. The serial number tells the objects apart that used the same node
/// one after another.
#[derive(Clone, Copy, Debug, PartialEq, Eq, Structural, Hash)]
pub struct ObjectKey {
    pub index: usize,
    pub serial: u64,
}

/// What an object is.
#[derive(Clone, Copy, Debug)]
pub enum SceneObjectKind<L> {
    /// Only groups the objects below it.
    Empty,
    /// A mesh of the asset registry.
    Mesh(Handle),
    /// A light.
    Light(L),
}

/// An object: its placement relative to its parent, and what it is.
#[derive(Clone, Copy, Debug)]
pub struct SceneObject<T, L> {
    pub transform: T,
    pub kind: SceneObjectKind<L>,
}

impl<T, L> SceneObject<T, L> {
    /// An object that is not in any scene yet.
    pub fn new(kind: SceneObjectKind<L>, transform: T) -> (o: SceneObject<T, L>)
        ensures
            o.kind == kind,
            o.transform == transform,
    {
        SceneObject { transform, kind }
    }

    /// The mesh of the object, if it is one.
    pub fn mesh_handle(&self) -> (r: Option<Handle>)
        ensures
            r == (match self.kind {
                SceneObjectKind::Mesh(h) => Some(h),
                _ => None,
            }),
    {
        match &self.kind {
            SceneObjectKind::Mesh(h) => Some(*h),
            SceneObjectKind::Empty => None,
            SceneObjectKind::Light(_) => None,
        }
    }
}

/// An object and where it hangs.
pub struct SceneNode<T, L> {
    pub object: SceneObject<T, L>,
    pub parent: Option<ObjectKey>,
}

/// The contents of a scene.
#[verifier::ext_equal]
pub struct SceneModel<T, L> {
    pub nodes: Map<ObjectKey, SceneNode<T, L>>,
    /// Objects that were lights when they came, in that order.
    pub light_cache: Seq<ObjectKey>,
    /// Serial number of the next object.
    pub next: u64,
}

impl<T, L> SceneModel<T, L> {
    /// The object `n` steps above another.
    pub open spec fn up(self, k: ObjectKey, n: nat) -> Option<ObjectKey>
        decreases n,
    {
        if n == 0 {
            Some(k)
        } else {
            match self.up(k, (n - 1) as nat) {
                Some(j) => self.nodes[j].parent,
                None => None,
            }
        }
    }

    /// `a` is `k` or lies above it.
    pub open spec fn at_or_above(self, a: ObjectKey, k: ObjectKey) -> bool {
        exists|n: nat| #[trigger] self.up(k, n) == Some(a)
    }

    /// Parents are objects of the scene, the way up from any object ends at a root, and every
    /// object is older than the next.
    pub open spec fn well_rooted(self) -> bool {
        &&& forall|k: ObjectKey| #[trigger]
            self.nodes.contains_key(k) ==> k.serial < self.next && (self.nodes[k].parent matches Some(
                p,
            ) ==> self.nodes.contains_key(p))
        &&& forall|k: ObjectKey| #[trigger]
            self.nodes.contains_key(k) ==> exists|n: nat| #[trigger] self.up(k, n) is None
        &&& forall|k: ObjectKey, j: ObjectKey|
            self.nodes.contains_key(k) && self.nodes.contains_key(j) && k.index == j.index ==> k
                == j
        &&& forall|i: int|
            0 <= i < self.light_cache.len() ==> self.nodes.contains_key(
                #[trigger] self.light_cache[i],
            )
        &&& self.light_cache.no_duplicates()
    }

    /// With a new object.
    pub open spec fn with_node(
        self,
        k: ObjectKey,
        object: SceneObject<T, L>,
        parent: Option<ObjectKey>,
    ) -> SceneModel<T, L> {
        SceneModel {
            nodes: self.nodes.insert(k, SceneNode { object, parent }),
            light_cache: if object.kind is Light {
                self.light_cache.push(k)
            } else {
                self.light_cache
            },
            next: (self.next + 1) as u64,
        }
    }

    /// With an object hung elsewhere.
    pub open spec fn with_parent(
        self,
        k: ObjectKey,
        parent: Option<ObjectKey>,
    ) -> SceneModel<T, L> {
        SceneModel {
            nodes: self.nodes.insert(k, SceneNode { object: self.nodes[k].object, parent }),
            ..self
        }
    }

    /// With an object replaced.
    pub open spec fn with_object(
        self,
        k: ObjectKey,
        object: SceneObject<T, L>,
    ) -> SceneModel<T, L> {
        SceneModel {
            nodes: self.nodes.insert(k, SceneNode { object, parent: self.nodes[k].parent }),
            ..self
        }
    }

    /// Without an object and everything below it.
    pub open spec fn without_subtree(self, k: ObjectKey) -> SceneModel<T, L> {
        SceneModel {
            nodes: self.nodes.restrict(Set::new(|j: ObjectKey| !self.at_or_above(k, j))),
            light_cache: self.light_cache.filter(|j: ObjectKey| !self.at_or_above(k, j)),
            ..self
        }
    }

    /// The object can be hung below `parent`: both are there, and `parent` does not lie below it.
    pub open spec fn can_hang(self, k: ObjectKey, parent: Option<ObjectKey>) -> bool {
        self.nodes.contains_key(k) && (parent matches Some(p) ==> self.nodes.contains_key(p)
            && !self.at_or_above(k, p))
    }

    /// The keys are exactly those that pass, by ascending node.
    pub open spec fn lists(self, list: Seq<ObjectKey>, pass: spec_fn(ObjectKey) -> bool) -> bool {
        &&& forall|a: int, b: int|
            0 <= a < b < list.len() ==> (#[trigger] list[a]).index < (#[trigger] list[b]).index
        &&& forall|k: ObjectKey| #[trigger]
            list.contains(k) <==> self.nodes.contains_key(k) && pass(k)
    }
}

pub open spec fn key_of(nodes: Map<usize, (u64, Option<usize>)>, i: usize) -> ObjectKey {
    ObjectKey { index: i, serial: nodes[i].0 }
}

pub open spec fn key_live(nodes: Map<usize, (u64, Option<usize>)>, k: ObjectKey) -> bool {
    nodes.contains_key(k.index) && nodes[k.index].0 == k.serial
}

spec fn scene_nodes<T, L>(
    nodes: Map<usize, (u64, Option<usize>)>,
    objects: Map<u64, SceneObject<T, L>>,
) -> Map<ObjectKey, SceneNode<T, L>> {
    Map::new(
        |k: ObjectKey| key_live(nodes, k),
        |k: ObjectKey|
            SceneNode {
                object: objects[k.serial],
                parent: match nodes[k.index].1 {
                    Some(p) => Some(key_of(nodes, p)),
                    None => None,
                },
            },
    )
}

/// A forest of objects.
pub struct Scene<T, L> {
    tree: Arena<u64>,
    objects: HashMap<u64, SceneObject<T, L>>,
    light_nodes: Vec<ObjectKey>,
    next: u64,
}

impl<T, L> View for Scene<T, L> {
    type V = SceneModel<T, L>;

    closed spec fn view(&self) -> SceneModel<T, L> {
        SceneModel {
            nodes: scene_nodes(arena_nodes(self.tree), self.objects@),
            light_cache: self.light_nodes@,
            next: self.next,
        }
    }
}

proof fn lemma_up<T, L>(
    m: SceneModel<T, L>,
    nodes: Map<usize, (u64, Option<usize>)>,
    k: ObjectKey,
    n: nat,
)
    requires
        is_forest(nodes),
        key_live(nodes, k),
        forall|j: ObjectKey| #[trigger]
            key_live(nodes, j) ==> m.nodes[j].parent == match nodes[j.index].1 {
                Some(p) => Some(key_of(nodes, p)),
                None => None,
            },
    ensures
        m.up(k, n) == (match above(nodes, k.index, n) {
            Some(j) => Some(key_of(nodes, j)),
            None => None,
        }),
    decreases n,
{
    if n > 0 {
        lemma_up(m, nodes, k, (n - 1) as nat);
        lemma_above_live(nodes, k.index, (n - 1) as nat);
        if let Some(j) = above(nodes, k.index, (n - 1) as nat) {
            assert(key_live(nodes, key_of(nodes, j)));
        }
    }
}

impl<T: Copy, L: Copy> Scene<T, L> {
    /// Tree and objects fit together.
    pub closed spec fn wf(&self) -> bool {
        let nodes = arena_nodes(self.tree);
        &&& is_forest(nodes)
        &&& forall|i: usize| #[trigger]
            nodes.contains_key(i) ==> nodes[i].0 < self.next && self.objects@.contains_key(
                nodes[i].0,
            )
        &&& forall|i: usize, j: usize|
            nodes.contains_key(i) && nodes.contains_key(j) && (#[trigger] nodes[i]).0 == (
            #[trigger] nodes[j]).0 ==> i == j
        &&& forall|s: u64| #[trigger]
            self.objects@.contains_key(s) ==> exists|i: usize| #[trigger]
                nodes.contains_key(i) && nodes[i].0 == s
        &&& forall|i: int|
            0 <= i < self.light_nodes@.len() ==> key_live(nodes, #[trigger] self.light_nodes@[i])
        &&& self.light_nodes@.no_duplicates()
    }

    proof fn lemma_at_or_above(&self, a: ObjectKey, k: ObjectKey)
        requires
            self.wf(),
            key_live(arena_nodes(self.tree), k),
            key_live(arena_nodes(self.tree), a),
        ensures
            self@.at_or_above(a, k) <==> at_or_above(arena_nodes(self.tree), a.index, k.index),
    {
        let nodes = arena_nodes(self.tree);
        if self@.at_or_above(a, k) {
            let n = choose|n: nat| #[trigger] self@.up(k, n) == Some(a);
            lemma_up(self@, nodes, k, n);
            assert(above(nodes, k.index, n) == Some(a.index));
        }
        if at_or_above(nodes, a.index, k.index) {
            let n = choose|n: nat| #[trigger] above(nodes, k.index, n) == Some(a.index);
            lemma_up(self@, nodes, k, n);
            assert(self@.up(k, n) == Some(a));
        }
    }

    /// The contents of a scene are a forest.
    pub proof fn contents_are_well_rooted(&self)
        requires
            self.wf(),
        ensures
            self@.well_rooted(),
    {
        let nodes = arena_nodes(self.tree);
        let m = self@;
        assert forall|k: ObjectKey| #[trigger] m.nodes.contains_key(k) implies k.serial < m.next
            && (m.nodes[k].parent matches Some(p) ==> m.nodes.contains_key(p)) by {
            if let Some(p) = nodes[k.index].1 {
                assert(nodes.contains_key(p));
            }
        }
        assert forall|k: ObjectKey| #[trigger] m.nodes.contains_key(k) implies exists|n: nat|
         #[trigger] m.up(k, n) is None by {
            let n = choose|n: nat| #[trigger] above(nodes, k.index, n) is None;
            lemma_up(m, nodes, k, n);
            assert(m.up(k, n) is None);
        }
    }

    /// The serial number tells the objects of a scene apart.
    pub proof fn serials_are_unique(&self)
        requires
            self.wf(),
        ensures
            forall|a: ObjectKey, b: ObjectKey| #[trigger]
                self@.nodes.contains_key(a) && #[trigger] self@.nodes.contains_key(b) && a.serial
                    == b.serial ==> a == b,
    {
        let nodes = arena_nodes(self.tree);
        assert forall|a: ObjectKey, b: ObjectKey| #[trigger]
            self@.nodes.contains_key(a) && #[trigger] self@.nodes.contains_key(b) && a.serial
                == b.serial implies a == b by {
            assert(nodes[a.index].0 == nodes[b.index].0);
        }
    }

    /// An empty scene.
    pub fn new() -> (s: Scene<T, L>)
        ensures
            s.wf(),
            s@.nodes =~= Map::empty(),
            s@.light_cache =~= Seq::empty(),
            s@.next == 0,
    {
        Scene { tree: arena_new(), objects: HashMap::new(), light_nodes: Vec::new(), next: 0 }
    }

    /// How many objects can still be added.
    pub fn room(&self) -> (n: u64)
        ensures
            n == u64::MAX - self@.next,
    {
        u64::MAX - self.next
    }

    /// Whether the key names an object of the scene.
    pub fn contains(&self, key: ObjectKey) -> (b: bool)
        ensures
            b == self@.nodes.contains_key(key),
    {
        match arena_value(&self.tree, key.index) {
            Some(serial) => serial == key.serial,
            None => false,
        }
    }

    /// Adds an object without a parent.
    pub fn add_object(&mut self, object: SceneObject<T, L>) -> (key: ObjectKey)
        requires
            old(self).wf(),
            old(self)@.next < u64::MAX,
        ensures
            final(self).wf(),
            key.serial == old(self)@.next,
            !old(self)@.nodes.contains_key(key),
            final(self)@ == old(self)@.with_node(key, object, None),
    {
        let ghost before = self@;
        let ghost nodes0 = arena_nodes(self.tree);
        let ghost objects0 = self.objects@;
        let ghost lights0 = self.light_nodes@;
        let serial = self.next;
        let index = arena_add(&mut self.tree, serial);
        self.objects.insert(serial, object);
        self.next = self.next + 1;
        let key = ObjectKey { index, serial };
        match object.kind {
            SceneObjectKind::Light(_) => {
                self.light_nodes.push(key);
            },
            _ => {},
        }
        proof {
            let nodes = arena_nodes(self.tree);
            lemma_forest_add(nodes0, index, serial);
            assert forall|i: usize, j: usize|
                nodes.contains_key(i) && nodes.contains_key(j) && (#[trigger] nodes[i]).0 == (
                #[trigger] nodes[j]).0 implies i == j by {
                if i != index {
                    assert(nodes0.contains_key(i));
                }
                if j != index {
                    assert(nodes0.contains_key(j));
                }
            }
            assert forall|i: usize| #[trigger] nodes.contains_key(i) implies nodes[i].0 < self.next
                && self.objects@.contains_key(nodes[i].0) by {
                if i != index {
                    assert(nodes0.contains_key(i));
                }
            }
            assert forall|s: u64| #[trigger] self.objects@.contains_key(s) implies exists|i: usize|
             #[trigger] nodes.contains_key(i) && nodes[i].0 == s by {
                if s == serial {
                    assert(nodes.contains_key(index));
                } else {
                    assert(objects0.contains_key(s));
                    let i = choose|i: usize| #[trigger] nodes0.contains_key(i) && nodes0[i].0 == s;
                    assert(nodes.contains_key(i));
                }
            }
            assert forall|i: int| 0 <= i < self.light_nodes@.len() implies key_live(
                nodes,
                #[trigger] self.light_nodes@[i],
            ) by {
                if i < lights0.len() {
                    assert(key_live(nodes0, lights0[i]));
                }
            }
            assert forall|a: int, b: int|
                0 <= a < self.light_nodes@.len() && 0 <= b < self.light_nodes@.len() && a
                    != b implies self.light_nodes@[a] != self.light_nodes@[b] by {
                if a < lights0.len() {
                    assert(key_live(nodes0, lights0[a]));
                }
                if b < lights0.len() {
                    assert(key_live(nodes0, lights0[b]));
                }
            }
            let after = before.with_node(key, object, None);
            assert(self@.nodes =~= after.nodes) by {
                assert forall|k: ObjectKey| key_live(nodes, k) <==> (key_live(nodes0, k) || k
                    == key) by {}
                assert forall|k: ObjectKey| key_live(nodes0, k) implies #[trigger] self@.nodes[k]
                    == before.nodes[k] by {
                    assert(nodes0.contains_key(k.index));
                    if let Some(p) = nodes0[k.index].1 {
                        assert(nodes0.contains_key(p));
                    }
                }
            }
            assert(self@ =~= after);
        }
        key
    }

    /// Adds an object below another; `None` where that is not in the scene.
    pub fn attach(&mut self, parent: ObjectKey, object: SceneObject<T, L>) -> (r: Option<
        ObjectKey,
    >)
        requires
            old(self).wf(),
            old(self)@.next < u64::MAX,
        ensures
            final(self).wf(),
            r is Some <==> old(self)@.nodes.contains_key(parent),
            match r {
                Some(key) => key.serial == old(self)@.next && !old(self)@.nodes.contains_key(key)
                    && final(self)@ == old(self)@.with_node(key, object, Some(parent)),
                None => final(self)@ == old(self)@,
            },
    {
        if !self.contains(parent) {
            return None;
        }
        let ghost before = self@;
        let key = self.add_object(object);
        proof {
            let m = self@;
            assert forall|n: nat| m.up(parent, n) != Some(key) by {
                lemma_new_not_above(before, m, key, parent, n);
            }
        }
        self.hang(key, parent);
        proof {
            assert(self@ =~= before.with_node(key, object, Some(parent)));
        }
        Some(key)
    }

    /// Hangs an object below another that does not lie below it.
    fn hang(&mut self, key: ObjectKey, parent: ObjectKey)
        requires
            old(self).wf(),
            old(self)@.can_hang(key, Some(parent)),
        ensures
            final(self).wf(),
            final(self)@ == old(self)@.with_parent(key, Some(parent)),
    {
        let ghost before = self@;
        let ghost nodes0 = arena_nodes(self.tree);
        proof {
            self.lemma_at_or_above(key, parent);
            lemma_forest_append(nodes0, parent.index, key.index);
        }
        arena_append(&mut self.tree, parent.index, key.index);
        proof {
            self.lemma_relinked(before, nodes0, key, Some(parent));
        }
    }

    /// What changing one link does to the contents.
    proof fn lemma_relinked(
        &self,
        before: SceneModel<T, L>,
        nodes0: Map<usize, (u64, Option<usize>)>,
        key: ObjectKey,
        parent: Option<ObjectKey>,
    )
        requires
            is_forest(nodes0),
            is_forest(arena_nodes(self.tree)),
            key_live(nodes0, key),
            parent matches Some(p) ==> key_live(nodes0, p),
            arena_nodes(self.tree) == nodes0.insert(
                key.index,
                (
                    nodes0[key.index].0,
                    match parent {
                        Some(p) => Some(p.index),
                        None => None,
                    },
                ),
            ),
            before == (SceneModel {
                nodes: scene_nodes(nodes0, self.objects@),
                light_cache: self.light_nodes@,
                next: self.next,
            }),
            forall|i: usize| #[trigger]
                nodes0.contains_key(i) ==> nodes0[i].0 < self.next && self.objects@.contains_key(
                    nodes0[i].0,
                ),
            forall|i: usize, j: usize|
                nodes0.contains_key(i) && nodes0.contains_key(j) && (#[trigger] nodes0[i]).0 == (
                #[trigger] nodes0[j]).0 ==> i == j,
            forall|s: u64| #[trigger]
                self.objects@.contains_key(s) ==> exists|i: usize| #[trigger]
                    nodes0.contains_key(i) && nodes0[i].0 == s,
            forall|i: int|
                0 <= i < self.light_nodes@.len() ==> key_live(
                    nodes0,
                    #[trigger] self.light_nodes@[i],
                ),
            self.light_nodes@.no_duplicates(),
        ensures
            self.wf(),
            self@ == before.with_parent(key, parent),
    {
        let nodes = arena_nodes(self.tree);
        assert forall|i: usize| #[trigger] nodes.contains_key(i) implies nodes[i].0 < self.next
            && self.objects@.contains_key(nodes[i].0) && nodes0.contains_key(i) && nodes0[i].0
            == nodes[i].0 by {
            assert(nodes0.contains_key(i));
        }
        assert forall|s: u64| #[trigger] self.objects@.contains_key(s) implies exists|i: usize|
         #[trigger] nodes.contains_key(i) && nodes[i].0 == s by {
            let i = choose|i: usize| #[trigger] nodes0.contains_key(i) && nodes0[i].0 == s;
            assert(nodes.contains_key(i));
        }
        assert forall|i: int| 0 <= i < self.light_nodes@.len() implies key_live(
            nodes,
            #[trigger] self.light_nodes@[i],
        ) by {
            assert(key_live(nodes0, self.light_nodes@[i]));
        }
        let after = before.with_parent(key, parent);
        assert(self@.nodes =~= after.nodes) by {
            assert forall|k: ObjectKey| key_live(nodes, k) <==> key_live(nodes0, k) by {}
            assert forall|k: ObjectKey| key_live(nodes0, k) implies #[trigger] self@.nodes[k]
                == after.nodes[k] by {
                assert(nodes0.contains_key(k.index));
                if let Some(p) = nodes0[k.index].1 {
                    assert(nodes0.contains_key(p));
                }
            }
        }
        assert(self@ =~= after);
    }

    /// Hangs an object below another, or makes it a root. Refuses, with nothing changed, where
    /// one of the two is not in the scene or the new parent is the object itself or lies below.
    pub fn reparent(&mut self, key: ObjectKey, new_parent: Option<ObjectKey>) -> (done: bool)
        requires
            old(self).wf(),
        ensures
            final(self).wf(),
            done == old(self)@.can_hang(key, new_parent),
            final(self)@ == (if done {
                old(self)@.with_parent(key, new_parent)
            } else {
                old(self)@
            }),
    {
        if !self.contains(key) {
            return false;
        }
        let ghost before = self@;
        let ghost nodes0 = arena_nodes(self.tree);
        match new_parent {
            None => {
                proof {
                    lemma_forest_detach(nodes0, key.index);
                }
                arena_detach(&mut self.tree, key.index);
                proof {
                    self.lemma_relinked(before, nodes0, key, None);
                }
                true
            },
            Some(parent) => {
                if !self.contains(parent) {
                    return false;
                }
                let path = arena_ancestors(&self.tree, parent.index);
                let mut i: usize = 0;
                while i < path.len()
                    invariant
                        i <= path@.len(),
                        *self == *old(self),
                        self.wf(),
                        before == self@,
                        nodes0 == arena_nodes(self.tree),
                        key_live(nodes0, key),
                        key_live(nodes0, parent),
                        crate::tree::is_path_up(nodes0, parent.index, path@),
                        forall|k: int| 0 <= k < i ==> path@[k] != key.index,
                        new_parent == Some(parent),
                    decreases path@.len() - i,
                {
                    if path[i] == key.index {
                        proof {
                            assert(above(nodes0, parent.index, i as nat) == Some(path@[i as int]));
                            assert(at_or_above(nodes0, key.index, parent.index));
                            self.lemma_at_or_above(key, parent);
                        }
                        return false;
                    }
                    i += 1;
                }
                proof {
                    assert(!at_or_above(nodes0, key.index, parent.index)) by {
                        if at_or_above(nodes0, key.index, parent.index) {
                            let n = choose|n: nat| #[trigger]
                                above(nodes0, parent.index, n) == Some(key.index);
                            if n < path@.len() {
                                assert(above(nodes0, parent.index, n) == Some(path@[n as int]));
                            } else {
                                crate::tree::lemma_above_none(
                                    nodes0,
                                    parent.index,
                                    path@.len(),
                                    n,
                                );
                            }
                        }
                    }
                    self.lemma_at_or_above(key, parent);
                }
                self.hang(key, parent);
                true
            },
        }
    }
}

proof fn lemma_new_not_above<T, L>(
    before: SceneModel<T, L>,
    after: SceneModel<T, L>,
    key: ObjectKey,
    k: ObjectKey,
    n: nat,
)
    requires
        !before.nodes.contains_key(key),
        before.nodes.contains_key(k),
        after.nodes.contains_key(key),
        forall|j: ObjectKey| #[trigger]
            before.nodes.contains_key(j) ==> after.nodes[j].parent == before.nodes[j].parent && (
            before.nodes[j].parent matches Some(p) ==> before.nodes.contains_key(p)),
    ensures
        after.up(k, n) != Some(key),
        after.up(k, n) == before.up(k, n),
        after.up(k, n) matches Some(j) ==> before.nodes.contains_key(j),
    decreases n,
{
    if n > 0 {
        lemma_new_not_above(before, after, key, k, (n - 1) as nat);
    }
}

/// Everything.
pub open spec fn any_object() -> spec_fn(ObjectKey) -> bool {
    |k: ObjectKey| true
}

/// The objects that hang below `parent`, or the roots where it is `None`.
pub open spec fn hangs_below<T, L>(
    m: SceneModel<T, L>,
    parent: Option<ObjectKey>,
) -> spec_fn(ObjectKey) -> bool {
    |k: ObjectKey| m.nodes[k].parent == parent
}

/// The object is a light.
pub open spec fn is_light<T, L>(m: SceneModel<T, L>) -> spec_fn(ObjectKey) -> bool {
    |k: ObjectKey| m.nodes[k].object.kind is Light
}

/// `t` is the placement of the object `n` steps above `k`.
pub open spec fn placed_above<T, L>(m: SceneModel<T, L>, k: ObjectKey, n: nat, t: T) -> bool {
    match m.up(k, n) {
        Some(a) => m.nodes[a].object.transform == t,
        None => false,
    }
}

/// The placements from the root down to an object.
pub open spec fn placements<T, L>(m: SceneModel<T, L>, k: ObjectKey, chain: Seq<T>) -> bool {
    &&& m.up(k, chain.len()) is None
    &&& forall|i: int|
        0 <= i < chain.len() ==> placed_above(
            m,
            k,
            (chain.len() - 1 - i) as nat,
            #[trigger] chain[i],
        )
}

/// The results of folding a list with a function, one after another.
pub open spec fn folds<M, T, F: Fn(M, T) -> M>(apply: F, list: Seq<T>, steps: Seq<M>) -> bool {
    &&& steps.len() == list.len() + 1
    &&& forall|i: int|
        0 <= i < list.len() ==> call_ensures(apply, (steps[i], #[trigger] list[i]), steps[i + 1])
}

impl<T: Copy, L: Copy> Scene<T, L> {
    /// Removes an object and everything below it; gives the object back.
    pub fn remove_object(&mut self, key: ObjectKey) -> (r: Option<SceneObject<T, L>>)
        requires
            old(self).wf(),
        ensures
            final(self).wf(),
            match r {
                Some(o) => old(self)@.nodes.contains_key(key) && old(self)@.nodes[key].object == o
                    && final(self)@ == old(self)@.without_subtree(key),
                None => !old(self)@.nodes.contains_key(key) && final(self)@ == old(self)@,
            },
    {
        if !self.contains(key) {
            return None;
        }
        let ghost before = self@;
        let ghost nodes0 = arena_nodes(self.tree);
        let ghost objects0 = self.objects@;
        let removed = match self.objects.get(&key.serial) {
            Some(o) => *o,
            None => {
                proof {
                    assert(nodes0.contains_key(key.index));
                }
                return None;
            },
        };
        let subtree = arena_descendants(&self.tree, key.index);
        let ghost keep = |j: ObjectKey| !before.at_or_above(key, j);
        // The lights of the subtree leave the cache.
        let mut lights: Vec<ObjectKey> = Vec::new();
        let mut i: usize = 0;
        proof {
            reveal(Seq::filter);
            assert(self.light_nodes@.take(0) =~= Seq::<ObjectKey>::empty());
        }
        while i < self.light_nodes.len()
            invariant
                *self == *old(self),
                self.wf(),
                before == self@,
                nodes0 == arena_nodes(self.tree),
                key_live(nodes0, key),
                i <= self.light_nodes@.len(),
                crate::tree::lists_subtree(nodes0, key.index, subtree@),
                keep == (|j: ObjectKey| !before.at_or_above(key, j)),
                lights@ == self.light_nodes@.take(i as int).filter(keep),
            decreases self.light_nodes@.len() - i,
        {
            let k = self.light_nodes[i];
            let hit = contains_index(&subtree, k.index);
            proof {
                reveal(Seq::filter);
                assert(self.light_nodes@.take(i as int + 1).drop_last()
                    =~= self.light_nodes@.take(i as int));
                assert(key_live(nodes0, self.light_nodes@[i as int]));
                self.lemma_at_or_above(key, k);
                assert(subtree@.contains(k.index) <==> at_or_above(nodes0, key.index, k.index));
            }
            if !hit {
                lights.push(k);
            }
            i += 1;
        }
        proof {
            assert(self.light_nodes@.take(i as int) =~= self.light_nodes@);
        }
        // So do the objects.
        let mut i: usize = 0;
        while i < subtree.len()
            invariant
                i <= subtree@.len(),
                self.tree == old(self).tree,
                self.light_nodes == old(self).light_nodes,
                self.next == old(self).next,
                nodes0 == arena_nodes(self.tree),
                crate::tree::lists_subtree(nodes0, key.index, subtree@),
                objects0 == old(self).objects@,
                forall|s: u64| #[trigger]
                    self.objects@.contains_key(s) <==> objects0.contains_key(s) && forall|m: int|
                        0 <= m < i ==> (#[trigger] nodes0[subtree@[m]]).0 != s,
                forall|s: u64| #[trigger]
                    self.objects@.contains_key(s) ==> self.objects@[s] == objects0[s],
            decreases subtree@.len() - i,
        {
            proof {
                assert(subtree@.contains(subtree@[i as int]));
            }
            let ghost objects1 = self.objects@;
            if let Some(s) = arena_value(&self.tree, subtree[i]) {
                self.objects.remove(&s);
            }
            proof {
                assert forall|s: u64| #[trigger]
                    self.objects@.contains_key(s) <==> objects0.contains_key(s) && forall|m: int|
                        0 <= m < i + 1 ==> (#[trigger] nodes0[subtree@[m]]).0 != s by {
                    assert(objects1.contains_key(s) <==> objects0.contains_key(s) && forall|m: int|
                        0 <= m < i ==> (#[trigger] nodes0[subtree@[m]]).0 != s);
                    if self.objects@.contains_key(s) {
                        assert(objects1.contains_key(s));
                        assert forall|m: int| 0 <= m < i + 1 implies (
                        #[trigger] nodes0[subtree@[m]]).0 != s by {
                            if m == i {
                            }
                        }
                    }
                    if objects0.contains_key(s) && (forall|m: int|
                        0 <= m < i + 1 ==> (#[trigger] nodes0[subtree@[m]]).0 != s) {
                        assert(nodes0[subtree@[i as int]].0 != s);
                    }
                }
            }
            i += 1;
        }
        let ghost old_lights = self.light_nodes@;
        self.light_nodes = lights;
        proof {
            lemma_forest_remove(nodes0, key.index);
        }
        arena_remove(&mut self.tree, key.index);
        proof {
            let nodes = arena_nodes(self.tree);
            crate::lists::lemma_filter_contains(old_lights, keep);
            crate::lists::lemma_filter_distinct(old_lights, keep);
            assert forall|j: usize| #[trigger]
                nodes.contains_key(j) <==> nodes0.contains_key(j) && !at_or_above(
                    nodes0,
                    key.index,
                    j,
                ) by {}
            assert forall|j: usize| #[trigger] nodes.contains_key(j) implies nodes[j].0 < self.next
                && self.objects@.contains_key(nodes[j].0) by {
                assert(nodes0.contains_key(j));
                let s = nodes0[j].0;
                assert forall|m: int| 0 <= m < subtree@.len() implies (
                #[trigger] nodes0[subtree@[m]]).0 != s by {
                    assert(subtree@.contains(subtree@[m]));
                    if nodes0[subtree@[m]].0 == s {
                        assert(subtree@[m] == j);
                    }
                }
                assert(objects0.contains_key(s));
                assert(self.objects@.contains_key(s));
            }
            assert forall|s: u64| #[trigger] self.objects@.contains_key(s) implies exists|j: usize|
             #[trigger] nodes.contains_key(j) && nodes[j].0 == s by {
                assert(objects0.contains_key(s));
                let j = choose|j: usize| #[trigger] nodes0.contains_key(j) && nodes0[j].0 == s;
                if at_or_above(nodes0, key.index, j) {
                    assert(subtree@.contains(j));
                    let m = choose|m: int| 0 <= m < subtree@.len() && subtree@[m] == j;
                    assert(nodes0[subtree@[m]].0 == s);
                    assert(false);
                }
                assert(nodes.contains_key(j));
            }
            assert forall|k: ObjectKey| key_live(nodes0, k) implies (before.at_or_above(key, k)
                <==> at_or_above(nodes0, key.index, k.index)) by {
                old(self).lemma_at_or_above(key, k);
            }
            assert forall|i: int| 0 <= i < self.light_nodes@.len() implies key_live(
                nodes,
                #[trigger] self.light_nodes@[i],
            ) by {
                let k = self.light_nodes@[i];
                assert(self.light_nodes@.contains(k));
                let j = choose|j: int| 0 <= j < old_lights.len() && old_lights[j] == k;
                assert(key_live(nodes0, old_lights[j]));
            }
            let after = before.without_subtree(key);
            assert(self@.nodes =~= after.nodes) by {
                assert forall|k: ObjectKey|
                    key_live(nodes, k) <==> (key_live(nodes0, k) && !before.at_or_above(
                        key,
                        k,
                    )) by {
                    if key_live(nodes0, k) {
                        assert(nodes0.contains_key(k.index));
                    }
                }
                assert forall|k: ObjectKey| key_live(nodes, k) implies #[trigger] self@.nodes[k]
                    == before.nodes[k] by {
                    assert(nodes.contains_key(k.index));
                    assert(self.objects@.contains_key(nodes[k.index].0));
                    if let Some(p) = nodes[k.index].1 {
                        assert(nodes.contains_key(p));
                    }
                }
            }
            assert(self@ =~= after);
        }
        Some(removed)
    }

    /// The object of a key.
    pub fn object(&self, key: ObjectKey) -> (r: Option<&SceneObject<T, L>>)
        requires
            self.wf(),
        ensures
            match r {
                Some(o) => self@.nodes.contains_key(key) && self@.nodes[key].object == *o,
                None => !self@.nodes.contains_key(key),
            },
    {
        if self.contains(key) {
            proof {
                assert(arena_nodes(self.tree).contains_key(key.index));
            }
            self.objects.get(&key.serial)
        } else {
            None
        }
    }

    /// The object above an object.
    pub fn parent_of(&self, key: ObjectKey) -> (r: Option<ObjectKey>)
        requires
            self.wf(),
        ensures
            r == (if self@.nodes.contains_key(key) {
                self@.nodes[key].parent
            } else {
                None
            }),
    {
        if !self.contains(key) {
            return None;
        }
        match arena_parent(&self.tree, key.index) {
            None => None,
            Some(p) => {
                proof {
                    assert(arena_nodes(self.tree).contains_key(key.index));
                    assert(arena_nodes(self.tree).contains_key(p));
                }
                match arena_value(&self.tree, p) {
                    Some(serial) => Some(ObjectKey { index: p, serial }),
                    None => None,
                }
            },
        }
    }

    /// Replaces the object of a key.
    pub fn set_object(&mut self, key: ObjectKey, object: SceneObject<T, L>) -> (done: bool)
        requires
            old(self).wf(),
        ensures
            final(self).wf(),
            done == old(self)@.nodes.contains_key(key),
            final(self)@ == (if done {
                old(self)@.with_object(key, object)
            } else {
                old(self)@
            }),
    {
        if !self.contains(key) {
            return false;
        }
        let ghost before = self@;
        let ghost objects0 = self.objects@;
        let ghost nodes = arena_nodes(self.tree);
        self.objects.insert(key.serial, object);
        proof {
            assert(nodes.contains_key(key.index));
            assert forall|i: usize| #[trigger] nodes.contains_key(i) implies nodes[i].0 < self.next
                && self.objects@.contains_key(nodes[i].0) by {
                assert(objects0.contains_key(nodes[i].0));
            }
            assert forall|s: u64| #[trigger] self.objects@.contains_key(s) implies exists|i: usize|
             #[trigger] nodes.contains_key(i) && nodes[i].0 == s by {
                if s == key.serial {
                    assert(nodes.contains_key(key.index));
                } else {
                    assert(objects0.contains_key(s));
                }
            }
            assert(self@.nodes =~= before.with_object(key, object).nodes) by {
                assert forall|k: ObjectKey| key_live(nodes, k) && k.serial
                    == key.serial implies k == key by {
                    assert(nodes.contains_key(k.index) && nodes.contains_key(key.index));
                    assert(nodes[k.index].0 == nodes[key.index].0);
                }
            }
            assert(self@ =~= before.with_object(key, object));
        }
        true
    }

    /// The object of a key, to be changed.
    pub fn object_mut(&mut self, key: ObjectKey) -> (r: Option<&mut SceneObject<T, L>>)
        requires
            old(self).wf(),
        ensures
            final(self).wf(),
            match r {
                Some(o) => old(self)@.nodes.contains_key(key) && *o == old(self)@.nodes[key].object
                    && final(self)@ == old(self)@.with_object(key, *final(o)),
                None => !old(self)@.nodes.contains_key(key) && final(self)@ == old(self)@,
            },
    {
        if !self.contains(key) {
            return None;
        }
        proof {
            let nodes = arena_nodes(self.tree);
            assert(nodes.contains_key(key.index));
            assert(self.objects@.contains_key(key.serial));
            assert forall|k: ObjectKey| key_live(nodes, k) && k.serial == key.serial implies k
                == key by {
                assert(nodes.contains_key(k.index) && nodes.contains_key(key.index));
                assert(nodes[k.index].0 == nodes[key.index].0);
            }
            assert forall|o: SceneObject<T, L>| scene_nodes(
                nodes,
                #[trigger] self.objects@.insert(key.serial, o),
            ) == self@.with_object(key, o).nodes by {
                assert(scene_nodes(nodes, self.objects@.insert(key.serial, o)) =~= self@.with_object(
                    key,
                    o,
                ).nodes);
            }
        }
        match self.objects.entry(key.serial) {
            Entry::Occupied(entry) => Some(entry.into_mut()),
            Entry::Vacant(_) => None,
        }
    }

    /// Number of objects.
    pub fn object_count(&self) -> (n: usize)
        requires
            self.wf(),
        ensures
            n == self@.nodes.dom().len(),
            self@.nodes.dom().finite(),
    {
        let list = self.objects();
        proof {
            assert(list@.no_duplicates()) by {
                assert forall|a: int, b: int|
                    0 <= a < list@.len() && 0 <= b < list@.len() && a != b implies list@[a]
                    != list@[b] by {
                    if a < b {
                        assert(list@[a].index < list@[b].index);
                    } else {
                        assert(list@[b].index < list@[a].index);
                    }
                }
            }
            list@.unique_seq_to_set();
            assert(list@.to_set() =~= self@.nodes.dom()) by {
                assert forall|k: ObjectKey|
                    list@.to_set().contains(k) == self@.nodes.dom().contains(k) by {
                    assert(list@.contains(k) <==> self@.nodes.contains_key(k) && any_object()(k));
                }
            }
        }
        list.len()
    }

    /// All objects, by ascending node.
    pub fn objects(&self) -> (list: Vec<ObjectKey>)
        requires
            self.wf(),
        ensures
            self@.lists(list@, any_object()),
    {
        let ids = arena_ids(&self.tree);
        let ghost nodes = arena_nodes(self.tree);
        let mut list: Vec<ObjectKey> = Vec::new();
        let mut i: usize = 0;
        while i < ids.len()
            invariant
                nodes == arena_nodes(self.tree),
                i <= ids@.len(),
                list@.len() == i,
                crate::tree::lists_all(nodes, ids@),
                forall|a: int| 0 <= a < i ==> #[trigger] list@[a] == key_of(nodes, ids@[a]),
            decreases ids@.len() - i,
        {
            proof {
                assert(ids@.contains(ids@[i as int]));
            }
            match arena_value(&self.tree, ids[i]) {
                Some(serial) => {
                    list.push(ObjectKey { index: ids[i], serial });
                },
                None => {},
            }
            i += 1;
        }
        proof {
            let m = self@;
            assert forall|a: int, b: int| 0 <= a < b < list@.len() implies (
            #[trigger] list@[a]).index < (#[trigger] list@[b]).index by {
                assert(ids@[a] < ids@[b]);
            }
            assert forall|k: ObjectKey| #[trigger]
                list@.contains(k) <==> m.nodes.contains_key(k) && any_object()(k) by {
                if list@.contains(k) {
                    let a = choose|a: int| 0 <= a < list@.len() && list@[a] == k;
                    assert(ids@.contains(ids@[a]));
                }
                if m.nodes.contains_key(k) {
                    assert(ids@.contains(k.index));
                    let a = choose|a: int| 0 <= a < ids@.len() && ids@[a] == k.index;
                    assert(list@[a] == k);
                }
            }
        }
        list
    }

    /// The objects that hang below a parent, or the roots, by ascending node.
    fn below(&self, parent: Option<ObjectKey>) -> (list: Vec<ObjectKey>)
        requires
            self.wf(),
        ensures
            self@.lists(list@, hangs_below(self@, parent)),
    {
        let all = self.objects();
        let ghost nodes = arena_nodes(self.tree);
        let ghost m = self@;
        let mut list: Vec<ObjectKey> = Vec::new();
        let mut i: usize = 0;
        while i < all.len()
            invariant
                self.wf(),
                m == self@,
                nodes == arena_nodes(self.tree),
                i <= all@.len(),
                m.lists(all@, any_object()),
                forall|a: int, b: int|
                    0 <= a < b < list@.len() ==> (#[trigger] list@[a]).index < (
                    #[trigger] list@[b]).index,
                forall|a: int|
                    0 <= a < list@.len() ==> m.nodes.contains_key(#[trigger] list@[a])
                        && m.nodes[list@[a]].parent == parent,
                forall|a: int, b: int|
                    0 <= a < list@.len() && i <= b < all@.len() ==> (#[trigger] list@[a]).index < (
                    #[trigger] all@[b]).index,
                forall|b: int|
                    0 <= b < i && m.nodes[#[trigger] all@[b]].parent == parent ==> list@.contains(
                        all@[b],
                    ),
            decreases all@.len() - i,
        {
            let k = all[i];
            proof {
                assert(all@.contains(all@[i as int]));
                assert(m.nodes.contains_key(k));
                assert(nodes.contains_key(k.index));
            }
            let hit = match arena_parent(&self.tree, k.index) {
                None => parent.is_none(),
                Some(p) => {
                    proof {
                        assert(nodes.contains_key(p));
                    }
                    match (parent, arena_value(&self.tree, p)) {
                        (Some(q), Some(serial)) => q.index == p && q.serial == serial,
                        _ => false,
                    }
                },
            };
            let ghost done = list@;
            if hit {
                list.push(k);
                proof {
                    assert forall|b: int|
                        0 <= b < i + 1 && m.nodes[#[trigger] all@[b]].parent
                            == parent implies list@.contains(all@[b]) by {
                        if b < i {
                            assert(done.contains(all@[b]));
                            let a = choose|a: int| 0 <= a < done.len() && done[a] == all@[b];
                            assert(list@[a] == all@[b]);
                        } else {
                            assert(list@[done.len() as int] == all@[b]);
                        }
                    }
                }
            }
            i += 1;
        }
        proof {
            let pass = hangs_below(m, parent);
            assert forall|k: ObjectKey| #[trigger]
                list@.contains(k) <==> m.nodes.contains_key(k) && pass(k) by {
                if list@.contains(k) {
                    let a = choose|a: int| 0 <= a < list@.len() && list@[a] == k;
                }
                if m.nodes.contains_key(k) && pass(k) {
                    assert(all@.contains(k));
                    let b = choose|b: int| 0 <= b < all@.len() && all@[b] == k;
                }
            }
        }
        list
    }

    /// The objects without a parent, by ascending node.
    pub fn roots(&self) -> (list: Vec<ObjectKey>)
        requires
            self.wf(),
        ensures
            self@.lists(list@, hangs_below(self@, None)),
    {
        self.below(None)
    }

    /// The objects directly below another, by ascending node.
    pub fn children_of(&self, key: ObjectKey) -> (list: Vec<ObjectKey>)
        requires
            self.wf(),
        ensures
            self@.lists(list@, hangs_below(self@, Some(key))),
    {
        self.below(Some(key))
    }

    /// The lights, in the order in which they came.
    pub fn lights(&self) -> (list: Vec<ObjectKey>)
        requires
            self.wf(),
        ensures
            list@ == self@.light_cache.filter(is_light(self@)),
    {
        let mut list: Vec<ObjectKey> = Vec::new();
        let mut i: usize = 0;
        let ghost m = self@;
        proof {
            reveal(Seq::filter);
            assert(self.light_nodes@.take(0) =~= Seq::<ObjectKey>::empty());
        }
        while i < self.light_nodes.len()
            invariant
                self.wf(),
                m == self@,
                i <= self.light_nodes@.len(),
                list@ == self.light_nodes@.take(i as int).filter(is_light(m)),
            decreases self.light_nodes@.len() - i,
        {
            let k = self.light_nodes[i];
            proof {
                reveal(Seq::filter);
                assert(self.light_nodes@.take(i as int + 1).drop_last()
                    =~= self.light_nodes@.take(i as int));
                assert(key_live(arena_nodes(self.tree), self.light_nodes@[i as int]));
            }
            match self.object(k) {
                Some(o) => match o.kind {
                    SceneObjectKind::Light(_) => {
                        list.push(k);
                    },
                    _ => {},
                },
                None => {},
            }
            i += 1;
        }
        proof {
            assert(self.light_nodes@.take(i as int) =~= self.light_nodes@);
        }
        list
    }

    /// The placements from the root down to an object.
    pub fn placement_chain(&self, key: ObjectKey) -> (r: Option<Vec<T>>)
        requires
            self.wf(),
        ensures
            match r {
                Some(chain) => self@.nodes.contains_key(key) && chain@.len() > 0 && placements(
                    self@,
                    key,
                    chain@,
                ),
                None => !self@.nodes.contains_key(key),
            },
    {
        if !self.contains(key) {
            return None;
        }
        let ghost nodes = arena_nodes(self.tree);
        let ghost m = self@;
        let path = arena_ancestors(&self.tree, key.index);
        let mut chain: Vec<T> = Vec::new();
        let mut i: usize = path.len();
        while i > 0
            invariant
                self.wf(),
                m == self@,
                nodes == arena_nodes(self.tree),
                key_live(nodes, key),
                i <= path@.len(),
                crate::tree::is_path_up(nodes, key.index, path@),
                chain@.len() == path@.len() - i,
                forall|a: int|
                    0 <= a < chain@.len() ==> placed_above(
                        m,
                        key,
                        (path@.len() - 1 - a) as nat,
                        #[trigger] chain@[a],
                    ),
            decreases i,
        {
            let at = path[i - 1];
            proof {
                let n = (i - 1) as nat;
                assert(above(nodes, key.index, n) == Some(path@[i as int - 1]));
                lemma_above_live(nodes, key.index, n);
                lemma_up(m, nodes, key, n);
            }
            match arena_value(&self.tree, at) {
                Some(serial) => {
                    proof {
                        assert(nodes.contains_key(at));
                        assert(self.objects@.contains_key(nodes[at].0));
                        assert(m.up(key, (i - 1) as nat) == Some(key_of(nodes, at)));
                    }
                    match self.objects.get(&serial) {
                        Some(o) => {
                            let ghost before = chain@;
                            chain.push(o.transform);
                            proof {
                                assert(m.nodes[key_of(nodes, at)].object == *o);
                                assert(placed_above(m, key, (i - 1) as nat, o.transform));
                                assert forall|a: int| 0 <= a < chain@.len() implies placed_above(
                                    m,
                                    key,
                                    (path@.len() - 1 - a) as nat,
                                    #[trigger] chain@[a],
                                ) by {
                                    if a < before.len() {
                                        assert(chain@[a] == before[a]);
                                    } else {
                                        assert((path@.len() - 1 - a) as nat == (i - 1) as nat);
                                    }
                                }
                            }
                        },
                        None => {},
                    }
                },
                None => {},
            }
            i -= 1;
        }
        proof {
            lemma_up(m, nodes, key, path@.len());
            assert(m.up(key, chain@.len()) is None);
        }
        Some(chain)
    }

    /// The placement of an object in the world: the placements from the root down to it, applied
    /// one after another to `identity`.
    pub fn world_transform<M: Copy, F: Fn(M, T) -> M>(
        &self,
        key: ObjectKey,
        identity: M,
        apply: F,
    ) -> (r: Option<M>)
        requires
            self.wf(),
            forall|m: M, t: T| call_requires(apply, (m, t)),
        ensures
            match r {
                Some(w) => self@.nodes.contains_key(key) && exists|chain: Seq<T>, steps: Seq<M>|
                    #![trigger placements(self@, key, chain), folds(apply, chain, steps)]
                    placements(self@, key, chain) && folds(apply, chain, steps) && steps[0]
                        == identity && steps.last() == w,
                None => !self@.nodes.contains_key(key),
            },
    {
        self.world_by(key, identity, &apply)
    }

    /// `world_transform` with a borrowed function.
    pub(crate) fn world_by<M: Copy, F: Fn(M, T) -> M>(
        &self,
        key: ObjectKey,
        identity: M,
        apply: &F,
    ) -> (r: Option<M>)
        requires
            self.wf(),
            forall|m: M, t: T| call_requires(*apply, (m, t)),
        ensures
            match r {
                Some(w) => self@.nodes.contains_key(key) && exists|chain: Seq<T>, steps: Seq<M>|
                    #![trigger placements(self@, key, chain), folds(*apply, chain, steps)]
                    placements(self@, key, chain) && folds(*apply, chain, steps) && steps[0]
                        == identity && steps.last() == w,
                None => !self@.nodes.contains_key(key),
            },
    {
        let chain = match self.placement_chain(key) {
            Some(chain) => chain,
            None => {
                return None;
            },
        };
        let mut world = identity;
        let ghost mut steps: Seq<M> = seq![identity];
        let mut i: usize = 0;
        while i < chain.len()
            invariant
                i <= chain@.len(),
                forall|m: M, t: T| call_requires(*apply, (m, t)),
                steps.len() == i + 1,
                steps[0] == identity,
                steps.last() == world,
                forall|a: int|
                    0 <= a < i ==> call_ensures(
                        *apply,
                        (steps[a], #[trigger] chain@[a]),
                        steps[a + 1],
                    ),
            decreases chain@.len() - i,
        {
            let next = apply(world, chain[i]);
            proof {
                steps = steps.push(next);
            }
            world = next;
            i += 1;
        }
        proof {
            assert(folds(*apply, chain@, steps));
        }
        Some(world)
    }
}

fn contains_index(list: &Vec<usize>, x: usize) -> (b: bool)
    ensures
        b == list@.contains(x),
{
    let mut i: usize = 0;
    while i < list.len()
        invariant
            i <= list@.len(),
            forall|j: int| 0 <= j < i ==> list@[j] != x,
        decreases list@.len() - i,
    {
        if list[i] == x {
            return true;
        }
        i += 1;
    }
    false
}

pub(crate) fn contains_key(list: &Vec<ObjectKey>, x: ObjectKey) -> (b: bool)
    ensures
        b == list@.contains(x),
{
    let mut i: usize = 0;
    while i < list.len()
        invariant
            i <= list@.len(),
            forall|j: int| 0 <= j < i ==> list@[j] != x,
        decreases list@.len() - i,
    {
        if list[i] == x {
            return true;
        }
        i += 1;
    }
    false
}

} // verus!
