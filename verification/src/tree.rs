//! The arena of tree nodes: which nodes there are, what they hold and below which node they hang.
use core::num::NonZeroUsize;
use indextree::Arena;
use vstd::prelude::*;

verus! {

/// The node arena of the `indextree` crate.
#[verifier::external_type_specification]
#[verifier::external_body]
#[verifier::reject_recursive_types(T)]
pub struct ExArena<T>(indextree::Arena<T>);

/// The live nodes of an arena by number: the value each holds and the number of its parent.
pub uninterp spec fn arena_nodes(a: Arena<u64>) -> Map<usize, (u64, Option<usize>)>;

/// The node `n` steps above `i`.
pub open spec fn above(nodes: Map<usize, (u64, Option<usize>)>, i: usize, n: nat) -> Option<usize>
    decreases n,
{
    if n == 0 {
        Some(i)
    } else {
        match above(nodes, i, (n - 1) as nat) {
            Some(j) => nodes[j].1,
            None => None,
        }
    }
}

/// `a` is `i` or lies above it.
pub open spec fn at_or_above(nodes: Map<usize, (u64, Option<usize>)>, a: usize, i: usize) -> bool {
    exists|n: nat| #[trigger] above(nodes, i, n) == Some(a)
}

/// Parents are nodes, and going up from any node comes to an end.
pub open spec fn is_forest(nodes: Map<usize, (u64, Option<usize>)>) -> bool {
    &&& forall|i: usize| #[trigger]
        nodes.contains_key(i) ==> (nodes[i].1 matches Some(p) ==> nodes.contains_key(p))
    &&& forall|i: usize| #[trigger]
        nodes.contains_key(i) ==> exists|n: nat| #[trigger] above(nodes, i, n) is None
}

/// The nodes from `i` up to its root, as a list.
pub open spec fn is_path_up(
    nodes: Map<usize, (u64, Option<usize>)>,
    i: usize,
    path: Seq<usize>,
) -> bool {
    &&& path.len() > 0
    &&& forall|k: int| 0 <= k < path.len() ==> above(nodes, i, k as nat) == Some(#[trigger] path[k])
    &&& above(nodes, i, path.len()) is None
}

/// The nodes without one node and everything below it.
pub open spec fn without_subtree(nodes: Map<usize, (u64, Option<usize>)>, i: usize) -> Map<
    usize,
    (u64, Option<usize>),
> {
    nodes.restrict(Set::new(|j: usize| !at_or_above(nodes, i, j)))
}

/// The numbers ascend.
pub open spec fn strictly_ascending(list: Seq<usize>) -> bool {
    forall|a: int, b: int| 0 <= a < b < list.len() ==> list[a] < list[b]
}

/// The list holds all nodes.
pub open spec fn lists_all(nodes: Map<usize, (u64, Option<usize>)>, list: Seq<usize>) -> bool {
    forall|i: usize| #[trigger] list.contains(i) <==> nodes.contains_key(i)
}

/// The list holds a node and all nodes below it, each once.
pub open spec fn lists_subtree(
    nodes: Map<usize, (u64, Option<usize>)>,
    i: usize,
    list: Seq<usize>,
) -> bool {
    &&& list.no_duplicates()
    &&& forall|j: usize| #[trigger]
        list.contains(j) <==> nodes.contains_key(j) && at_or_above(nodes, i, j)
}

/// `Arena::new`: no nodes.
#[verifier::external_body]
pub(crate) fn arena_new() -> (a: Arena<u64>)
    ensures
        arena_nodes(a) =~= Map::empty(),
{
    Arena::new()
}

/// `Arena::new_node`: the value gets a node of its own, without a parent.
#[verifier::external_body]
pub(crate) fn arena_add(a: &mut Arena<u64>, value: u64) -> (i: usize)
    ensures
        !arena_nodes(*old(a)).contains_key(i),
        arena_nodes(*final(a)) == arena_nodes(*old(a)).insert(i, (value, None)),
{
    a.new_node(value).into()
}

/// `Arena::get`: the value of a live node.
#[verifier::external_body]
pub(crate) fn arena_value(a: &Arena<u64>, i: usize) -> (r: Option<u64>)
    ensures
        r == (if arena_nodes(*a).contains_key(i) {
            Some(arena_nodes(*a)[i].0)
        } else {
            None
        }),
{
    let id = a.get_node_id_at(NonZeroUsize::new(i)?)?;
    Some(*a.get(id)?.get())
}

/// `NodeId::parent`: the node above a live node.
#[verifier::external_body]
pub(crate) fn arena_parent(a: &Arena<u64>, i: usize) -> (r: Option<usize>)
    requires
        arena_nodes(*a).contains_key(i),
    ensures
        r == arena_nodes(*a)[i].1,
{
    let id = a.get_node_id_at(NonZeroUsize::new(i).unwrap()).unwrap();
    id.parent(a).map(usize::from)
}

/// `NodeId::ancestors`: a live node and the nodes above it, up to its root.
#[verifier::external_body]
pub(crate) fn arena_ancestors(a: &Arena<u64>, i: usize) -> (path: Vec<usize>)
    requires
        arena_nodes(*a).contains_key(i),
        is_forest(arena_nodes(*a)),
    ensures
        is_path_up(arena_nodes(*a), i, path@),
{
    let id = a.get_node_id_at(NonZeroUsize::new(i).unwrap()).unwrap();
    id.ancestors(a).map(usize::from).collect()
}

/// `NodeId::descendants`: a live node and the nodes below it, each once.
#[verifier::external_body]
pub(crate) fn arena_descendants(a: &Arena<u64>, i: usize) -> (list: Vec<usize>)
    requires
        arena_nodes(*a).contains_key(i),
        is_forest(arena_nodes(*a)),
    ensures
        lists_subtree(arena_nodes(*a), i, list@),
{
    let id = a.get_node_id_at(NonZeroUsize::new(i).unwrap()).unwrap();
    id.descendants(a).map(usize::from).collect()
}

/// `Arena::iter_node_ids`: the numbers of all live nodes, ascending.
#[verifier::external_body]
pub(crate) fn arena_ids(a: &Arena<u64>) -> (list: Vec<usize>)
    ensures
        strictly_ascending(list@),
        lists_all(arena_nodes(*a), list@),
{
    a.iter_node_ids().map(usize::from).collect()
}

/// `NodeId::detach`: a live node loses its parent.
#[verifier::external_body]
pub(crate) fn arena_detach(a: &mut Arena<u64>, i: usize)
    requires
        arena_nodes(*old(a)).contains_key(i),
    ensures
        arena_nodes(*final(a)) == arena_nodes(*old(a)).insert(
            i,
            (arena_nodes(*old(a))[i].0, None),
        ),
{
    a.get_node_id_at(NonZeroUsize::new(i).unwrap()).unwrap().detach(a);
}

/// `NodeId::append`: a live node is hung below another that does not lie below it.
#[verifier::external_body]
pub(crate) fn arena_append(a: &mut Arena<u64>, parent: usize, child: usize)
    requires
        arena_nodes(*old(a)).contains_key(parent),
        arena_nodes(*old(a)).contains_key(child),
        is_forest(arena_nodes(*old(a))),
        !at_or_above(arena_nodes(*old(a)), child, parent),
    ensures
        arena_nodes(*final(a)) == arena_nodes(*old(a)).insert(
            child,
            (arena_nodes(*old(a))[child].0, Some(parent)),
        ),
{
    let child_id = a.get_node_id_at(NonZeroUsize::new(child).unwrap()).unwrap();
    let parent_id = a.get_node_id_at(NonZeroUsize::new(parent).unwrap()).unwrap();
    parent_id.append(child_id, a);
}

/// `NodeId::remove_subtree`: a live node goes with everything below it.
#[verifier::external_body]
pub(crate) fn arena_remove(a: &mut Arena<u64>, i: usize)
    requires
        arena_nodes(*old(a)).contains_key(i),
        is_forest(arena_nodes(*old(a))),
    ensures
        arena_nodes(*final(a)) == without_subtree(arena_nodes(*old(a)), i),
{
    a.get_node_id_at(NonZeroUsize::new(i).unwrap()).unwrap().remove_subtree(a);
}

pub proof fn lemma_above_none(nodes: Map<usize, (u64, Option<usize>)>, i: usize, n: nat, m: nat)
    requires
        above(nodes, i, n) is None,
        n <= m,
    ensures
        above(nodes, i, m) is None,
    decreases m,
{
    if n < m {
        lemma_above_none(nodes, i, n, (m - 1) as nat);
    }
}

/// Going up `n` steps and then `m` is going up `n + m`.
pub proof fn lemma_above_add(
    nodes: Map<usize, (u64, Option<usize>)>,
    i: usize,
    j: usize,
    n: nat,
    m: nat,
)
    requires
        above(nodes, i, n) == Some(j),
    ensures
        above(nodes, i, n + m) == above(nodes, j, m),
    decreases m,
{
    if m > 0 {
        lemma_above_add(nodes, i, j, n, (m - 1) as nat);
    }
}

proof fn lemma_loop(nodes: Map<usize, (u64, Option<usize>)>, i: usize, n: nat, k: nat)
    requires
        above(nodes, i, n) == Some(i),
        n > 0,
    ensures
        above(nodes, i, k * n) == Some(i),
        k * n >= k,
    decreases k,
{
    if k > 0 {
        lemma_loop(nodes, i, n, (k - 1) as nat);
        assert(k * n == (k - 1) * n + n) by (nonlinear_arith)
            requires
                k > 0,
        ;
        lemma_above_add(nodes, i, i, ((k - 1) * n) as nat, n);
    } else {
        assert(k * n == 0) by (nonlinear_arith)
            requires
                k == 0,
        ;
    }
}

/// Where two forests agree on the way up, they agree on where it leads.
pub proof fn lemma_above_same(
    a: Map<usize, (u64, Option<usize>)>,
    b: Map<usize, (u64, Option<usize>)>,
    i: usize,
    n: nat,
)
    requires
        forall|k: nat|
            k < n ==> (#[trigger] above(a, i, k) matches Some(j) ==> a[j].1 == b[j].1),
    ensures
        above(a, i, n) == above(b, i, n),
    decreases n,
{
    if n > 0 {
        lemma_above_same(a, b, i, (n - 1) as nat);
        assert(above(a, i, (n - 1) as nat) matches Some(j) ==> a[j].1 == b[j].1);
    }
}

/// The way up from a node passes nodes only.
pub proof fn lemma_above_live(nodes: Map<usize, (u64, Option<usize>)>, i: usize, n: nat)
    requires
        is_forest(nodes),
        nodes.contains_key(i),
    ensures
        above(nodes, i, n) matches Some(j) ==> nodes.contains_key(j),
    decreases n,
{
    if n > 0 {
        lemma_above_live(nodes, i, (n - 1) as nat);
    }
}

/// A new node without a parent leaves a forest.
pub proof fn lemma_forest_add(nodes: Map<usize, (u64, Option<usize>)>, i: usize, v: u64)
    requires
        is_forest(nodes),
        !nodes.contains_key(i),
    ensures
        is_forest(nodes.insert(i, (v, None))),
{
    let new = nodes.insert(i, (v, None));
    assert forall|j: usize| #[trigger] new.contains_key(j) implies exists|n: nat| #[trigger]
        above(new, j, n) is None by {
        if j == i {
            reveal_with_fuel(above, 2);
            assert(above(new, i, 1) is None);
        } else {
            let n = choose|n: nat| #[trigger] above(nodes, j, n) is None;
            assert forall|k: nat| k < n implies (#[trigger] above(nodes, j, k) matches Some(x)
                ==> nodes[x].1 == new[x].1) by {
                lemma_above_live(nodes, j, k);
            }
            lemma_above_same(nodes, new, j, n);
            assert(above(new, j, n) is None);
        }
    }
}

/// Cutting a node off its parent leaves a forest.
pub proof fn lemma_forest_detach(nodes: Map<usize, (u64, Option<usize>)>, i: usize)
    requires
        is_forest(nodes),
        nodes.contains_key(i),
    ensures
        is_forest(nodes.insert(i, (nodes[i].0, None))),
{
    let new = nodes.insert(i, (nodes[i].0, None));
    assert forall|j: usize| #[trigger] new.contains_key(j) implies exists|n: nat| #[trigger]
        above(new, j, n) is None by {
        lemma_ends_below(nodes, new, i, j);
        if !(exists|n: nat| #[trigger] above(new, j, n) is None) {
            let n = choose|n: nat| #[trigger] above(new, j, n) == Some(i);
            assert(above(new, j, n + 1) is None);
        }
    }
}

/// With only the parent of `c` changed, the way up from `j` ends or comes by `c`.
proof fn lemma_ends_below(
    a: Map<usize, (u64, Option<usize>)>,
    b: Map<usize, (u64, Option<usize>)>,
    c: usize,
    j: usize,
)
    requires
        is_forest(a),
        a.contains_key(j),
        forall|x: usize| a.contains_key(x) && x != c ==> (#[trigger] b[x]).1 == a[x].1,
    ensures
        (exists|n: nat| #[trigger] above(b, j, n) is None) || (exists|n: nat| #[trigger]
            above(b, j, n) == Some(c) && above(a, j, n) == Some(c)),
{
    let top = choose|n: nat| #[trigger] above(a, j, n) is None;
    if exists|k: nat| #[trigger] above(a, j, k) == Some(c) {
        let k = choose|k: nat| #[trigger] above(a, j, k) == Some(c);
        lemma_first_pass(a, c, j, k);
        let f = choose|f: nat|
            #[trigger] above(a, j, f) == Some(c) && forall|m: nat|
                m < f ==> #[trigger] above(a, j, m) != Some(c);
        assert forall|m: nat| m < f implies (#[trigger] above(a, j, m) matches Some(x) ==> a[x].1
            == b[x].1) by {
            lemma_above_live(a, j, m);
        }
        lemma_above_same(a, b, j, f);
        assert(above(b, j, f) == Some(c));
    } else {
        assert forall|m: nat| m < top implies (#[trigger] above(a, j, m) matches Some(x) ==> a[x].1
            == b[x].1) by {
            lemma_above_live(a, j, m);
        }
        lemma_above_same(a, b, j, top);
        assert(above(b, j, top) is None);
    }
}

proof fn lemma_first_pass(a: Map<usize, (u64, Option<usize>)>, c: usize, j: usize, k: nat)
    requires
        above(a, j, k) == Some(c),
    ensures
        exists|f: nat|
            #[trigger] above(a, j, f) == Some(c) && forall|m: nat|
                m < f ==> #[trigger] above(a, j, m) != Some(c),
    decreases k,
{
    if exists|m: nat| m < k && #[trigger] above(a, j, m) == Some(c) {
        let m = choose|m: nat| m < k && #[trigger] above(a, j, m) == Some(c);
        lemma_first_pass(a, c, j, m);
    }
}

/// Hanging a node below one that does not lie below it leaves a forest.
pub proof fn lemma_forest_append(
    nodes: Map<usize, (u64, Option<usize>)>,
    parent: usize,
    child: usize,
)
    requires
        is_forest(nodes),
        nodes.contains_key(parent),
        nodes.contains_key(child),
        !at_or_above(nodes, child, parent),
    ensures
        is_forest(nodes.insert(child, (nodes[child].0, Some(parent)))),
{
    let new = nodes.insert(child, (nodes[child].0, Some(parent)));
    let top = choose|n: nat| #[trigger] above(nodes, parent, n) is None;
    assert forall|m: nat| m < top implies (#[trigger] above(nodes, parent, m) matches Some(x)
        ==> nodes[x].1 == new[x].1) by {
        lemma_above_live(nodes, parent, m);
    }
    lemma_above_same(nodes, new, parent, top);
    assert forall|j: usize| #[trigger] new.contains_key(j) implies exists|n: nat| #[trigger]
        above(new, j, n) is None by {
        lemma_ends_below(nodes, new, child, j);
        if !(exists|n: nat| #[trigger] above(new, j, n) is None) {
            let n = choose|n: nat| #[trigger] above(new, j, n) == Some(child);
            assert(above(new, j, n + 1) == Some(parent));
            lemma_above_add(new, j, parent, n + 1, top);
            assert(above(new, j, (n + 1) + top) is None);
        }
    }
}

/// Taking a node with everything below it away leaves a forest.
pub proof fn lemma_forest_remove(nodes: Map<usize, (u64, Option<usize>)>, i: usize)
    requires
        is_forest(nodes),
        nodes.contains_key(i),
    ensures
        is_forest(without_subtree(nodes, i)),
        forall|j: usize, n: nat|
            nodes.contains_key(j) && !at_or_above(nodes, i, j) ==> #[trigger] above(
                without_subtree(nodes, i),
                j,
                n,
            ) == above(nodes, j, n),
{
    let new = without_subtree(nodes, i);
    assert forall|j: usize| #[trigger] new.contains_key(j) implies (new[j].1 matches Some(p)
        ==> new.contains_key(p)) by {
        if let Some(p) = new[j].1 {
            if at_or_above(nodes, i, p) {
                let n = choose|n: nat| #[trigger] above(nodes, p, n) == Some(i);
                reveal_with_fuel(above, 2);
                assert(above(nodes, j, 1) == Some(p));
                lemma_above_add(nodes, j, p, 1, n);
                assert(above(nodes, j, 1 + n) == Some(i));
            }
        }
    }
    assert forall|j: usize, n: nat| nodes.contains_key(j) && !at_or_above(nodes, i, j) implies #[trigger] above(
        new,
        j,
        n,
    ) == above(nodes, j, n) by {
        assert forall|k: nat| k < n implies (#[trigger] above(nodes, j, k) matches Some(x)
            ==> nodes[x].1 == new[x].1) by {
            lemma_above_live(nodes, j, k);
            if let Some(x) = above(nodes, j, k) {
                if at_or_above(nodes, i, x) {
                    let m = choose|m: nat| #[trigger] above(nodes, x, m) == Some(i);
                    lemma_above_add(nodes, j, x, k, m);
                    assert(above(nodes, j, k + m) == Some(i));
                }
            }
        }
        lemma_above_same(nodes, new, j, n);
    }
    assert forall|j: usize| #[trigger] new.contains_key(j) implies exists|n: nat| #[trigger]
        above(new, j, n) is None by {
        let n = choose|n: nat| #[trigger] above(nodes, j, n) is None;
        assert(above(new, j, n) is None);
    }
}

} // verus!
