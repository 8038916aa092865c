//! Walks through hierarchies: parents before children, each node once, cycles or not.
use vstd::prelude::*;

verus! {

/// The children of each node, by number.
pub type ChildLists = Seq<Seq<usize>>;

/// A way from a root down to a node.
pub open spec fn is_way(roots: Seq<usize>, children: ChildLists, way: Seq<usize>) -> bool {
    &&& way.len() > 0
    &&& roots.contains(way[0])
    &&& forall|i: int| 0 <= i < way.len() ==> (#[trigger] way[i]) < children.len()
    &&& forall|i: int|
        0 <= i < way.len() - 1 ==> children[#[trigger] way[i] as int].contains(way[i + 1])
}

/// The node can be reached from a root.
pub open spec fn reachable(roots: Seq<usize>, children: ChildLists, n: usize) -> bool {
    exists|way: Seq<usize>| #[trigger] is_way(roots, children, way) && way.last() == n
}

/// The node is a root, or a child of one of the first `n` nodes of the list.
pub open spec fn follows(
    roots: Seq<usize>,
    children: ChildLists,
    order: Seq<usize>,
    n: int,
    node: usize,
) -> bool {
    roots.contains(node) || exists|j: int|
        0 <= j < n && #[trigger] children[order[j] as int].contains(node)
}

/// The list is a walk: no node twice, exactly the nodes that can be reached, each a root or behind
/// a node whose child it is.
pub open spec fn is_walk(roots: Seq<usize>, children: ChildLists, order: Seq<usize>) -> bool {
    &&& order.no_duplicates()
    &&& forall|n: usize| #[trigger] order.contains(n) <==> reachable(roots, children, n)
    &&& forall|i: int|
        0 <= i < order.len() ==> follows(roots, children, order, i, #[trigger] order[i])
}

/// The nodes of `order`, and behind them those that are taken from then on: always the node at the
/// top of the stack, for which its children are put on the stack. Nodes that were taken before and
/// numbers that no node has are passed over.
pub open spec fn walk_from(
    children: ChildLists,
    stack: Seq<usize>,
    order: Seq<usize>,
) -> Seq<usize>
    decreases children.len() - order.len(), stack.len(),
{
    if stack.len() == 0 || order.len() >= children.len() {
        order
    } else {
        let node = stack.last();
        let rest = stack.drop_last();
        if node < children.len() && !order.contains(node) {
            walk_from(children, rest + children[node as int], order.push(node))
        } else {
            walk_from(children, rest, order)
        }
    }
}

/// The contents of child lists.
pub open spec fn child_lists(list: Seq<Vec<usize>>) -> ChildLists {
    list.map_values(|c: Vec<usize>| c@)
}

proof fn lemma_reached(roots: Seq<usize>, children: ChildLists, order: Seq<usize>, way: Seq<usize>)
    requires
        is_way(roots, children, way),
        forall|r: usize|
            roots.contains(r) && r < children.len() ==> #[trigger] order.contains(r),
        forall|n: usize, c: usize|
            order.contains(n) && n < children.len() && #[trigger] children[n as int].contains(c)
                && c < children.len() ==> #[trigger] order.contains(c),
    ensures
        order.contains(way.last()),
    decreases way.len(),
{
    if way.len() > 1 {
        let head = way.drop_last();
        assert(is_way(roots, children, head)) by {
            assert forall|i: int| 0 <= i < head.len() implies (#[trigger] head[i])
                < children.len() by {
                assert(way[i] < children.len());
            }
            assert forall|i: int| 0 <= i < head.len() - 1 implies children[#[trigger] head[i] as int].contains(
                head[i + 1],
            ) by {
                assert(children[way[i] as int].contains(way[i + 1]));
            }
        }
        lemma_reached(roots, children, order, head);
        let k = way.len() - 2;
        assert(head.last() == way[k]);
        assert(children[way[k] as int].contains(way[k + 1]));
        assert(way[k] < children.len());
        assert(way[k + 1] < children.len());
    } else {
        assert(way[0] < children.len());
        assert(way.last() == way[0]);
    }
}

pub(crate) proof fn lemma_child_reachable(roots: Seq<usize>, children: ChildLists, n: usize, c: usize)
    requires
        reachable(roots, children, n),
        children[n as int].contains(c),
        c < children.len(),
    ensures
        reachable(roots, children, c),
{
    let way = choose|way: Seq<usize>| #[trigger] is_way(roots, children, way) && way.last() == n;
    let longer = way.push(c);
    assert forall|i: int| 0 <= i < longer.len() implies (#[trigger] longer[i]) < children.len() by {
        if i < way.len() {
            assert(way[i] < children.len());
        }
    }
    assert forall|i: int| 0 <= i < longer.len() - 1 implies children[#[trigger] longer[i] as int].contains(
        longer[i + 1],
    ) by {
        if i < way.len() - 1 {
            assert(children[way[i] as int].contains(way[i + 1]));
        }
    }
    assert(longer[0] == way[0]);
    assert(is_way(roots, children, longer));
    assert(longer.last() == c);
}

pub(crate) proof fn lemma_reachable_exists(roots: Seq<usize>, children: ChildLists, n: usize)
    requires
        reachable(roots, children, n),
    ensures
        n < children.len(),
{
    let way = choose|way: Seq<usize>| #[trigger] is_way(roots, children, way) && way.last() == n;
    assert(way[way.len() - 1] < children.len());
}

pub(crate) proof fn lemma_root_reachable(roots: Seq<usize>, children: ChildLists, r: usize)
    requires
        roots.contains(r),
        r < children.len(),
    ensures
        reachable(roots, children, r),
{
    let way = seq![r];
    assert(is_way(roots, children, way));
    assert(way.last() == r);
}

/// Walks through a hierarchy from its roots: takes the node that was found last, and finds its
/// children in turn. Nodes that were taken before are passed over, so that cycles do no harm;
/// numbers that no node has are passed over as well.
pub fn visit_order(roots: &Vec<usize>, children: &Vec<Vec<usize>>) -> (order: Vec<usize>)
    ensures
        order@ == walk_from(child_lists(children@), roots@, seq![]),
        is_walk(roots@, child_lists(children@), order@),
{
    let ghost lists = child_lists(children@);
    let total: usize = children.len();
    let mut visited: Vec<bool> = Vec::new();
    while visited.len() < total
        invariant
            visited@.len() <= total,
            forall|i: int| 0 <= i < visited@.len() ==> !#[trigger] visited@[i],
        decreases total - visited@.len(),
    {
        visited.push(false);
    }
    let mut order: Vec<usize> = Vec::new();
    let mut stack: Vec<usize> = crate::mesh::copied(roots);
    proof {
        assert forall|i: int| 0 <= i < stack@.len() implies follows(
            roots@,
            lists,
            order@,
            order@.len() as int,
            #[trigger] stack@[i],
        ) by {
            assert(roots@.contains(stack@[i]));
        }
    }
    while stack.len() > 0
        invariant
            total == lists.len(),
            lists == child_lists(children@),
            children@.len() == total,
            visited@.len() == total,
            order@.len() <= total,
            order@.no_duplicates(),
            walk_from(lists, roots@, seq![]) == walk_from(lists, stack@, order@),
            forall|n: usize| n < total ==> (#[trigger] visited@[n as int] <==> order@.contains(n)),
            forall|i: int| 0 <= i < order@.len() ==> (#[trigger] order@[i]) < total,
            forall|i: int|
                0 <= i < order@.len() ==> reachable(roots@, lists, #[trigger] order@[i]),
            forall|i: int|
                0 <= i < order@.len() ==> follows(roots@, lists, order@, i, #[trigger] order@[i]),
            forall|i: int|
                0 <= i < stack@.len() ==> follows(
                    roots@,
                    lists,
                    order@,
                    order@.len() as int,
                    #[trigger] stack@[i],
                ),
            forall|r: usize|
                #![trigger order@.contains(r)]
                #![trigger roots@.contains(r)]
                roots@.contains(r) && r < total ==> order@.contains(r) || stack@.contains(r),
            forall|n: usize, c: usize|
                order@.contains(n) && #[trigger] lists[n as int].contains(c) && c < total
                    ==> order@.contains(c) || stack@.contains(c),
        decreases total - order@.len(), stack@.len(),
    {
        let ghost stack0 = stack@;
        let ghost order0 = order@;
        let node = match stack.pop() {
            Some(node) => node,
            None => {
                return order;
            },
        };
        proof {
            assert(stack0.last() == node);
            assert(follows(roots@, lists, order0, order0.len() as int, node));
            assert(stack@ =~= stack0.drop_last());
            assert forall|x: usize| #[trigger] stack0.contains(x) implies stack@.contains(x) || x
                == node by {
                let i = choose|i: int| 0 <= i < stack0.len() && stack0[i] == x;
                if i < stack0.len() - 1 {
                    assert(stack@[i] == x);
                }
            }
            assert forall|i: int| 0 <= i < stack@.len() implies follows(
                roots@,
                lists,
                order@,
                order@.len() as int,
                #[trigger] stack@[i],
            ) by {
                assert(stack@[i] == stack0[i]);
            }
        }
        if node < total && !visited[node] {
            visited.set(node, true);
            order.push(node);
            let list = &children[node];
            proof {
                assert(lists[node as int] == list@);
                assert(!order0.contains(node));
                assert(reachable(roots@, lists, node)) by {
                    if roots@.contains(node) {
                        lemma_root_reachable(roots@, lists, node);
                    } else {
                        let j = choose|j: int|
                            0 <= j < order0.len() && #[trigger] lists[order0[j] as int].contains(
                                node,
                            );
                        assert(reachable(roots@, lists, order0[j]));
                        lemma_child_reachable(roots@, lists, order0[j], node);
                    }
                }
                lemma_walk_push(roots@, lists, order0, node);
                lemma_distinct_push(order0, node, total);
                assert forall|i: int| 0 <= i < order@.len() implies reachable(
                    roots@,
                    lists,
                    #[trigger] order@[i],
                ) by {
                    if i < order0.len() {
                        assert(order@[i] == order0[i]);
                    }
                }
                assert forall|n: usize| n < total implies (#[trigger] visited@[n as int]
                    <==> order@.contains(n)) by {
                    assert(order@.contains(n) <==> order0.contains(n) || n == node);
                }
                assert forall|i: int| 0 <= i < stack@.len() implies follows(
                    roots@,
                    lists,
                    order@,
                    order@.len() as int,
                    #[trigger] stack@[i],
                ) by {
                    lemma_follows_longer(roots@, lists, order0, order@, stack@[i]);
                }
            }
            let mut k: usize = 0;
            let ghost stack1 = stack@;
            proof {
                assert(stack1 + list@.take(0) =~= stack1);
            }
            while k < list.len()
                invariant
                    total == lists.len(),
                    k <= list@.len(),
                    node < total,
                    lists[node as int] == list@,
                    order@.len() > 0,
                    order@.last() == node,
                    forall|i: int|
                        0 <= i < stack@.len() ==> follows(
                            roots@,
                            lists,
                            order@,
                            order@.len() as int,
                            #[trigger] stack@[i],
                        ),
                    stack@ == stack1 + list@.take(k as int),
                    forall|x: usize| #[trigger] stack1.contains(x) ==> stack@.contains(x),
                    forall|j: int| 0 <= j < k ==> stack@.contains(#[trigger] list@[j]),
                decreases list@.len() - k,
            {
                let ghost now = stack@;
                let c = list[k];
                stack.push(c);
                proof {
                    assert(list@.contains(c));
                    let last = order@.len() - 1;
                    assert(lists[order@[last] as int].contains(c));
                    assert forall|x: usize| #[trigger] now.contains(x) implies stack@.contains(
                        x,
                    ) by {
                        let i = choose|i: int| 0 <= i < now.len() && now[i] == x;
                        assert(stack@[i] == x);
                    }
                    assert(stack@[now.len() as int] == c);
                    assert(list@.take(k as int + 1) =~= list@.take(k as int).push(c));
                    assert forall|i: int| 0 <= i < stack@.len() implies follows(
                        roots@,
                        lists,
                        order@,
                        order@.len() as int,
                        #[trigger] stack@[i],
                    ) by {
                        if i < now.len() {
                            assert(stack@[i] == now[i]);
                        }
                    }
                    assert forall|j: int| 0 <= j < k + 1 implies stack@.contains(
                        #[trigger] list@[j],
                    ) by {
                        if j < k {
                            assert(now.contains(list@[j]));
                        }
                    }
                }
                k += 1;
            }
            proof {
                assert(list@.take(k as int) =~= lists[node as int]);
                assert forall|n: usize, c: usize|
                    order@.contains(n) && #[trigger] lists[n as int].contains(c) && c
                        < total implies order@.contains(c) || stack@.contains(c) by {
                    assert(order@.contains(n) <==> order0.contains(n) || n == node);
                    if n == node {
                        let j = choose|j: int| 0 <= j < list@.len() && list@[j] == c;
                        assert(stack@.contains(list@[j]));
                    } else {
                        assert(order0.contains(c) || stack0.contains(c));
                        assert(order@.contains(c) <==> order0.contains(c) || c == node);
                    }
                }
                assert forall|r: usize| #[trigger]
                    roots@.contains(r) && r < total implies order@.contains(r) || stack@.contains(
                    r,
                ) by {
                    assert(order0.contains(r) || stack0.contains(r));
                    assert(order@.contains(r) <==> order0.contains(r) || r == node);
                }
            }
        }
    }
    proof {
        assert forall|n: usize| #[trigger] order@.contains(n) <==> reachable(roots@, lists, n) by {
            if order@.contains(n) {
                let i = choose|i: int| 0 <= i < order@.len() && order@[i] == n;
                assert(reachable(roots@, lists, order@[i]));
            }
            if reachable(roots@, lists, n) {
                let way = choose|way: Seq<usize>| #[trigger]
                    is_way(roots@, lists, way) && way.last() == n;
                lemma_reached(roots@, lists, order@, way);
            }
        }
    }
    order
}

proof fn lemma_distinct_push(order: Seq<usize>, node: usize, total: usize)
    requires
        order.no_duplicates(),
        !order.contains(node),
        node < total,
        forall|i: int| 0 <= i < order.len() ==> (#[trigger] order[i]) < total,
    ensures
        order.push(node).no_duplicates(),
        order.push(node).len() <= total,
        forall|n: usize| #[trigger]
            order.push(node).contains(n) <==> order.contains(n) || n == node,
{
    let next = order.push(node);
    assert forall|n: usize| #[trigger] next.contains(n) <==> order.contains(n) || n == node by {
        if order.contains(n) {
            let i = choose|i: int| 0 <= i < order.len() && order[i] == n;
            assert(next[i] == n);
        }
        if n == node {
            assert(next[order.len() as int] == n);
        }
    }
    assert forall|i: int, j: int|
        0 <= i < next.len() && 0 <= j < next.len() && i != j implies next[i] != next[j] by {
        if i < order.len() {
            assert(order.contains(order[i]));
        }
        if j < order.len() {
            assert(order.contains(order[j]));
        }
    }
    let numbers = next.map_values(|n: usize| n as int);
    assert(numbers.no_duplicates()) by {
        assert forall|i: int, j: int|
            0 <= i < numbers.len() && 0 <= j < numbers.len() && i != j implies numbers[i]
            != numbers[j] by {
            assert(next[i] != next[j]);
        }
    }
    numbers.unique_seq_to_set();
    let below = vstd::set_lib::set_int_range(0, total as int);
    vstd::set_lib::lemma_int_range(0, total as int);
    assert(numbers.to_set().subset_of(below)) by {
        assert forall|x: int| numbers.to_set().contains(x) implies below.contains(x) by {
            let i = choose|i: int| 0 <= i < numbers.len() && numbers[i] == x;
            if i < order.len() {
                assert(order[i] < total);
            }
        }
    }
    vstd::set_lib::lemma_len_subset(numbers.to_set(), below);
}

proof fn lemma_follows_longer(
    roots: Seq<usize>,
    children: ChildLists,
    order: Seq<usize>,
    longer: Seq<usize>,
    node: usize,
)
    requires
        follows(roots, children, order, order.len() as int, node),
        order.is_prefix_of(longer),
    ensures
        follows(roots, children, longer, longer.len() as int, node),
{
    if !roots.contains(node) {
        let j = choose|j: int|
            0 <= j < order.len() && #[trigger] children[order[j] as int].contains(node);
        assert(longer[j] == order[j]);
        assert(children[longer[j] as int].contains(node));
    }
}

proof fn lemma_walk_push(
    roots: Seq<usize>,
    children: ChildLists,
    order: Seq<usize>,
    node: usize,
)
    requires
        forall|i: int|
            0 <= i < order.len() ==> follows(roots, children, order, i, #[trigger] order[i]),
        follows(roots, children, order, order.len() as int, node),
    ensures
        forall|i: int|
            0 <= i < order.len() + 1 ==> follows(
                roots,
                children,
                order.push(node),
                i,
                #[trigger] order.push(node)[i],
            ),
{
    let next = order.push(node);
    assert forall|i: int| 0 <= i < next.len() implies follows(
        roots,
        children,
        next,
        i,
        #[trigger] next[i],
    ) by {
        let n = next[i];
        if i < order.len() {
            assert(order[i] == n);
        }
        assert(follows(roots, children, order, i, n));
        if !roots.contains(n) {
            let j = choose|j: int| 0 <= j < i && #[trigger] children[order[j] as int].contains(n);
            assert(next[j] == order[j]);
            assert(children[next[j] as int].contains(n));
        }
    }
}

/// A node of a hierarchy: its parent, its children and its placement relative to the parent.
#[derive(Debug)]
pub struct HierarchyNode<T> {
    pub parent: Option<usize>,
    pub children: Vec<usize>,
    pub local: T,
}

/// The world placement of a node: that of its parent with its own on top, or its own.
pub open spec fn world_of<T, W, M: Fn(T) -> W, F: Fn(W, W) -> W>(
    matrix: M,
    times: F,
    local: T,
    parent: Option<W>,
    world: W,
) -> bool {
    exists|own: W| #[trigger]
        call_ensures(matrix, (local,), own) && match parent {
            Some(p) => call_ensures(times, (p, own), world),
            None => world == own,
        }
}

/// The roots of a hierarchy: the nodes without a parent, by ascending number.
pub open spec fn is_root_list<T>(nodes: Seq<HierarchyNode<T>>, roots: Seq<usize>) -> bool {
    &&& forall|a: int, b: int|
        0 <= a < b < roots.len() ==> (#[trigger] roots[a]) < (#[trigger] roots[b])
    &&& forall|r: usize| #[trigger]
        roots.contains(r) <==> r < nodes.len() && nodes[r as int].parent is None
}

/// The children of each node.
pub open spec fn node_children<T>(nodes: Seq<HierarchyNode<T>>) -> ChildLists {
    nodes.map_values(|n: HierarchyNode<T>| n.children@)
}

/// The world placement that counts for a node as that of its parent: the new one where the parent
/// was taken before, else the old one; none where there is no such node.
pub open spec fn parent_world<T, W>(
    nodes: Seq<HierarchyNode<T>>,
    order: Seq<usize>,
    before: Seq<W>,
    after: Seq<W>,
    i: int,
) -> Option<W> {
    match nodes[order[i] as int].parent {
        Some(p) => if p < nodes.len() {
            if order.take(i).contains(p) {
                Some(after[p as int])
            } else {
                Some(before[p as int])
            }
        } else {
            None
        },
        None => None,
    }
}

/// The nodes of a walk got their world placements, one after another; the others kept theirs.
pub open spec fn propagated<T, W, M: Fn(T) -> W, F: Fn(W, W) -> W>(
    matrix: M,
    times: F,
    nodes: Seq<HierarchyNode<T>>,
    order: Seq<usize>,
    before: Seq<W>,
    after: Seq<W>,
    n: int,
) -> bool {
    &&& after.len() == before.len()
    &&& forall|i: int|
        0 <= i < n ==> world_of(
            matrix,
            times,
            nodes[#[trigger] order[i] as int].local,
            parent_world(nodes, order, before, after, i),
            after[order[i] as int],
        )
    &&& forall|k: usize|
        k < before.len() && !order.take(n).contains(k) ==> #[trigger] after[k as int]
            == before[k as int]
}

/// Children lie below the parents that they name.
pub open spec fn consistent<T>(nodes: Seq<HierarchyNode<T>>) -> bool {
    forall|p: usize, c: usize|
        p < nodes.len() && #[trigger] nodes[p as int].children@.contains(c) ==> c < nodes.len()
            && nodes[c as int].parent == Some(p)
}

/// Gives every node that can be reached from a root its world placement.
pub fn propagate_world_transforms<T: Copy, W: Copy, M: Fn(T) -> W, F: Fn(W, W) -> W>(
    nodes: &Vec<HierarchyNode<T>>,
    worlds: &mut Vec<W>,
    matrix: M,
    times: F,
) -> (order: Vec<usize>)
    requires
        old(worlds)@.len() == nodes@.len(),
        forall|t: T| call_requires(matrix, (t,)),
        forall|a: W, b: W| call_requires(times, (a, b)),
    ensures
        exists|roots: Seq<usize>|
            is_root_list(nodes@, roots) && #[trigger] is_walk(
                roots,
                node_children(nodes@),
                order@,
            ) && order@ == walk_from(node_children(nodes@), roots, seq![]),
        propagated(
            matrix,
            times,
            nodes@,
            order@,
            old(worlds)@,
            final(worlds)@,
            order@.len() as int,
        ),
{
    let (roots, children) = roots_and_children(nodes);
    let order = visit_order(&roots, &children);
    let ghost lists = child_lists(children@);
    proof {
        assert(lists =~= node_children(nodes@));
        assert(is_walk(roots@, node_children(nodes@), order@));
        assert forall|i: int| 0 <= i < order@.len() implies (#[trigger] order@[i])
            < nodes@.len() by {
            assert(order@.contains(order@[i]));
            lemma_reachable_exists(roots@, lists, order@[i]);
        }
    }
    let ghost before = worlds@;
    let mut i: usize = 0;
    while i < order.len()
        invariant
            i <= order@.len(),
            before.len() == nodes@.len(),
            order@.no_duplicates(),
            forall|i: int| 0 <= i < order@.len() ==> (#[trigger] order@[i]) < nodes@.len(),
            forall|t: T| call_requires(matrix, (t,)),
            forall|a: W, b: W| call_requires(times, (a, b)),
            propagated(matrix, times, nodes@, order@, before, worlds@, i as int),
        decreases order@.len() - i,
    {
        let e = order[i];
        let ghost now = worlds@;
        let own = matrix(nodes[e].local);
        let parent = match nodes[e].parent {
            Some(p) => if p < worlds.len() {
                Some(worlds[p])
            } else {
                None
            },
            None => None,
        };
        let world = match parent {
            Some(p) => times(p, own),
            None => own,
        };
        worlds.set(e, world);
        proof {
            let taken = order@.take(i as int);
            assert(order@.take(i as int + 1) =~= taken.push(e));
            assert(!taken.contains(e)) by {
                if taken.contains(e) {
                    let j = choose|j: int| 0 <= j < taken.len() && taken[j] == e;
                    assert(order@[j] == order@[i as int]);
                }
            }
            crate::lists::lemma_take_next(order@, i as int);
            assert(call_ensures(matrix, (nodes@[e as int].local,), own));
            assert forall|j: int| 0 <= j < i + 1 implies world_of(
                matrix,
                times,
                nodes@[#[trigger] order@[j] as int].local,
                parent_world(nodes@, order@, before, worlds@, j),
                worlds@[order@[j] as int],
            ) by {
                let at = order@[j];
                if j < i {
                    assert(order@[j] != order@[i as int]);
                    assert(worlds@[at as int] == now[at as int]);
                    assert(parent_world(nodes@, order@, before, worlds@, j) == parent_world(
                        nodes@,
                        order@,
                        before,
                        now,
                        j,
                    )) by {
                        if let Some(p) = nodes@[at as int].parent {
                            if order@.take(j).contains(p) {
                                let t = order@.take(j);
                                let k = choose|k: int| 0 <= k < t.len() && t[k] == p;
                                assert(order@[k] == p);
                                assert(order@[k] != order@[i as int]);
                            }
                        }
                    }
                } else {
                    if let Some(p) = nodes@[e as int].parent {
                        if p < nodes@.len() {
                            if !taken.contains(p) {
                                assert(now[p as int] == before[p as int]);
                            } else {
                                assert(p != e);
                            }
                        }
                    }
                    assert(parent_world(nodes@, order@, before, worlds@, j) == parent);
                    assert(world_of(matrix, times, nodes@[e as int].local, parent, world));
                }
            }
            assert forall|k: usize|
                k < before.len() && !order@.take(i as int + 1).contains(
                    k,
                ) implies #[trigger] worlds@[k as int] == before[k as int] by {
                assert(!taken.contains(k) && k != e);
            }
        }
        i += 1;
    }
    order
}

fn roots_and_children<T>(nodes: &Vec<HierarchyNode<T>>) -> (r: (Vec<usize>, Vec<Vec<usize>>))
    ensures
        is_root_list(nodes@, r.0@),
        child_lists(r.1@) == node_children(nodes@),
{
    let mut roots: Vec<usize> = Vec::new();
    let mut children: Vec<Vec<usize>> = Vec::new();
    let mut i: usize = 0;
    while i < nodes.len()
        invariant
            i <= nodes@.len(),
            forall|a: int, b: int|
                0 <= a < b < roots@.len() ==> (#[trigger] roots@[a]) < (#[trigger] roots@[b]),
            forall|r: usize| #[trigger]
                roots@.contains(r) <==> r < i && nodes@[r as int].parent is None,
            child_lists(children@) =~= node_children(nodes@).take(i as int),
        decreases nodes@.len() - i,
    {
        let ghost roots0 = roots@;
        let ghost lists0 = child_lists(children@);
        if nodes[i].parent.is_none() {
            proof {
                assert forall|a: int| 0 <= a < roots@.len() implies (#[trigger] roots@[a]) < i by {
                    assert(roots@.contains(roots@[a]));
                }
            }
            roots.push(i);
            proof {
                assert forall|r: usize| #[trigger] roots@.contains(r) <==> roots0.contains(r) || r
                    == i by {
                    if roots0.contains(r) {
                        let j = choose|j: int| 0 <= j < roots0.len() && roots0[j] == r;
                        assert(roots@[j] == r);
                    }
                    if r == i {
                        assert(roots@[roots0.len() as int] == r);
                    }
                }
            }
        }
        children.push(crate::mesh::copied(&nodes[i].children));
        proof {
            assert(child_lists(children@) =~= lists0.push(nodes@[i as int].children@));
        }
        i += 1;
    }
    proof {
        assert(node_children(nodes@).take(i as int) =~= node_children(nodes@));
    }
    (roots, children)
}

/// In a hierarchy where children name the parents they lie below, every node on a walk comes
/// behind its parent: world placements rest on new placements only.
pub proof fn parents_come_first<T>(
    nodes: Seq<HierarchyNode<T>>,
    roots: Seq<usize>,
    order: Seq<usize>,
    i: int,
)
    requires
        consistent(nodes),
        is_root_list(nodes, roots),
        is_walk(roots, node_children(nodes), order),
        0 <= i < order.len(),
    ensures
        nodes[order[i] as int].parent matches Some(p) ==> order.take(i).contains(p),
{
    let lists = node_children(nodes);
    let n = order[i];
    assert(follows(roots, lists, order, i, n));
    if nodes[n as int].parent is Some {
        let p = nodes[n as int].parent->0;
        assert(!roots.contains(n)) by {
            if roots.contains(n) {
                assert(nodes[n as int].parent is None);
            }
        }
        let j = choose|j: int| 0 <= j < i && #[trigger] lists[order[j] as int].contains(n);
        let q = order[j];
        assert(order.contains(q));
        lemma_reachable_exists(roots, lists, q);
        assert(nodes[q as int].children@.contains(n));
        assert(q == p);
        assert(order.take(i)[j] == q);
    }
}

/// A child is placed inside the space of its parent: its place in the world takes a point to where
/// the place of the parent takes what the own placement of the child makes of the point. A node
/// without parent is where its own placement puts it. `act` tells where a placement takes a point;
/// of two placements put together it takes the second first.
pub proof fn children_live_in_the_space_of_their_parent<T, W, P, M: Fn(T) -> W, F: Fn(W, W) -> W>(
    matrix: M,
    times: F,
    act: spec_fn(W, P) -> P,
    local: T,
    parent: Option<W>,
    world: W,
    p: P,
)
    requires
        forall|a: W, b: W, c: W, x: P|
            #![trigger call_ensures(times, (a, b), c), act(c, x)]
            call_ensures(times, (a, b), c) ==> act(c, x) == act(a, act(b, x)),
        world_of(matrix, times, local, parent, world),
    ensures
        exists|own: W| #[trigger]
            call_ensures(matrix, (local,), own) && act(world, p) == match parent {
                Some(q) => act(q, act(own, p)),
                None => act(own, p),
            },
{
    let own = choose|own: W| #[trigger]
        call_ensures(matrix, (local,), own) && match parent {
            Some(q) => call_ensures(times, (q, own), world),
            None => world == own,
        };
    assert(act(world, p) == match parent {
        Some(q) => act(q, act(own, p)),
        None => act(own, p),
    });
}

/// After a propagation over a walk every node on it is where it belongs: a child of a node on the
/// walk inside the space of that node as it now is, a root where its own placement puts it. What
/// is not on the walk stays where it was.
pub proof fn propagated_worlds_nest<T, W, P, M: Fn(T) -> W, F: Fn(W, W) -> W>(
    matrix: M,
    times: F,
    act: spec_fn(W, P) -> P,
    nodes: Seq<HierarchyNode<T>>,
    roots: Seq<usize>,
    order: Seq<usize>,
    before: Seq<W>,
    after: Seq<W>,
    k: usize,
    p: P,
)
    requires
        forall|a: W, b: W, c: W, x: P|
            #![trigger call_ensures(times, (a, b), c), act(c, x)]
            call_ensures(times, (a, b), c) ==> act(c, x) == act(a, act(b, x)),
        consistent(nodes),
        before.len() == nodes.len(),
        is_root_list(nodes, roots),
        is_walk(roots, node_children(nodes), order),
        propagated(matrix, times, nodes, order, before, after, order.len() as int),
        k < nodes.len(),
    ensures
        after.len() == nodes.len(),
        !order.contains(k) ==> after[k as int] == before[k as int],
        order.contains(k) ==> exists|own: W| #[trigger]
            call_ensures(matrix, (nodes[k as int].local,), own) && match nodes[k as int].parent {
                Some(q) => q < nodes.len() && order.contains(q) && act(after[k as int], p) == act(
                    after[q as int],
                    act(own, p),
                ),
                None => after[k as int] == own,
            },
{
    assert(order.take(order.len() as int) =~= order);
    if order.contains(k) {
        let i = choose|i: int| 0 <= i < order.len() && order[i] == k;
        parents_come_first(nodes, roots, order, i);
        let own = choose|own: W| #[trigger]
            call_ensures(matrix, (nodes[k as int].local,), own) && match parent_world(
                nodes,
                order,
                before,
                after,
                i,
            ) {
                Some(q) => call_ensures(times, (q, own), after[k as int]),
                None => after[k as int] == own,
            };
        if let Some(q) = nodes[k as int].parent {
            let taken = order.take(i);
            let j = choose|j: int| 0 <= j < taken.len() && taken[j] == q;
            assert(order[j] == q);
            assert(order.contains(q));
            lemma_reachable_exists(roots, node_children(nodes), q);
            assert(act(after[k as int], p) == act(after[q as int], act(own, p)));
        }
    }
}

/// What can be reached is all there is below the roots and nothing else: every root, every child
/// of a reached node, and whatever list of nodes has the roots and the children of its nodes has
/// every reached node.
pub proof fn reached_nodes_are_those_below_the_roots(
    roots: Seq<usize>,
    children: ChildLists,
    closed_set: Set<usize>,
    n: usize,
    c: usize,
)
    ensures
        roots.contains(n) && n < children.len() ==> reachable(roots, children, n),
        reachable(roots, children, n) && children[n as int].contains(c) && c < children.len()
            ==> reachable(roots, children, c),
        reachable(roots, children, n) ==> n < children.len(),
        (forall|r: usize|
            roots.contains(r) && r < children.len() ==> #[trigger] closed_set.contains(r)) && (
        forall|a: usize, b: usize|
            closed_set.contains(a) && a < children.len() && #[trigger] children[a as int].contains(
                b,
            ) && b < children.len() ==> #[trigger] closed_set.contains(b)) && reachable(
            roots,
            children,
            n,
        ) ==> closed_set.contains(n),
{
    if roots.contains(n) && n < children.len() {
        lemma_root_reachable(roots, children, n);
    }
    if reachable(roots, children, n) {
        lemma_reachable_exists(roots, children, n);
        if children[n as int].contains(c) && c < children.len() {
            lemma_child_reachable(roots, children, n, c);
        }
        if (forall|r: usize|
            roots.contains(r) && r < children.len() ==> #[trigger] closed_set.contains(r)) && (
        forall|a: usize, b: usize|
            closed_set.contains(a) && a < children.len() && #[trigger] children[a as int].contains(
                b,
            ) && b < children.len() ==> #[trigger] closed_set.contains(b)) {
            let way = choose|way: Seq<usize>| #[trigger]
                is_way(roots, children, way) && way.last() == n;
            lemma_way_within(roots, children, closed_set, way);
        }
    }
}

proof fn lemma_way_within(
    roots: Seq<usize>,
    children: ChildLists,
    closed_set: Set<usize>,
    way: Seq<usize>,
)
    requires
        is_way(roots, children, way),
        forall|r: usize|
            roots.contains(r) && r < children.len() ==> #[trigger] closed_set.contains(r),
        forall|a: usize, b: usize|
            closed_set.contains(a) && a < children.len() && #[trigger] children[a as int].contains(
                b,
            ) && b < children.len() ==> #[trigger] closed_set.contains(b),
    ensures
        closed_set.contains(way.last()),
    decreases way.len(),
{
    assert(way[0] < children.len());
    if way.len() > 1 {
        let head = way.drop_last();
        assert(is_way(roots, children, head)) by {
            assert forall|i: int| 0 <= i < head.len() implies (#[trigger] head[i])
                < children.len() by {
                assert(way[i] < children.len());
            }
            assert forall|i: int|
                0 <= i < head.len() - 1 implies children[#[trigger] head[i] as int].contains(
                head[i + 1],
            ) by {
                assert(children[way[i] as int].contains(way[i + 1]));
            }
        }
        lemma_way_within(roots, children, closed_set, head);
        let k = way.len() - 2;
        assert(head.last() == way[k]);
        assert(children[way[k] as int].contains(way[k + 1]));
        assert(way[k] < children.len() && way[k + 1] < children.len());
    }
}

/// A walk has each node that can be reached once, each behind the node whose child it is.
pub proof fn walks_pass_every_reached_node_once(
    roots: Seq<usize>,
    children: ChildLists,
    order: Seq<usize>,
    i: int,
    j: int,
    n: usize,
)
    requires
        is_walk(roots, children, order),
        0 <= i < order.len(),
        0 <= j < order.len(),
    ensures
        order.contains(n) <==> reachable(roots, children, n),
        order[i] == order[j] ==> i == j,
        roots.contains(order[i]) || exists|k: int|
            0 <= k < i && #[trigger] children[order[k] as int].contains(order[i]),
{
    assert(follows(roots, children, order, i, order[i]));
}

/// A walk goes down before it goes on: all that lies below the top of the stack is taken before
/// anything under it, and what was taken stays in front. From one root it begins with that root.
pub proof fn walks_go_down_before_they_go_on(
    children: ChildLists,
    later: Seq<usize>,
    first: Seq<usize>,
    order: Seq<usize>,
    root: usize,
)
    ensures
        walk_from(children, later + first, order) == walk_from(
            children,
            later,
            walk_from(children, first, order),
        ),
        order.is_prefix_of(walk_from(children, first, order)),
        root < children.len() ==> walk_from(children, seq![root], seq![]).len() > 0 && walk_from(
            children,
            seq![root],
            seq![],
        )[0] == root,
{
    lemma_walk_splits(children, later, first, order);
    lemma_walk_extends(children, first, order);
    if root < children.len() {
        let one = seq![root];
        assert(one.drop_last() + children[root as int] =~= children[root as int]);
        let none = Seq::<usize>::empty();
        lemma_walk_extends(children, children[root as int], none.push(root));
        let all = walk_from(children, children[root as int], none.push(root));
        assert(all == walk_from(children, one, none));
        assert(all.take(1)[0] == root) by {
            assert(none.push(root) =~= all.take(1));
        }
    }
}

proof fn lemma_walk_splits(
    children: ChildLists,
    later: Seq<usize>,
    first: Seq<usize>,
    order: Seq<usize>,
)
    ensures
        walk_from(children, later + first, order) == walk_from(
            children,
            later,
            walk_from(children, first, order),
        ),
    decreases children.len() - order.len(), first.len(),
{
    if order.len() >= children.len() {
    } else if first.len() == 0 {
        assert(later + first =~= later);
    } else {
        let node = first.last();
        let rest = first.drop_last();
        let both = later + first;
        assert(both.last() == node);
        assert(both.drop_last() =~= later + rest);
        if node < children.len() && !order.contains(node) {
            assert(later + rest + children[node as int] =~= later + (rest
                + children[node as int]));
            lemma_walk_splits(
                children,
                later,
                rest + children[node as int],
                order.push(node),
            );
        } else {
            lemma_walk_splits(children, later, rest, order);
        }
    }
}

proof fn lemma_walk_extends(children: ChildLists, stack: Seq<usize>, order: Seq<usize>)
    ensures
        order.is_prefix_of(walk_from(children, stack, order)),
    decreases children.len() - order.len(), stack.len(),
{
    let all = walk_from(children, stack, order);
    if stack.len() == 0 || order.len() >= children.len() {
        assert(order =~= all.take(order.len() as int));
    } else {
        let node = stack.last();
        let rest = stack.drop_last();
        if node < children.len() && !order.contains(node) {
            let next = order.push(node);
            lemma_walk_extends(children, rest + children[node as int], next);
            assert(next =~= all.take(next.len() as int));
            assert(order =~= all.take(order.len() as int)) by {
                assert forall|i: int| 0 <= i < order.len() implies order[i] == all[i] by {
                    assert(next[i] == all.take(next.len() as int)[i]);
                }
            }
        } else {
            lemma_walk_extends(children, rest, order);
        }
    }
}

/// The roots of a hierarchy are its nodes without parent, in ascending order; the children of a node
/// are those that it lists.
pub proof fn roots_are_the_nodes_without_parent<T>(
    nodes: Seq<HierarchyNode<T>>,
    roots: Seq<usize>,
    r: usize,
    i: int,
    j: int,
)
    requires
        is_root_list(nodes, roots),
    ensures
        roots.contains(r) <==> r < nodes.len() && nodes[r as int].parent is None,
        0 <= i < j < roots.len() ==> roots[i] < roots[j],
        node_children(nodes).len() == nodes.len(),
        0 <= i < nodes.len() ==> node_children(nodes)[i] == nodes[i].children@,
{
}

/// Right after a node a walk takes the child that the node lists last, unless it took it before; and
/// it begins with the root that is listed last.
pub proof fn walks_take_the_last_child_next(children: ChildLists, roots: Seq<usize>, i: int)
    requires
        children.len() <= usize::MAX,
    ensures
        ({
            let order = walk_from(children, roots, seq![]);
            &&& roots.len() > 0 && roots.last() < children.len() ==> order.len() > 0 && order[0]
                == roots.last()
            &&& 0 <= i < order.len() && order[i] < children.len() && children[order[i] as int].len()
                > 0 && children[order[i] as int].last() < children.len() && !order.take(
                i + 1,
            ).contains(children[order[i] as int].last()) ==> i + 1 < order.len() && order[i + 1]
                == children[order[i] as int].last()
        }),
{
    let none = Seq::<usize>::empty();
    let order = walk_from(children, roots, none);
    if roots.len() > 0 && roots.last() < children.len() {
        let node = roots.last();
        let stack = roots.drop_last() + children[node as int];
        assert(order == walk_from(children, stack, none.push(node)));
        lemma_walk_extends(children, stack, none.push(node));
        assert(order.take(1)[0] == node) by {
            assert(none.push(node) =~= order.take(1));
        }
    }
    if 0 <= i < order.len() && order[i] < children.len() && children[order[i] as int].len() > 0
        && children[order[i] as int].last() < children.len() && !order.take(i + 1).contains(
        children[order[i] as int].last(),
    ) {
        lemma_next_taken(children, roots, none, i);
    }
}

proof fn lemma_next_taken(children: ChildLists, stack: Seq<usize>, order: Seq<usize>, i: int)
    requires
        children.len() <= usize::MAX,
        order.no_duplicates(),
        forall|j: int| 0 <= j < order.len() ==> (#[trigger] order[j]) < children.len(),
        order.len() <= i < walk_from(children, stack, order).len(),
        walk_from(children, stack, order)[i] < children.len(),
        children[walk_from(children, stack, order)[i] as int].len() > 0,
        children[walk_from(children, stack, order)[i] as int].last() < children.len(),
        !walk_from(children, stack, order).take(i + 1).contains(
            children[walk_from(children, stack, order)[i] as int].last(),
        ),
    ensures
        i + 1 < walk_from(children, stack, order).len(),
        walk_from(children, stack, order)[i + 1]
            == children[walk_from(children, stack, order)[i] as int].last(),
    decreases children.len() - order.len(), stack.len(),
{
    let all = walk_from(children, stack, order);
    let node = stack.last();
    let rest = stack.drop_last();
    if node < children.len() && !order.contains(node) {
        let total = children.len() as usize;
        let next = order.push(node);
        let deeper = rest + children[node as int];
        lemma_distinct_push(order, node, total);
        lemma_walk_extends(children, deeper, next);
        assert(next =~= all.take(next.len() as int));
        if i > order.len() {
            lemma_next_taken(children, deeper, next, i);
        } else {
            assert(all.take(next.len() as int)[i] == next[i]);
            assert(all[i] == node);
            let c = children[node as int].last();
            assert(deeper.last() == c);
            assert(all.take(i + 1) =~= next);
            lemma_distinct_push(next, c, total);
            let further = deeper.drop_last() + children[c as int];
            assert(all == walk_from(children, further, next.push(c)));
            lemma_walk_extends(children, further, next.push(c));
            assert(next.push(c) =~= all.take(next.len() as int + 1));
            assert(all.take(next.len() as int + 1)[i + 1] == c);
        }
    } else {
        lemma_next_taken(children, rest, order, i);
    }
}

/// A walk takes only nodes that are there.
pub(crate) proof fn lemma_walk_within(
    children: ChildLists,
    stack: Seq<usize>,
    order: Seq<usize>,
    i: int,
)
    requires
        forall|j: int| 0 <= j < order.len() ==> (#[trigger] order[j]) < children.len(),
        0 <= i < walk_from(children, stack, order).len(),
    ensures
        walk_from(children, stack, order)[i] < children.len(),
    decreases children.len() - order.len(), stack.len(),
{
    if stack.len() > 0 && order.len() < children.len() {
        let node = stack.last();
        let rest = stack.drop_last();
        if node < children.len() && !order.contains(node) {
            lemma_walk_within(children, rest + children[node as int], order.push(node), i);
        } else {
            lemma_walk_within(children, rest, order, i);
        }
    }
}

} // verus!
