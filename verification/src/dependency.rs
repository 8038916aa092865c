//! The dependency graph of content packs: circles in it, and where a new pack is placed.
use crate::lists::{lemma_filter_all, lemma_filter_both, lemma_filter_same};
use crate::pack::{subjects, PackError, PackIssue, PackTable, PackageModel, Requirements};
use crate::text::{copy_texts, first_index, lemma_first_index, position_of, texts};
use vstd::prelude::*;

verus! {

/// Pack `a` depends on pack `b`, and both are there.
pub open spec fn needs(
    packs: Map<Seq<char>, PackageModel>,
    a: Seq<char>,
    b: Seq<char>,
) -> bool {
    packs.contains_key(a) && packs.contains_key(b) && subjects(packs[a].dependencies).contains(b)
}

/// Each pack of the chain depends on the next.
pub open spec fn is_chain(packs: Map<Seq<char>, PackageModel>, p: Seq<Seq<char>>) -> bool {
    forall|i: int, j: int|
        0 <= i && j == i + 1 && j < p.len() ==> needs(packs, #[trigger] p[i], #[trigger] p[j])
}

/// A chain that comes back to where it began.
pub open spec fn is_cycle(packs: Map<Seq<char>, PackageModel>, p: Seq<Seq<char>>) -> bool {
    p.len() >= 2 && p[0] == p.last() && is_chain(packs, p)
}

pub open spec fn has_cycle(packs: Map<Seq<char>, PackageModel>) -> bool {
    exists|p: Seq<Seq<char>>| is_cycle(packs, p)
}

/// A chain whose last pack occurs in it before.
pub open spec fn closes_cycle(packs: Map<Seq<char>, PackageModel>, trace: Seq<Seq<char>>) -> bool {
    is_chain(packs, trace) && exists|k: int|
        0 <= k < trace.len() - 1 && #[trigger] trace[k] == trace.last()
}

/// A trace that closes a circle shows that there is one.
pub proof fn closing_trace_is_a_cycle(packs: Map<Seq<char>, PackageModel>, trace: Seq<Seq<char>>)
    requires
        closes_cycle(packs, trace),
    ensures
        has_cycle(packs),
{
    let k = choose|k: int| 0 <= k < trace.len() - 1 && #[trigger] trace[k] == trace.last();
    let p = trace.subrange(k, trace.len() as int);
    assert forall|i: int, j: int| 0 <= i && j == i + 1 && j < p.len() implies needs(
        packs,
        #[trigger] p[i],
        #[trigger] p[j],
    ) by {
        assert(needs(packs, trace[k + i], trace[k + j]));
    }
    assert(is_cycle(packs, p));
}

/// What a member of the set depends on is in the set.
spec fn closed_under(packs: Map<Seq<char>, PackageModel>, s: Set<Seq<char>>) -> bool {
    forall|a: Seq<char>, b: Seq<char>| s.contains(a) && #[trigger] needs(packs, a, b) ==> s.contains(b)
}

/// No circle begins in the set.
spec fn free_of_cycles(packs: Map<Seq<char>, PackageModel>, s: Set<Seq<char>>) -> bool {
    forall|p: Seq<Seq<char>>| #[trigger] is_cycle(packs, p) ==> !s.contains(p[0])
}

proof fn lemma_chain_stays(
    packs: Map<Seq<char>, PackageModel>,
    s: Set<Seq<char>>,
    p: Seq<Seq<char>>,
    k: int,
)
    requires
        closed_under(packs, s),
        is_chain(packs, p),
        1 <= k < p.len(),
        s.contains(p[1]),
    ensures
        s.contains(p[k]),
    decreases k,
{
    if k > 1 {
        lemma_chain_stays(packs, s, p, k - 1);
        assert(needs(packs, p[k - 1], p[k]));
    }
}

proof fn lemma_finish(packs: Map<Seq<char>, PackageModel>, s: Set<Seq<char>>, v: Seq<char>)
    requires
        closed_under(packs, s),
        free_of_cycles(packs, s),
        !s.contains(v),
        forall|b: Seq<char>| #[trigger] needs(packs, v, b) ==> s.contains(b),
    ensures
        closed_under(packs, s.insert(v)),
        free_of_cycles(packs, s.insert(v)),
{
    assert forall|p: Seq<Seq<char>>| #[trigger] is_cycle(packs, p) implies !s.insert(v).contains(
        p[0],
    ) by {
        if p[0] == v {
            assert(needs(packs, p[0], p[1]));
            lemma_chain_stays(packs, s, p, p.len() - 1);
        }
    }
}

/// State of a pack during the search.
#[derive(Clone, Copy, PartialEq, Eq, Structural)]
enum Mark {
    Unseen,
    Visiting,
    Done,
}

spec fn unseen(marks: Seq<Mark>) -> nat
    decreases marks.len(),
{
    if marks.len() == 0 {
        0
    } else {
        unseen(marks.drop_last()) + if marks.last() == Mark::Unseen {
            1nat
        } else {
            0nat
        }
    }
}

proof fn lemma_unseen_update(marks: Seq<Mark>, i: int, m: Mark)
    requires
        0 <= i < marks.len(),
        m != Mark::Unseen,
    ensures
        unseen(marks.update(i, m)) == unseen(marks) - if marks[i] == Mark::Unseen {
            1int
        } else {
            0int
        },
    decreases marks.len(),
{
    let head = marks.drop_last();
    if i == marks.len() - 1 {
        assert(marks.update(i, m).drop_last() =~= head);
    } else {
        assert(marks.update(i, m).drop_last() =~= head.update(i, m));
        lemma_unseen_update(head, i, m);
    }
}

/// The packs with the mark `Done`.
spec fn done_packs(list: Seq<(Seq<char>, PackageModel)>, marks: Seq<Mark>) -> Set<Seq<char>> {
    Set::new(
        |id: Seq<char>|
            exists|i: int|
                0 <= i < list.len() && (#[trigger] list[i]).0 == id && marks[i] == Mark::Done,
    )
}

/// What the search keeps: the path is a chain of exactly the packs being visited, and no circle
/// passes through a pack that is done.
spec fn search_state(table: &PackTable, marks: Seq<Mark>, path: Seq<Seq<char>>) -> bool {
    let list = table.listing();
    let done = done_packs(list, marks);
    &&& crate::pack::ascending(list)
    &&& table@ == crate::pack::as_map(list)
    &&& marks.len() == list.len()
    &&& is_chain(table@, path)
    &&& forall|j: int|
        0 <= j < list.len() ==> ((#[trigger] marks[j]) == Mark::Visiting <==> path.contains(list[j].0))
    &&& closed_under(table@, done)
    &&& free_of_cycles(table@, done)
}

/// The marks after the search has moved on: what was done or being visited is so still.
spec fn advanced(before: Seq<Mark>, after: Seq<Mark>) -> bool {
    &&& after.len() == before.len()
    &&& unseen(after) <= unseen(before)
    &&& forall|j: int|
        0 <= j < before.len() ==> {
            &&& before[j] == Mark::Done ==> (#[trigger] after[j]) == Mark::Done
            &&& before[j] == Mark::Visiting <==> after[j] == Mark::Visiting
        }
}

fn visit(table: &PackTable, i: usize, marks: &mut Vec<Mark>, path: &mut Vec<String>) -> (r: Result<
    (),
    PackError,
>)
    requires
        i < table.listing().len(),
        search_state(table, old(marks)@, texts(old(path)@)),
        old(path)@.len() > 0 ==> needs(
            table@,
            texts(old(path)@).last(),
            table.listing()[i as int].0,
        ),
    ensures
        r is Ok ==> {
            &&& search_state(table, final(marks)@, texts(final(path)@))
            &&& texts(final(path)@) == texts(old(path)@)
            &&& advanced(old(marks)@, final(marks)@)
            &&& final(marks)@[i as int] == Mark::Done
        },
        r matches Err(e) ==> e is Cycle && closes_cycle(table@, e@->Cycle_trace),
    decreases unseen(old(marks)@),
{
    let ghost list = table.listing();
    let ghost marks0 = marks@;
    let ghost path0 = texts(path@);
    let ghost id = list[i as int].0;
    if marks[i] == Mark::Done {
        return Ok(());
    }
    if marks[i] == Mark::Visiting {
        let mut trace = copy_texts(path);
        trace.push(table.id_at(i).clone());
        proof {
            let t = texts(trace@);
            assert(t =~= path0.push(id));
            assert(path0.contains(id));
            let k = choose|k: int| 0 <= k < path0.len() && path0[k] == id;
            assert(t[k] == t.last());
            assert forall|a: int, b: int| 0 <= a && b == a + 1 && b < t.len() implies needs(
                table@,
                #[trigger] t[a],
                #[trigger] t[b],
            ) by {
                if b == t.len() - 1 {
                    assert(t[a] == path0.last());
                } else {
                    assert(needs(table@, path0[a], path0[b]));
                }
            }
        }
        return Err(PackError::Cycle { trace });
    }
    marks.set(i, Mark::Visiting);
    path.push(table.id_at(i).clone());
    let ghost marks1 = marks@;
    let ghost path1 = texts(path@);
    proof {
        lemma_unseen_update(marks0, i as int, Mark::Visiting);
        assert(path1 =~= path0.push(id));
        assert(!path0.contains(id));
        assert(done_packs(list, marks1) =~= done_packs(list, marks0)) by {
            assert forall|x: Seq<char>|
                done_packs(list, marks1).contains(x) == done_packs(list, marks0).contains(x) by {
                if done_packs(list, marks1).contains(x) {
                    let k = choose|k: int|
                        0 <= k < list.len() && (#[trigger] list[k]).0 == x && marks1[k]
                            == Mark::Done;
                    assert(marks0[k] == Mark::Done);
                }
                if done_packs(list, marks0).contains(x) {
                    let k = choose|k: int|
                        0 <= k < list.len() && (#[trigger] list[k]).0 == x && marks0[k]
                            == Mark::Done;
                    assert(marks1[k] == Mark::Done);
                }
            }
        }
        assert forall|j: int| 0 <= j < list.len() implies ((#[trigger] marks1[j])
            == Mark::Visiting <==> path1.contains(list[j].0)) by {
            if j == i as int {
                assert(path1[path0.len() as int] == id);
            } else {
                assert(marks1[j] == marks0[j]);
                if path0.contains(list[j].0) {
                    let k = choose|k: int| 0 <= k < path0.len() && path0[k] == list[j].0;
                    assert(path1[k] == list[j].0);
                }
                if path1.contains(list[j].0) {
                    let k = choose|k: int| 0 <= k < path1.len() && path1[k] == list[j].0;
                    if k == path0.len() {
                        crate::pack::lemma_place(list, j);
                        crate::pack::lemma_place(list, i as int);
                    } else {
                        assert(path0[k] == list[j].0);
                    }
                }
            }
        }
        assert forall|a: int, b: int| 0 <= a && b == a + 1 && b < path1.len() implies needs(
            table@,
            #[trigger] path1[a],
            #[trigger] path1[b],
        ) by {
            if b == path1.len() - 1 {
                assert(path1[a] == path0.last());
            } else {
                assert(needs(table@, path0[a], path0[b]));
            }
        }
        crate::pack::lemma_place(list, i as int);
    }
    let pkg = table.package_at(i);
    let deps = &pkg.dependencies;
    let mut k: usize = 0;
    while k < deps.len()
        invariant
            i < list.len(),
            list == table.listing(),
            id == list[i as int].0,
            table@.contains_key(id),
            table@[id].dependencies == deps@,
            k <= deps@.len(),
            path1.len() > 0,
            path1.last() == id,
            search_state(table, marks@, texts(path@)),
            texts(path@) == path1,
            advanced(marks1, marks@),
            unseen(marks1) < unseen(marks0),
            unseen(old(marks)@) == unseen(marks0),
            forall|m: int|
                0 <= m < k && table@.contains_key((#[trigger] deps@[m]).0) ==> done_packs(
                    list,
                    marks@,
                ).contains(deps@[m].0),
        decreases deps@.len() - k,
    {
        let ghost marks2 = marks@;
        match table.find(deps.subject(k).as_str()) {
            Some(d) => {
                proof {
                    let dep = list[d as int].0;
                    assert(subjects(deps@)[k as int] == dep);
                    assert(needs(table@, id, dep));
                }
                match visit(table, d, marks, path) {
                    Ok(()) => {},
                    Err(e) => {
                        return Err(e);
                    },
                }
                proof {
                    assert(list[d as int].0 == deps@[k as int].0);
                    assert forall|m: int|
                        0 <= m < k + 1 && table@.contains_key(
                            (#[trigger] deps@[m]).0,
                        ) implies done_packs(list, marks@).contains(deps@[m].0) by {
                        if m < k {
                            let j = choose|j: int|
                                0 <= j < list.len() && (#[trigger] list[j]).0 == deps@[m].0
                                    && marks2[j] == Mark::Done;
                            assert(marks@[j] == Mark::Done);
                        }
                    }
                }
            },
            None => {},
        }
        k += 1;
    }
    let ghost full = path@;
    path.pop();
    let ghost marks3 = marks@;
    marks.set(i, Mark::Done);
    proof {
        assert(path@ == full.drop_last());
        assert(texts(full.drop_last()) =~= texts(full).drop_last());
        assert(path1.drop_last() =~= path0);
        let s = done_packs(list, marks3);
        assert(marks1[i as int] == Mark::Visiting);
        assert(marks3[i as int] == Mark::Visiting);
        lemma_unseen_update(marks3, i as int, Mark::Done);
        assert(!s.contains(id)) by {
            if s.contains(id) {
                let j = choose|j: int|
                    0 <= j < list.len() && (#[trigger] list[j]).0 == id && marks3[j] == Mark::Done;
                crate::pack::lemma_place(list, j);
                crate::pack::lemma_place(list, i as int);
            }
        }
        assert forall|b: Seq<char>| #[trigger] needs(table@, id, b) implies s.contains(b) by {
            let m = choose|m: int| 0 <= m < subjects(deps@).len() && subjects(deps@)[m] == b;
            assert(deps@[m].0 == b);
        }
        lemma_finish(table@, s, id);
        assert(done_packs(list, marks@) =~= s.insert(id)) by {
            assert forall|x: Seq<char>|
                done_packs(list, marks@).contains(x) == s.insert(id).contains(x) by {
                if done_packs(list, marks@).contains(x) {
                    let j = choose|j: int|
                        0 <= j < list.len() && (#[trigger] list[j]).0 == x && marks@[j]
                            == Mark::Done;
                    if j != i as int {
                        assert(marks3[j] == Mark::Done);
                    }
                }
                if s.contains(x) {
                    let j = choose|j: int|
                        0 <= j < list.len() && (#[trigger] list[j]).0 == x && marks3[j]
                            == Mark::Done;
                    assert(marks@[j] == Mark::Done);
                }
                if x == id {
                    assert(list[i as int].0 == x && marks@[i as int] == Mark::Done);
                }
            }
        }
        assert forall|j: int| 0 <= j < list.len() implies ((#[trigger] marks@[j])
            == Mark::Visiting <==> path0.contains(list[j].0)) by {
            if j != i as int {
                assert(marks@[j] == marks3[j]);
                assert(marks3[j] == Mark::Visiting <==> marks1[j] == Mark::Visiting);
                assert(marks1[j] == marks0[j]);
            }
        }
        assert forall|j: int| 0 <= j < marks0.len() implies {
            &&& marks0[j] == Mark::Done ==> (#[trigger] marks@[j]) == Mark::Done
            &&& marks0[j] == Mark::Visiting <==> marks@[j] == Mark::Visiting
        } by {
            if j != i as int {
                assert(marks1[j] == marks0[j]);
                assert(marks3[j] == marks@[j]);
            }
        }
    }
    Ok(())
}

/// Looks for packs whose dependencies run in a circle.
pub fn detect_cycle(table: &PackTable) -> (r: Result<(), PackError>)
    ensures
        r is Ok <==> !has_cycle(table@),
        r matches Err(e) ==> e is Cycle && closes_cycle(table@, e@->Cycle_trace),
{
    let n = table.len();
    let mut marks: Vec<Mark> = Vec::new();
    let mut i: usize = 0;
    while i < n
        invariant
            i <= n,
            marks@.len() == i,
            forall|j: int| 0 <= j < i ==> marks@[j] == Mark::Unseen,
        decreases n - i,
    {
        marks.push(Mark::Unseen);
        i += 1;
    }
    let mut path: Vec<String> = Vec::new();
    let ghost list = table.listing();
    proof {
        assert(texts(path@) =~= Seq::<Seq<char>>::empty());
        assert(done_packs(list, marks@) =~= Set::<Seq<char>>::empty());
    }
    let mut k: usize = 0;
    while k < n
        invariant
            k <= n == list.len(),
            list == table.listing(),
            search_state(table, marks@, texts(path@)),
            path@.len() == 0,
            forall|j: int| 0 <= j < k ==> marks@[j] == Mark::Done,
        decreases n - k,
    {
        let ghost before = marks@;
        match visit(table, k, &mut marks, &mut path) {
            Ok(()) => {
                proof {
                    assert(texts(path@).len() == path@.len());
                    assert forall|j: int| 0 <= j < k + 1 implies marks@[j] == Mark::Done by {
                        if j < k {
                            assert(before[j] == Mark::Done);
                        }
                    }
                }
            },
            Err(e) => {
                proof {
                    closing_trace_is_a_cycle(table@, e@->Cycle_trace);
                }
                return Err(e);
            },
        }
        k += 1;
    }
    proof {
        if has_cycle(table@) {
            let p = choose|p: Seq<Seq<char>>| is_cycle(table@, p);
            assert(needs(table@, p[0], p[1]));
            let j = crate::pack::place(list, p[0]);
            assert(crate::pack::listed(list, p[0]));
            assert(list[j].0 == p[0] && marks@[j] == Mark::Done);
            assert(done_packs(list, marks@).contains(p[0]));
        }
    }
    Ok(())
}

/// Place in the order of the last of the dependencies that occurs there; negative where none does.
pub open spec fn last_dependency(deps: Seq<Seq<char>>, order: Seq<Seq<char>>) -> int
    decreases deps.len(),
{
    if deps.len() == 0 {
        -1
    } else {
        let rest = last_dependency(deps.drop_last(), order);
        let k = first_index(order, deps.last());
        if k < order.len() && k > rest {
            k
        } else {
            rest
        }
    }
}

/// Where a pack with these dependencies goes: right behind the last of them, or at the end.
pub open spec fn slot_for(deps: Seq<Seq<char>>, order: Seq<Seq<char>>) -> int {
    let p = last_dependency(deps, order);
    if p >= 0 {
        p + 1
    } else {
        order.len() as int
    }
}

/// The order with the pack `id` and everything it needs in it. `stack` holds the packs that
/// wait for `id`. A pack goes behind its dependencies, which are placed first, in the order in
/// which the pack lists them.
pub open spec fn with_pack(
    packs: Map<Seq<char>, PackageModel>,
    order: Seq<Seq<char>>,
    id: Seq<char>,
    stack: Seq<Seq<char>>,
) -> Result<Seq<Seq<char>>, PackIssue>
    decreases packs.dom().len() - stack.len(), 0nat,
{
    if order.contains(id) {
        Ok(order)
    } else if stack.contains(id) || stack.len() >= packs.dom().len() {
        Err(PackIssue::Cycle { trace: stack.push(id) })
    } else {
        match with_dependencies(packs, order, id, 0, stack.push(id)) {
            Err(e) => Err(e),
            Ok(o) => Ok(o.insert(slot_for(subjects(packs[id].dependencies), o), id)),
        }
    }
}

/// The order with the dependencies of `id` from number `k` on in it.
pub open spec fn with_dependencies(
    packs: Map<Seq<char>, PackageModel>,
    order: Seq<Seq<char>>,
    id: Seq<char>,
    k: nat,
    stack: Seq<Seq<char>>,
) -> Result<Seq<Seq<char>>, PackIssue>
    decreases packs.dom().len() - stack.len(), packs[id].dependencies.len() - k + 1,
{
    let deps = packs[id].dependencies;
    if k >= deps.len() {
        Ok(order)
    } else if !packs.contains_key(deps[k as int].0) {
        Err(PackIssue::UnmetDependency { pack: id, dependency: deps[k as int].0 })
    } else {
        match with_pack(packs, order, deps[k as int].0, stack) {
            Err(e) => Err(e),
            Ok(o) => with_dependencies(packs, o, id, k + 1, stack),
        }
    }
}

proof fn lemma_last_dependency(deps: Seq<Seq<char>>, order: Seq<Seq<char>>)
    ensures
        -1 <= last_dependency(deps, order) < order.len(),
        0 <= slot_for(deps, order) <= order.len(),
        forall|k: int|
            0 <= k < deps.len() && order.contains(#[trigger] deps[k]) ==> first_index(order, deps[k])
                <= last_dependency(deps, order),
    decreases deps.len(),
{
    if deps.len() > 0 {
        lemma_last_dependency(deps.drop_last(), order);
        lemma_first_index(order, deps.last());
        assert forall|k: int| 0 <= k < deps.len() && order.contains(#[trigger] deps[k]) implies first_index(
            order,
            deps[k],
        ) <= last_dependency(deps, order) by {
            lemma_first_index(order, deps[k]);
            if k < deps.len() - 1 {
                assert(deps.drop_last()[k] == deps[k]);
            }
        }
    }
}

fn find_slot(deps: &Requirements, order: &Vec<String>) -> (slot: usize)
    ensures
        slot == slot_for(subjects(deps@), texts(order@)),
        slot <= order@.len(),
{
    let ghost names = subjects(deps@);
    let ghost ids = texts(order@);
    let mut last: Option<usize> = None;
    let mut k: usize = 0;
    let n = order.len();
    proof {
        assert(names.take(0) =~= Seq::<Seq<char>>::empty());
    }
    while k < deps.len()
        invariant
            k <= deps@.len(),
            names == subjects(deps@),
            ids == texts(order@),
            n == order@.len(),
            match last {
                None => last_dependency(names.take(k as int), ids) == -1,
                Some(p) => last_dependency(names.take(k as int), ids) == p && p < order@.len(),
            },
        decreases deps@.len() - k,
    {
        let at = position_of(order, deps.subject(k));
        proof {
            assert(names.take(k as int + 1).drop_last() =~= names.take(k as int));
            assert(names.take(k as int + 1).last() == deps@[k as int].0);
        }
        if at < order.len() {
            match last {
                None => {
                    last = Some(at);
                },
                Some(p) => {
                    if at > p {
                        last = Some(at);
                    }
                },
            }
        }
        k += 1;
    }
    proof {
        assert(names.take(k as int) =~= names);
    }
    match last {
        None => n,
        Some(p) => p + 1,
    }
}

/// The waiting packs: all of them are there, and none waits twice.
pub open spec fn waiting(packs: Map<Seq<char>, PackageModel>, stack: Seq<Seq<char>>) -> bool {
    &&& stack.no_duplicates()
    &&& forall|i: int| 0 <= i < stack.len() ==> packs.contains_key(#[trigger] stack[i])
}

proof fn lemma_waiting_bounded(
    packs: Map<Seq<char>, PackageModel>,
    stack: Seq<Seq<char>>,
    id: Seq<char>,
)
    requires
        packs.dom().finite(),
        waiting(packs, stack),
        packs.contains_key(id),
        !stack.contains(id),
    ensures
        stack.len() < packs.dom().len(),
        waiting(packs, stack.push(id)),
{
    let full = stack.push(id);
    assert(full.no_duplicates()) by {
        assert forall|i: int, j: int| 0 <= i < full.len() && 0 <= j < full.len() && i != j implies full[i]
            != full[j] by {
            if i == stack.len() {
                assert(stack[j] == full[j]);
            } else if j == stack.len() {
                assert(stack[i] == full[i]);
            }
        }
    }
    full.unique_seq_to_set();
    assert(full.to_set().subset_of(packs.dom())) by {
        assert forall|x: Seq<char>| full.to_set().contains(x) implies packs.dom().contains(x) by {
            let i = choose|i: int| 0 <= i < full.len() && full[i] == x;
            if i < stack.len() {
                assert(packs.contains_key(stack[i]));
            }
        }
    }
    vstd::set_lib::lemma_len_subset(full.to_set(), packs.dom());
}

/// Inserts a pack and everything it needs into the order.
pub(crate) fn insert_pack(
    table: &PackTable,
    id: &String,
    order: &mut Vec<String>,
    stack: &mut Vec<String>,
) -> (r: Result<(), PackError>)
    requires
        table@.dom().finite(),
        table@.contains_key(id@),
        waiting(table@, texts(old(stack)@)),
    ensures
        match with_pack(table@, texts(old(order)@), id@, texts(old(stack)@)) {
            Ok(o) => r is Ok && texts(final(order)@) == o && texts(final(stack)@) == texts(
                old(stack)@,
            ),
            Err(e) => r is Err && r->Err_0@ == e,
        },
    decreases table@.dom().len() - old(stack)@.len(),
{
    let ghost packs = table@;
    let ghost order0 = texts(order@);
    let ghost stack0 = texts(stack@);
    let known = position_of(order, id);
    if known < order.len() {
        return Ok(());
    }
    if position_of(stack, id) < stack.len() {
        let mut trace = copy_texts(stack);
        trace.push(id.clone());
        proof {
            assert(texts(trace@) =~= stack0.push(id@));
        }
        return Err(PackError::Cycle { trace });
    }
    proof {
        lemma_waiting_bounded(packs, stack0, id@);
    }
    let pkg = match table.get(id.as_str()) {
        Some(pkg) => pkg,
        None => {
            return Ok(());
        },
    };
    stack.push(id.clone());
    let ghost stack1 = texts(stack@);
    proof {
        assert(stack1 =~= stack0.push(id@));
    }
    let deps = &pkg.dependencies;
    let mut k: usize = 0;
    while k < deps.len()
        invariant
            packs == table@,
            packs.dom().finite(),
            packs.contains_key(id@),
            packs[id@].dependencies == deps@,
            k <= deps@.len(),
            texts(stack@) == stack1,
            stack1 == stack0.push(id@),
            stack0.len() == old(stack)@.len(),
            stack0.len() < packs.dom().len(),
            waiting(packs, stack1),
            with_dependencies(packs, order0, id@, 0, stack1) == with_dependencies(
                packs,
                texts(order@),
                id@,
                k as nat,
                stack1,
            ),
            with_pack(packs, order0, id@, stack0) == match with_dependencies(
                packs,
                order0,
                id@,
                0,
                stack1,
            ) {
                Err(e) => Err(e),
                Ok(o) => Ok(o.insert(slot_for(subjects(packs[id@].dependencies), o), id@)),
            },
            order0 == texts(old(order)@),
            stack0 == texts(old(stack)@),
        decreases deps@.len() - k,
    {
        let dep = deps.subject(k);
        if !table.contains_key(dep.as_str()) {
            return Err(
                PackError::UnmetDependency { pack: id.clone(), dependency: dep.clone() },
            );
        }
        proof {
            assert(texts(stack@).len() == stack@.len());
        }
        match insert_pack(table, dep, order, stack) {
            Ok(()) => {},
            Err(e) => {
                return Err(e);
            },
        }
        k += 1;
    }
    let ghost full = stack@;
    stack.pop();
    let slot = find_slot(deps, order);
    let ghost placed = order@;
    order.insert(slot, id.clone());
    proof {
        assert(stack@ == full.drop_last());
        assert(texts(full.drop_last()) =~= texts(full).drop_last());
        assert(stack1.drop_last() =~= stack0);
        assert(texts(order@) =~= texts(placed).insert(slot as int, id@));
    }
    Ok(())
}

/// `after` is `before` with other packs put in between.
pub open spec fn interleaves(before: Seq<Seq<char>>, after: Seq<Seq<char>>) -> bool {
    after.filter(|x: Seq<char>| before.contains(x)) == before
}

/// All dependencies of `x` stand in the order, in front of `x`.
pub open spec fn behind_dependencies(
    packs: Map<Seq<char>, PackageModel>,
    order: Seq<Seq<char>>,
    x: Seq<char>,
) -> bool {
    forall|d: Seq<char>| #[trigger]
        subjects(packs[x].dependencies).contains(d) ==> order.contains(d) && first_index(order, d)
            < first_index(order, x)
}

/// What placing packs does to an order.
pub open spec fn grows(
    packs: Map<Seq<char>, PackageModel>,
    before: Seq<Seq<char>>,
    after: Seq<Seq<char>>,
) -> bool {
    &&& interleaves(before, after)
    &&& forall|x: Seq<char>| before.contains(x) ==> #[trigger] after.contains(x)
    &&& forall|x: Seq<char>| #[trigger]
        after.contains(x) && !before.contains(x) ==> packs.contains_key(x) && behind_dependencies(
            packs,
            after,
            x,
        )
    &&& forall|x: Seq<char>, y: Seq<char>|
        before.contains(x) && before.contains(y) && #[trigger] first_index(before, x)
            < #[trigger] first_index(before, y) ==> first_index(after, x) < first_index(after, y)
    &&& before.no_duplicates() ==> after.no_duplicates()
}

proof fn lemma_insert_index(o: Seq<Seq<char>>, p: int, id: Seq<char>, x: Seq<char>)
    requires
        0 <= p <= o.len(),
        !o.contains(id),
    ensures
        o.insert(p, id).contains(x) <==> o.contains(x) || x == id,
        x == id ==> first_index(o.insert(p, id), x) == p,
        o.contains(x) ==> first_index(o.insert(p, id), x) == first_index(o, x) + if p
            <= first_index(o, x) {
            1int
        } else {
            0int
        },
{
    let o2 = o.insert(p, id);
    lemma_first_index(o, x);
    lemma_first_index(o, id);
    if x == id {
        assert(o2[p] == id);
        assert forall|i: int| 0 <= i < p implies o2[i] != id by {
            assert(o2[i] == o[i]);
            assert(o.contains(o[i]));
        }
        crate::text::lemma_first_index_is(o2, id, p);
    } else if o.contains(x) {
        let f = first_index(o, x);
        let f2 = if p <= f {
            f + 1
        } else {
            f
        };
        assert(o2[f2] == x);
        assert forall|i: int| 0 <= i < f2 implies o2[i] != x by {
            if i < p {
                assert(o2[i] == o[i]);
            } else if i > p {
                assert(o2[i] == o[i - 1]);
            }
        }
        crate::text::lemma_first_index_is(o2, x, f2);
    }
    if o2.contains(x) {
        let i = choose|i: int| 0 <= i < o2.len() && o2[i] == x;
        if i < p {
            assert(o[i] == x);
        } else if i > p {
            assert(o[i - 1] == x);
        }
    }
}

proof fn lemma_filter_insert(
    o: Seq<Seq<char>>,
    p: int,
    id: Seq<char>,
    f: spec_fn(Seq<char>) -> bool,
)
    requires
        0 <= p <= o.len(),
        !f(id),
    ensures
        o.insert(p, id).filter(f) == o.filter(f),
{
    let a = o.take(p);
    let b = o.skip(p);
    assert(o =~= a + b);
    assert(o.insert(p, id) =~= (a + seq![id]) + b);
    Seq::filter_distributes_over_add(a, b, f);
    Seq::filter_distributes_over_add(a + seq![id], b, f);
    Seq::filter_distributes_over_add(a, seq![id], f);
    assert(seq![id].filter(f) =~= Seq::<Seq<char>>::empty()) by {
        reveal_with_fuel(Seq::filter, 2);
        assert(seq![id].drop_last() =~= Seq::<Seq<char>>::empty());
    }
    assert(a.filter(f) + Seq::<Seq<char>>::empty() =~= a.filter(f));
}

proof fn lemma_grows_reflexive(packs: Map<Seq<char>, PackageModel>, a: Seq<Seq<char>>)
    ensures
        grows(packs, a, a),
{
    lemma_filter_all(a, |x: Seq<char>| a.contains(x));
}

proof fn lemma_grows_transitive(
    packs: Map<Seq<char>, PackageModel>,
    a: Seq<Seq<char>>,
    b: Seq<Seq<char>>,
    c: Seq<Seq<char>>,
)
    requires
        grows(packs, a, b),
        grows(packs, b, c),
    ensures
        grows(packs, a, c),
{
    let f = |x: Seq<char>| b.contains(x);
    let g = |x: Seq<char>| a.contains(x);
    lemma_filter_both(c, f, g);
    let both = |x: Seq<char>| f(x) && g(x);
    assert forall|x: Seq<char>| c.contains(x) implies (#[trigger] both(x) <==> g(x)) by {}
    lemma_filter_same(c, both, g);
    assert(c.filter(f) == b);
    assert(b.filter(g) == a);
    assert forall|x: Seq<char>| #[trigger] c.contains(x) && !a.contains(x) implies packs.contains_key(x)
        && behind_dependencies(packs, c, x) by {
        if b.contains(x) {
            assert(behind_dependencies(packs, b, x));
            assert forall|d: Seq<char>| #[trigger]
                subjects(packs[x].dependencies).contains(d) implies c.contains(d) && first_index(
                c,
                d,
            ) < first_index(c, x) by {
                assert(b.contains(d));
                assert(first_index(b, d) < first_index(b, x));
            }
        }
    }
}

proof fn lemma_insert_distinct(o: Seq<Seq<char>>, p: int, id: Seq<char>)
    requires
        0 <= p <= o.len(),
        !o.contains(id),
        o.no_duplicates(),
    ensures
        o.insert(p, id).no_duplicates(),
{
    let o2 = o.insert(p, id);
    assert forall|i: int, j: int| 0 <= i < o2.len() && 0 <= j < o2.len() && i != j implies o2[i]
        != o2[j] by {
        let a = if i < p {
            i
        } else {
            i - 1
        };
        let b = if j < p {
            j
        } else {
            j - 1
        };
        if i != p {
            assert(o2[i] == o[a]);
            assert(o.contains(o[a]));
        }
        if j != p {
            assert(o2[j] == o[b]);
            assert(o.contains(o[b]));
        }
    }
}

proof fn lemma_insert_behind(
    packs: Map<Seq<char>, PackageModel>,
    o: Seq<Seq<char>>,
    id: Seq<char>,
)
    requires
        !o.contains(id),
        forall|d: Seq<char>| #[trigger]
            subjects(packs[id].dependencies).contains(d) ==> o.contains(d),
    ensures
        behind_dependencies(
            packs,
            o.insert(slot_for(subjects(packs[id].dependencies), o), id),
            id,
        ),
{
    let deps = subjects(packs[id].dependencies);
    let p = slot_for(deps, o);
    let o2 = o.insert(p, id);
    lemma_last_dependency(deps, o);
    lemma_insert_index(o, p, id, id);
    assert forall|d: Seq<char>| #[trigger] subjects(packs[id].dependencies).contains(
        d,
    ) implies o2.contains(d) && first_index(o2, d) < first_index(o2, id) by {
        let k = choose|k: int| 0 <= k < deps.len() && deps[k] == d;
        assert(o.contains(deps[k]));
        lemma_first_index(o, d);
        lemma_insert_index(o, p, id, d);
    }
}

proof fn lemma_grows_insert(
    packs: Map<Seq<char>, PackageModel>,
    o: Seq<Seq<char>>,
    id: Seq<char>,
)
    requires
        packs.contains_key(id),
        !o.contains(id),
        forall|d: Seq<char>| #[trigger]
            subjects(packs[id].dependencies).contains(d) ==> o.contains(d),
    ensures
        grows(packs, o, o.insert(slot_for(subjects(packs[id].dependencies), o), id)),
        o.insert(slot_for(subjects(packs[id].dependencies), o), id).contains(id),
{
    let deps = subjects(packs[id].dependencies);
    let p = slot_for(deps, o);
    let o2 = o.insert(p, id);
    lemma_last_dependency(deps, o);
    lemma_insert_index(o, p, id, id);
    assert forall|x: Seq<char>| o.contains(x) implies #[trigger] o2.contains(x) by {
        lemma_insert_index(o, p, id, x);
    }
    assert forall|x: Seq<char>| #[trigger] o2.contains(x) && !o.contains(x) implies packs.contains_key(x)
        && behind_dependencies(packs, o2, x) by {
        lemma_insert_index(o, p, id, x);
        lemma_insert_behind(packs, o, id);
    }
    assert forall|x: Seq<char>, y: Seq<char>|
        o.contains(x) && o.contains(y) && #[trigger] first_index(o, x) < #[trigger] first_index(
            o,
            y,
        ) implies first_index(o2, x) < first_index(o2, y) by {
        lemma_insert_index(o, p, id, x);
        lemma_insert_index(o, p, id, y);
    }
    let f = |x: Seq<char>| o.contains(x);
    lemma_filter_insert(o, p, id, f);
    lemma_filter_all(o, f);
    if o.no_duplicates() {
        lemma_insert_distinct(o, p, id);
    }
}

/// Everything that follows from placing one pack: what the new order holds when it succeeds,
/// and what is wrong with the packs when it fails.
proof fn lemma_with_pack(
    packs: Map<Seq<char>, PackageModel>,
    order: Seq<Seq<char>>,
    id: Seq<char>,
    stack: Seq<Seq<char>>,
)
    requires
        packs.dom().finite(),
        packs.contains_key(id),
        waiting(packs, stack),
        is_chain(packs, stack),
        stack.len() > 0 ==> needs(packs, stack.last(), id),
        forall|i: int| 0 <= i < stack.len() ==> !order.contains(#[trigger] stack[i]),
    ensures
        match with_pack(packs, order, id, stack) {
            Ok(o) => grows(packs, order, o) && o.contains(id) && forall|i: int|
                0 <= i < stack.len() ==> !o.contains(#[trigger] stack[i]),
            Err(e) => blames(packs, order, e),
        },
    decreases packs.dom().len() - stack.len(), 0nat,
{
    if order.contains(id) {
        lemma_grows_reflexive(packs, order);
    } else if stack.contains(id) {
        let t = stack.push(id);
        assert(is_chain(packs, t)) by {
            assert forall|a: int, b: int| 0 <= a && b == a + 1 && b < t.len() implies needs(
                packs,
                #[trigger] t[a],
                #[trigger] t[b],
            ) by {
                if b < stack.len() {
                    assert(needs(packs, stack[a], stack[b]));
                }
            }
        }
        let k = choose|k: int| 0 <= k < stack.len() && stack[k] == id;
        assert(t[k] == t.last());
    } else {
        lemma_waiting_bounded(packs, stack, id);
        let t = stack.push(id);
        assert(is_chain(packs, t)) by {
            assert forall|a: int, b: int| 0 <= a && b == a + 1 && b < t.len() implies needs(
                packs,
                #[trigger] t[a],
                #[trigger] t[b],
            ) by {
                if b < stack.len() {
                    assert(needs(packs, stack[a], stack[b]));
                }
            }
        }
        assert forall|i: int| 0 <= i < t.len() implies !order.contains(#[trigger] t[i]) by {
            if i < stack.len() {
                assert(t[i] == stack[i]);
            }
        }
        lemma_with_dependencies(packs, order, id, 0, t);
        match with_dependencies(packs, order, id, 0, t) {
            Ok(o) => {
                assert(!o.contains(t[t.len() - 1]));
                lemma_grows_insert(packs, o, id);
                let o2 = o.insert(slot_for(subjects(packs[id].dependencies), o), id);
                lemma_grows_transitive(packs, order, o, o2);
                lemma_last_dependency(subjects(packs[id].dependencies), o);
                assert forall|i: int| 0 <= i < stack.len() implies !o2.contains(
                    #[trigger] stack[i],
                ) by {
                    assert(t[i] == stack[i]);
                    lemma_insert_index(
                        o,
                        slot_for(subjects(packs[id].dependencies), o),
                        id,
                        stack[i],
                    );
                }
            },
            Err(e) => {},
        }
    }
}

proof fn lemma_with_dependencies(
    packs: Map<Seq<char>, PackageModel>,
    order: Seq<Seq<char>>,
    id: Seq<char>,
    k: nat,
    stack: Seq<Seq<char>>,
)
    requires
        packs.dom().finite(),
        packs.contains_key(id),
        waiting(packs, stack),
        is_chain(packs, stack),
        stack.len() > 0,
        stack.last() == id,
        k <= packs[id].dependencies.len(),
        forall|i: int| 0 <= i < stack.len() ==> !order.contains(#[trigger] stack[i]),
        forall|j: int| 0 <= j < k ==> order.contains((#[trigger] packs[id].dependencies[j]).0),
    ensures
        match with_dependencies(packs, order, id, k, stack) {
            Ok(o) => {
                &&& grows(packs, order, o)
                &&& forall|i: int| 0 <= i < stack.len() ==> !o.contains(#[trigger] stack[i])
                &&& forall|d: Seq<char>| #[trigger]
                    subjects(packs[id].dependencies).contains(d) ==> o.contains(d)
            },
            Err(e) => blames(packs, order, e),
        },
    decreases packs.dom().len() - stack.len(), packs[id].dependencies.len() - k + 1,
{
    let deps = packs[id].dependencies;
    assert(!order.contains(stack[stack.len() - 1]));
    if k >= deps.len() {
        lemma_grows_reflexive(packs, order);
        assert forall|d: Seq<char>| #[trigger] subjects(deps).contains(d) implies order.contains(
            d,
        ) by {
            let j = choose|j: int| 0 <= j < subjects(deps).len() && subjects(deps)[j] == d;
            assert(order.contains(deps[j].0));
        }
    } else if !packs.contains_key(deps[k as int].0) {
        assert(subjects(deps)[k as int] == deps[k as int].0);
    } else {
        let d = deps[k as int].0;
        assert(subjects(deps)[k as int] == d);
        assert(needs(packs, id, d));
        lemma_with_pack(packs, order, d, stack);
        match with_pack(packs, order, d, stack) {
            Ok(o) => {
                assert forall|j: int| 0 <= j < k + 1 implies o.contains((#[trigger] deps[j]).0) by {
                    if j < k {
                        assert(order.contains(deps[j].0));
                    }
                }
                lemma_with_dependencies(packs, o, id, k + 1, stack);
                match with_dependencies(packs, o, id, k + 1, stack) {
                    Ok(o2) => {
                        lemma_grows_transitive(packs, order, o, o2);
                    },
                    Err(e) => {
                        lemma_blame_earlier(packs, order, o, e);
                    },
                }
            },
            Err(e) => {},
        }
    }
}

/// The issue names a fault that the packs really have: a circle, or a pack that is still to be
/// placed and lacks a dependency.
pub open spec fn blames(
    packs: Map<Seq<char>, PackageModel>,
    order: Seq<Seq<char>>,
    issue: PackIssue,
) -> bool {
    match issue {
        PackIssue::Cycle { trace } => closes_cycle(packs, trace),
        PackIssue::UnmetDependency { pack, dependency } => {
            &&& packs.contains_key(pack)
            &&& !order.contains(pack)
            &&& subjects(packs[pack].dependencies).contains(dependency)
            &&& !packs.contains_key(dependency)
        },
        _ => false,
    }
}

proof fn lemma_blame_earlier(
    packs: Map<Seq<char>, PackageModel>,
    before: Seq<Seq<char>>,
    after: Seq<Seq<char>>,
    issue: PackIssue,
)
    requires
        grows(packs, before, after),
        blames(packs, after, issue),
    ensures
        blames(packs, before, issue),
{
}

/// The order with every pack of the list from number `k` on placed in it.
pub open spec fn with_all(
    packs: Map<Seq<char>, PackageModel>,
    ids: Seq<Seq<char>>,
    k: nat,
    order: Seq<Seq<char>>,
) -> Result<Seq<Seq<char>>, PackIssue>
    decreases ids.len() - k,
{
    if k >= ids.len() {
        Ok(order)
    } else {
        match with_pack(packs, order, ids[k as int], seq![]) {
            Err(e) => Err(e),
            Ok(o) => with_all(packs, ids, k + 1, o),
        }
    }
}

/// Placing packs one after another grows the order until all of them are in it, or stops at a
/// fault that the packs really have.
pub proof fn placing_all_grows(
    packs: Map<Seq<char>, PackageModel>,
    ids: Seq<Seq<char>>,
    k: nat,
    order: Seq<Seq<char>>,
)
    requires
        packs.dom().finite(),
        forall|i: int| 0 <= i < ids.len() ==> packs.contains_key(#[trigger] ids[i]),
    ensures
        match with_all(packs, ids, k, order) {
            Ok(o) => grows(packs, order, o) && forall|i: int|
                k <= i < ids.len() ==> o.contains(#[trigger] ids[i]),
            Err(e) => blames(packs, order, e),
        },
    decreases ids.len() - k,
{
    if k >= ids.len() {
        lemma_grows_reflexive(packs, order);
    } else {
        let empty = Seq::<Seq<char>>::empty();
        lemma_with_pack(packs, order, ids[k as int], empty);
        match with_pack(packs, order, ids[k as int], empty) {
            Ok(o) => {
                placing_all_grows(packs, ids, k + 1, o);
                match with_all(packs, ids, k + 1, o) {
                    Ok(o2) => {
                        lemma_grows_transitive(packs, order, o, o2);
                    },
                    Err(e) => {
                        lemma_blame_earlier(packs, order, o, e);
                    },
                }
            },
            Err(e) => {},
        }
    }
}

/// Packs do not depend on each other in a circle where every pack can be given a height above those
/// of all its dependencies. A pack that depends on itself, and two that depend on each other, do.
pub proof fn heights_rule_out_cycles(
    packs: Map<Seq<char>, PackageModel>,
    height: spec_fn(Seq<char>) -> nat,
    a: Seq<char>,
    b: Seq<char>,
)
    ensures
        (forall|x: Seq<char>, k: int|
            packs.contains_key(x) && 0 <= k < packs[x].dependencies.len() && packs.contains_key(
                (#[trigger] packs[x].dependencies[k]).0,
            ) ==> height(packs[x].dependencies[k].0) < height(x)) ==> !has_cycle(packs),
        packs.contains_key(a) && (exists|k: int|
            0 <= k < packs[a].dependencies.len() && (#[trigger] packs[a].dependencies[k]).0 == a)
            ==> has_cycle(packs),
        packs.contains_key(a) && packs.contains_key(b) && (exists|k: int|
            0 <= k < packs[a].dependencies.len() && (#[trigger] packs[a].dependencies[k]).0 == b)
            && (exists|k: int|
            0 <= k < packs[b].dependencies.len() && (#[trigger] packs[b].dependencies[k]).0 == a)
            ==> has_cycle(packs),
{
    if (forall|x: Seq<char>, k: int|
        packs.contains_key(x) && 0 <= k < packs[x].dependencies.len() && packs.contains_key(
            (#[trigger] packs[x].dependencies[k]).0,
        ) ==> height(packs[x].dependencies[k].0) < height(x)) && has_cycle(packs) {
        let p = choose|p: Seq<Seq<char>>| is_cycle(packs, p);
        lemma_heights_fall(packs, height, p, p.len() - 1);
    }
    if packs.contains_key(a) && exists|k: int|
        0 <= k < packs[a].dependencies.len() && (#[trigger] packs[a].dependencies[k]).0 == a {
        lemma_needs(packs, a, a);
        assert(is_cycle(packs, seq![a, a]));
    }
    if packs.contains_key(a) && packs.contains_key(b) && (exists|k: int|
        0 <= k < packs[a].dependencies.len() && (#[trigger] packs[a].dependencies[k]).0 == b) && (
    exists|k: int|
        0 <= k < packs[b].dependencies.len() && (#[trigger] packs[b].dependencies[k]).0 == a) {
        lemma_needs(packs, a, b);
        lemma_needs(packs, b, a);
        assert(is_cycle(packs, seq![a, b, a]));
    }
}

proof fn lemma_needs(packs: Map<Seq<char>, PackageModel>, a: Seq<char>, b: Seq<char>)
    requires
        packs.contains_key(a),
        packs.contains_key(b),
        exists|k: int|
            0 <= k < packs[a].dependencies.len() && (#[trigger] packs[a].dependencies[k]).0 == b,
    ensures
        needs(packs, a, b),
{
    let k = choose|k: int|
        0 <= k < packs[a].dependencies.len() && (#[trigger] packs[a].dependencies[k]).0 == b;
    assert(subjects(packs[a].dependencies)[k] == b);
}

proof fn lemma_heights_fall(
    packs: Map<Seq<char>, PackageModel>,
    height: spec_fn(Seq<char>) -> nat,
    p: Seq<Seq<char>>,
    n: int,
)
    requires
        is_chain(packs, p),
        0 <= n < p.len(),
        forall|x: Seq<char>, k: int|
            packs.contains_key(x) && 0 <= k < packs[x].dependencies.len() && packs.contains_key(
                (#[trigger] packs[x].dependencies[k]).0,
            ) ==> height(packs[x].dependencies[k].0) < height(x),
    ensures
        height(p[n]) + n <= height(p[0]),
    decreases n,
{
    if n > 0 {
        lemma_heights_fall(packs, height, p, n - 1);
        assert(needs(packs, p[n - 1], p[n]));
        let s = subjects(packs[p[n - 1]].dependencies);
        let k = choose|k: int| 0 <= k < s.len() && s[k] == p[n];
        assert(packs[p[n - 1]].dependencies[k].0 == p[n]);
    }
}

/// A pack is put right behind the last of its dependencies in the order, or at the end where none is
/// in it.
pub proof fn packs_are_put_behind_their_last_dependency(
    deps: Seq<Seq<char>>,
    order: Seq<Seq<char>>,
    d: Seq<char>,
)
    ensures
        0 <= slot_for(deps, order) <= order.len(),
        deps.contains(d) && order.contains(d) ==> first_index(order, d) < slot_for(deps, order)
            && deps.contains(order[slot_for(deps, order) - 1]),
        (forall|i: int| 0 <= i < order.len() ==> !deps.contains(#[trigger] order[i])) ==> slot_for(
            deps,
            order,
        ) == order.len(),
{
    lemma_last_in_order(deps, order, d);
    lemma_first_index(order, d);
    let p = last_dependency(deps, order);
    if p >= 0 {
        assert(deps.contains(order[p]));
    }
}

proof fn lemma_last_in_order(deps: Seq<Seq<char>>, order: Seq<Seq<char>>, d: Seq<char>)
    ensures
        -1 <= last_dependency(deps, order) < order.len(),
        last_dependency(deps, order) >= 0 ==> deps.contains(order[last_dependency(deps, order)]),
        deps.contains(d) && order.contains(d) ==> first_index(order, d) <= last_dependency(
            deps,
            order,
        ),
    decreases deps.len(),
{
    if deps.len() > 0 {
        let front = deps.drop_last();
        let rest = last_dependency(front, order);
        lemma_last_in_order(front, order, d);
        lemma_first_index(order, deps.last());
        lemma_first_index(order, d);
        if rest >= 0 {
            let i = choose|i: int| 0 <= i < front.len() && front[i] == order[rest];
            assert(deps[i] == order[rest]);
        }
        assert(deps[deps.len() - 1] == deps.last());
        if deps.contains(d) {
            let i = choose|i: int| 0 <= i < deps.len() && deps[i] == d;
            if i < front.len() {
                assert(front[i] == d);
                assert(front.contains(d));
            }
        }
    }
}

} // verus!
