//! The load order of content packs: keeping it up to date and checking it.
use crate::dependency::{
    behind_dependencies, blames, closing_trace_is_a_cycle, detect_cycle, grows, has_cycle,
    insert_pack, interleaves, placing_all_grows, with_all,
};
use crate::lists::{lemma_filter_all, lemma_filter_contains};
use crate::pack::{
    requirement_admits, requirement_parses, satisfaction, scan_packs, scanned, subjects,
    version_parses, version_satisfies, FolderEntry, PackError, PackIssue, PackTable,
    PackageModel,
};
use crate::text::{
    copy_texts, first_index, join_path, joined, lemma_first_index, position_of, same_text,
    sorts_before, texts,
};
use vstd::prelude::*;
use vstd::string::StringExecFns;

verus! {

/// The packs to load, in this order; files of a later pack override those of an earlier one.
#[derive(Debug)]
pub struct PackConfig {
    /// Identifiers of the packs.
    pub order: Vec<String>,
}

impl View for PackConfig {
    type V = Seq<Seq<char>>;

    open spec fn view(&self) -> Seq<Seq<char>> {
        texts(self.order@)
    }
}

/// The order of a fresh installation: the base game alone.
pub open spec fn default_order() -> Seq<Seq<char>> {
    seq!["vanilla"@]
}

/// The entries of an order that are packs.
pub open spec fn retained(
    packs: Map<Seq<char>, PackageModel>,
    order: Seq<Seq<char>>,
) -> Seq<Seq<char>> {
    order.filter(|id: Seq<char>| packs.contains_key(id))
}

/// The order brought up to date: what is no pack any more is gone, and every pack that was not
/// in the order is placed, in the order of `ids`.
pub open spec fn reconciled(
    packs: Map<Seq<char>, PackageModel>,
    ids: Seq<Seq<char>>,
    order: Seq<Seq<char>>,
) -> Result<Seq<Seq<char>>, PackIssue> {
    with_all(packs, ids, 0, retained(packs, order))
}

/// Every pack of the order is loaded after its dependencies.
pub open spec fn ordered(packs: Map<Seq<char>, PackageModel>, order: Seq<Seq<char>>) -> bool {
    forall|x: Seq<char>| #[trigger] order.contains(x) ==> behind_dependencies(packs, order, x)
}

/// The objection to dependency `k` of the pack at place `i` of the order.
pub open spec fn dependency_issue(
    packs: Map<Seq<char>, PackageModel>,
    order: Seq<Seq<char>>,
    i: int,
    k: int,
) -> Option<PackIssue> {
    let pack = order[i];
    let dependency = packs[pack].dependencies[k].0;
    let requirement = packs[pack].dependencies[k].1;
    if !packs.contains_key(dependency) {
        Some(PackIssue::MissingDependency { pack, dependency })
    } else {
        let version = packs[dependency].version;
        match satisfaction(requirement, version) {
            Err(e) => Some(e),
            Ok(false) => Some(
                PackIssue::VersionMismatch { pack, dependency, requirement, version },
            ),
            Ok(true) => if first_index(order, dependency) < i {
                None
            } else if order.contains(dependency) {
                Some(PackIssue::WrongOrder { pack, dependency })
            } else {
                Some(PackIssue::NotEnabled { pack, dependency })
            },
        }
    }
}

/// The objection to conflict `k` of the pack at place `i` of the order.
pub open spec fn conflict_issue(
    packs: Map<Seq<char>, PackageModel>,
    order: Seq<Seq<char>>,
    i: int,
    k: int,
) -> Option<PackIssue> {
    let pack = order[i];
    let other = packs[pack].conflicts[k].0;
    let requirement = packs[pack].conflicts[k].1;
    if packs.contains_key(other) && order.contains(other) {
        match satisfaction(requirement, packs[other].version) {
            Err(e) => Some(e),
            Ok(true) => Some(PackIssue::Conflict { pack, other, requirement }),
            Ok(false) => None,
        }
    } else {
        None
    }
}

/// The first `n` entries of the order are packs.
pub open spec fn known_up_to(
    packs: Map<Seq<char>, PackageModel>,
    order: Seq<Seq<char>>,
    n: int,
) -> bool {
    forall|i: int| 0 <= i < n ==> packs.contains_key(#[trigger] order[i])
}

/// No objection to any dependency before number `k` of the pack at place `i`.
pub open spec fn dependencies_fine_before(
    packs: Map<Seq<char>, PackageModel>,
    order: Seq<Seq<char>>,
    i: int,
    k: int,
) -> bool {
    forall|a: int, b: int|
        0 <= a < order.len() && 0 <= b < packs[order[a]].dependencies.len() && (a < i || (a == i && b
            < k)) ==> (#[trigger] dependency_issue(packs, order, a, b)) is None
}

/// No objection to any conflict before number `k` of the pack at place `i`.
pub open spec fn conflicts_fine_before(
    packs: Map<Seq<char>, PackageModel>,
    order: Seq<Seq<char>>,
    i: int,
    k: int,
) -> bool {
    forall|a: int, b: int|
        0 <= a < order.len() && 0 <= b < packs[order[a]].conflicts.len() && (a < i || (a == i && b
            < k)) ==> (#[trigger] conflict_issue(packs, order, a, b)) is None
}

/// Nothing speaks against loading the packs in this order.
pub open spec fn loadable(packs: Map<Seq<char>, PackageModel>, order: Seq<Seq<char>>) -> bool {
    let n = order.len() as int;
    known_up_to(packs, order, n) && dependencies_fine_before(packs, order, n, 0)
        && conflicts_fine_before(packs, order, n, 0)
}

/// The issue is the first that the check meets: entries that are no packs come first, then
/// dependencies, then conflicts, each in the order of the packs.
pub open spec fn first_issue(
    packs: Map<Seq<char>, PackageModel>,
    order: Seq<Seq<char>>,
    issue: PackIssue,
) -> bool {
    let n = order.len() as int;
    ||| exists|i: int|
        0 <= i < n && known_up_to(packs, order, i) && !packs.contains_key(#[trigger] order[i])
            && issue == (PackIssue::UnknownPack { pack: order[i] })
    ||| known_up_to(packs, order, n) && exists|i: int, k: int|
        0 <= i < n && 0 <= k < packs[order[i]].dependencies.len() && dependencies_fine_before(
            packs,
            order,
            i,
            k,
        ) && #[trigger] dependency_issue(packs, order, i, k) == Some(issue)
    ||| known_up_to(packs, order, n) && dependencies_fine_before(packs, order, n, 0) && exists|
        i: int,
        k: int,
    |
        0 <= i < n && 0 <= k < packs[order[i]].conflicts.len() && conflicts_fine_before(
            packs,
            order,
            i,
            k,
        ) && #[trigger] conflict_issue(packs, order, i, k) == Some(issue)
}

/// The identifiers are those of the packs.
pub open spec fn names_all(packs: Map<Seq<char>, PackageModel>, ids: Seq<Seq<char>>) -> bool {
    &&& packs.dom().finite()
    &&& forall|i: int| 0 <= i < ids.len() ==> packs.contains_key(#[trigger] ids[i])
    &&& forall|id: Seq<char>| packs.contains_key(id) ==> #[trigger] ids.contains(id)
}

/// The identifiers are those of the packs, in ascending order.
pub open spec fn lists_packs(packs: Map<Seq<char>, PackageModel>, ids: Seq<Seq<char>>) -> bool {
    &&& names_all(packs, ids)
    &&& forall|i: int, j: int|
        0 <= i < j < ids.len() ==> sorts_before(#[trigger] ids[i], #[trigger] ids[j])
}

/// What the start of the game makes of the packs that were found and of the stored order.
pub open spec fn discovered(
    packs: Map<Seq<char>, PackageModel>,
    ids: Seq<Seq<char>>,
    stored: Option<Seq<Seq<char>>>,
) -> Result<Seq<Seq<char>>, PackIssue> {
    reconciled(
        packs,
        ids,
        match stored {
            Some(order) => order,
            None => default_order(),
        },
    )
}

impl Default for PackConfig {
    fn default() -> (c: PackConfig)
        ensures
            c@ == default_order(),
    {
        let mut name = String::new();
        name.append("vanilla");
        let mut order: Vec<String> = Vec::new();
        order.push(name);
        proof {
            assert(name@ =~= "vanilla"@);
            assert(texts(order@) =~= default_order());
        }
        PackConfig { order }
    }
}

impl PackConfig {
    /// The load order.
    pub fn order(&self) -> (order: &[String])
        ensures
            order@ == self.order@,
    {
        self.order.as_slice()
    }

    /// The stored configuration, or the default where none could be read.
    pub fn load_or_default(stored: Option<PackConfig>) -> (c: PackConfig)
        ensures
            c@ == match stored {
                Some(s) => s@,
                None => default_order(),
            },
    {
        match stored {
            Some(config) => config,
            None => PackConfig::default(),
        }
    }

    /// Brings the configuration up to date with the contents of the data directory.
    ///
    /// `root` is the name of the data directory, and `stored` the configuration that was read,
    /// `None` where there was none to read.
    pub fn discover_and_update(
        root: &str,
        entries: &Vec<FolderEntry>,
        stored: Option<PackConfig>,
    ) -> (r: Result<(PackConfig, PackTable), PackError>)
        ensures
            ({
                let packs = scanned(entries@, entries@.len() as int);
                match r {
                    Ok((config, table)) => {
                        &&& table@ == packs
                        &&& packs.dom().len() > 0
                        &&& !has_cycle(packs)
                        &&& lists_packs(packs, table.ids())
                        &&& discovered(
                            packs,
                            table.ids(),
                            match stored {
                                Some(s) => Some(s@),
                                None => None,
                            },
                        ) == Ok::<Seq<Seq<char>>, PackIssue>(config@)
                    },
                    Err(e) => {
                        ||| packs =~= Map::empty() && e@ == (PackIssue::NoPacks {
                            root: root@,
                        })
                        ||| has_cycle(packs) && e is Cycle && crate::dependency::closes_cycle(
                            packs,
                            e@->Cycle_trace,
                        )
                        ||| !has_cycle(packs) && e is UnmetDependency && blames(
                            packs,
                            retained(
                                packs,
                                match stored {
                                    Some(s) => s@,
                                    None => default_order(),
                                },
                            ),
                            e@,
                        ) && exists|ids: Seq<Seq<char>>| #[trigger]
                            lists_packs(packs, ids) && discovered(
                                packs,
                                ids,
                                match stored {
                                    Some(s) => Some(s@),
                                    None => None,
                                },
                            ) == Err::<Seq<Seq<char>>, PackIssue>(e@)
                    },
                }
            }),
    {
        let table = scan_packs(entries);
        if table.len() == 0 {
            let mut text = String::new();
            text.append(root);
            proof {
                assert(text@ =~= root@);
            }
            return Err(PackError::NoPacks { root: text });
        }
        proof {
            assert(lists_packs(table@, table.ids()));
            assert(table@.contains_key(table.ids()[0]));
            if table@.dom().len() == 0 {
                assert(table@.dom() =~= Set::empty());
                assert(false);
            }
        }
        match detect_cycle(&table) {
            Ok(()) => {},
            Err(e) => {
                proof {
                    closing_trace_is_a_cycle(table@, e@->Cycle_trace);
                }
                return Err(e);
            },
        }
        let mut config = PackConfig::load_or_default(stored);
        let ghost before = config@;
        match config.reconcile(&table) {
            Ok(()) => {},
            Err(e) => {
                proof {
                    placing_all_grows(table@, table.ids(), 0, retained(table@, before));
                    if e is Cycle {
                        closing_trace_is_a_cycle(table@, e@->Cycle_trace);
                    }
                }
                return Err(e);
            },
        }
        Ok((config, table))
    }

    /// Removes entries that are no packs and places every pack that is missing; the order stays
    /// as it was where that cannot be done.
    pub fn reconcile(&mut self, table: &PackTable) -> (r: Result<(), PackError>)
        ensures
            match reconciled(table@, table.ids(), old(self)@) {
                Ok(order) => r is Ok && final(self)@ == order,
                Err(e) => r is Err && r->Err_0@ == e && *final(self) == *old(self),
            },
    {
        let ghost packs = table@;
        let ghost old_order = self@;
        let ghost keep = |id: Seq<char>| packs.contains_key(id);
        let mut order: Vec<String> = Vec::new();
        let mut i: usize = 0;
        proof {
            assert(old_order.take(0) =~= Seq::<Seq<char>>::empty());
            reveal(Seq::filter);
            assert(texts(order@) =~= old_order.take(0).filter(keep));
        }
        while i < self.order.len()
            invariant
                i <= self.order@.len(),
                packs == table@,
                keep == (|id: Seq<char>| packs.contains_key(id)),
                old_order == texts(self.order@),
                texts(order@) == old_order.take(i as int).filter(keep),
            decreases self.order@.len() - i,
        {
            let ghost done = order@;
            proof {
                assert(old_order.take(i as int + 1).drop_last() =~= old_order.take(i as int));
                assert(old_order.take(i as int + 1).last() == self.order@[i as int]@);
                reveal(Seq::filter);
            }
            if table.contains_key(self.order[i].as_str()) {
                let id = self.order[i].clone();
                order.push(id);
                proof {
                    assert(texts(order@) =~= texts(done).push(id@));
                }
            }
            i += 1;
        }
        proof {
            assert(old_order.take(i as int) =~= old_order);
        }
        let n = table.len();
        let mut stack: Vec<String> = Vec::new();
        let mut k: usize = 0;
        while k < n
            invariant
                k <= n == table.listing().len(),
                packs == table@,
                packs.dom().finite(),
                forall|i: int| 0 <= i < n ==> packs.contains_key(#[trigger] table.ids()[i]),
                stack@.len() == 0,
                reconciled(packs, table.ids(), old_order) == with_all(
                    packs,
                    table.ids(),
                    k as nat,
                    texts(order@),
                ),
                old_order == old(self)@,
                *self == *old(self),
            decreases n - k,
        {
            proof {
                assert(texts(stack@) =~= Seq::<Seq<char>>::empty());
                assert(table.ids()[k as int] == table.listing()[k as int].0);
            }
            match insert_pack(table, table.id_at(k), &mut order, &mut stack) {
                Ok(()) => {},
                Err(e) => {
                    return Err(e);
                },
            }
            proof {
                assert(texts(stack@).len() == stack@.len());
            }
            k += 1;
        }
        self.order = order;
        Ok(())
    }

    /// Checks that the packs can be loaded in this order.
    pub fn validate(&self, table: &PackTable) -> (r: Result<(), PackError>)
        ensures
            r is Ok <==> loadable(table@, self@),
            r matches Err(e) ==> first_issue(table@, self@, e@),
    {
        let ghost packs = table@;
        let ghost order = self@;
        let n = self.order.len();
        let mut i: usize = 0;
        while i < n
            invariant
                i <= n == self.order@.len(),
                packs == table@,
                order == texts(self.order@),
                self@ == order,
                known_up_to(packs, order, i as int),
            decreases n - i,
        {
            proof {
                assert(order[i as int] == self.order@[i as int]@);
            }
            if !table.contains_key(self.order[i].as_str()) {
                return Err(PackError::UnknownPack { pack: self.order[i].clone() });
            }
            i += 1;
        }
        let mut i: usize = 0;
        while i < n
            invariant
                i <= n == self.order@.len(),
                packs == table@,
                order == texts(self.order@),
                self@ == order,
                known_up_to(packs, order, n as int),
                dependencies_fine_before(packs, order, i as int, 0),
            decreases n - i,
        {
            let id = &self.order[i];
            proof {
                assert(order[i as int] == id@);
                assert(packs.contains_key(order[i as int]));
            }
            match table.get(id.as_str()) {
                Some(pkg) => {
                    let mut k: usize = 0;
                    while k < pkg.dependencies.len()
                        invariant
                            i < n == self.order@.len(),
                            packs == table@,
                            order == texts(self.order@),
                            self@ == order,
                            known_up_to(packs, order, n as int),
                            id@ == order[i as int],
                            packs.contains_key(id@),
                            packs[id@] == pkg@,
                            k <= pkg.dependencies@.len(),
                            dependencies_fine_before(packs, order, i as int, k as int),
                        decreases pkg.dependencies@.len() - k,
                    {
                        let dep = pkg.dependencies.subject(k);
                        let req = pkg.dependencies.requirement(k);
                        let ghost issue = dependency_issue(packs, order, i as int, k as int);
                        match table.get(dep.as_str()) {
                            None => {
                                return Err(
                                    PackError::MissingDependency {
                                        pack: id.clone(),
                                        dependency: dep.clone(),
                                    },
                                );
                            },
                            Some(dep_pkg) => {
                                match version_satisfies(req.as_str(), dep_pkg.version.as_str()) {
                                    Err(e) => {
                                        proof {
                                            assert(issue == Some(e@));
                                        }
                                        return Err(e);
                                    },
                                    Ok(false) => {
                                        return Err(
                                            PackError::VersionMismatch {
                                                pack: id.clone(),
                                                dependency: dep.clone(),
                                                requirement: req.clone(),
                                                version: dep_pkg.version.clone(),
                                            },
                                        );
                                    },
                                    Ok(true) => {
                                        let p = position_of(&self.order, dep);
                                        if p >= n {
                                            return Err(
                                                PackError::NotEnabled {
                                                    pack: id.clone(),
                                                    dependency: dep.clone(),
                                                },
                                            );
                                        }
                                        if p >= i {
                                            return Err(
                                                PackError::WrongOrder {
                                                    pack: id.clone(),
                                                    dependency: dep.clone(),
                                                },
                                            );
                                        }
                                        proof {
                                            assert(issue is None);
                                        }
                                    },
                                }
                            },
                        }
                        k += 1;
                    }
                },
                None => {},
            }
            i += 1;
        }
        let mut i: usize = 0;
        while i < n
            invariant
                i <= n == self.order@.len(),
                packs == table@,
                order == texts(self.order@),
                self@ == order,
                known_up_to(packs, order, n as int),
                dependencies_fine_before(packs, order, n as int, 0),
                conflicts_fine_before(packs, order, i as int, 0),
            decreases n - i,
        {
            let id = &self.order[i];
            proof {
                assert(order[i as int] == id@);
                assert(packs.contains_key(order[i as int]));
            }
            match table.get(id.as_str()) {
                Some(pkg) => {
                    let mut k: usize = 0;
                    while k < pkg.conflicts.len()
                        invariant
                            i < n == self.order@.len(),
                            packs == table@,
                            order == texts(self.order@),
                            self@ == order,
                            known_up_to(packs, order, n as int),
                            dependencies_fine_before(packs, order, n as int, 0),
                            id@ == order[i as int],
                            packs.contains_key(id@),
                            packs[id@] == pkg@,
                            k <= pkg.conflicts@.len(),
                            conflicts_fine_before(packs, order, i as int, k as int),
                        decreases pkg.conflicts@.len() - k,
                    {
                        let other = pkg.conflicts.subject(k);
                        let req = pkg.conflicts.requirement(k);
                        let ghost issue = conflict_issue(packs, order, i as int, k as int);
                        match table.get(other.as_str()) {
                            None => {},
                            Some(other_pkg) => {
                                if position_of(&self.order, other) < n {
                                    match version_satisfies(
                                        req.as_str(),
                                        other_pkg.version.as_str(),
                                    ) {
                                        Err(e) => {
                                            proof {
                                                assert(issue == Some(e@));
                                            }
                                            return Err(e);
                                        },
                                        Ok(true) => {
                                            return Err(
                                                PackError::Conflict {
                                                    pack: id.clone(),
                                                    other: other.clone(),
                                                    requirement: req.clone(),
                                                },
                                            );
                                        },
                                        Ok(false) => {},
                                    }
                                }
                            },
                        }
                        proof {
                            assert(issue is None);
                        }
                        k += 1;
                    }
                },
                None => {},
            }
            i += 1;
        }
        Ok(())
    }

    /// The root directory of each pack, in load order.
    pub fn pack_roots(&self, data_root: &str) -> (roots: Vec<String>)
        ensures
            texts(roots@) == self@.map_values(|id: Seq<char>| joined(data_root@, id)),
    {
        let mut roots: Vec<String> = Vec::new();
        let mut i: usize = 0;
        let ghost all = self@.map_values(|id: Seq<char>| joined(data_root@, id));
        while i < self.order.len()
            invariant
                i <= self.order@.len(),
                self@ == texts(self.order@),
                all == self@.map_values(|id: Seq<char>| joined(data_root@, id)),
                texts(roots@) =~= all.take(i as int),
            decreases self.order@.len() - i,
        {
            let root = join_path(data_root, self.order[i].as_str());
            let ghost done = roots@;
            roots.push(root);
            proof {
                assert(texts(roots@) =~= texts(done).push(root@));
                assert(all[i as int] == root@);
            }
            i += 1;
        }
        proof {
            assert(all.take(i as int) =~= all);
        }
        roots
    }

    /// Whether the text of the configuration has to be written: it does unless the file holds
    /// exactly that text.
    pub fn save_if_changed(existing: Option<&str>, text: &str) -> (write: bool)
        ensures
            write == !(existing matches Some(e) && e@ == text@),
    {
        match existing {
            Some(e) => !same_text(e, text),
            None => true,
        }
    }
}

impl Clone for PackConfig {
    fn clone(&self) -> (copy: PackConfig)
        ensures
            copy@ == self@,
    {
        PackConfig { order: copy_texts(&self.order) }
    }
}

/// Every dependency of a pack that is not in the order yet is there.
pub open spec fn new_packs_supplied(
    packs: Map<Seq<char>, PackageModel>,
    order: Seq<Seq<char>>,
) -> bool {
    forall|x: Seq<char>, d: Seq<char>|
        packs.contains_key(x) && !order.contains(x) && #[trigger] subjects(
            packs[x].dependencies,
        ).contains(d) ==> packs.contains_key(d)
}

proof fn lemma_retained(packs: Map<Seq<char>, PackageModel>, order: Seq<Seq<char>>)
    ensures
        forall|x: Seq<char>| #[trigger]
            retained(packs, order).contains(x) <==> order.contains(x) && packs.contains_key(x),
{
    lemma_filter_contains(order, |id: Seq<char>| packs.contains_key(id));
}

/// The order that comes out names exactly the packs, keeps what was retained in its old order,
/// and puts every new pack behind its dependencies.
pub proof fn reconciled_order_is_complete(
    packs: Map<Seq<char>, PackageModel>,
    ids: Seq<Seq<char>>,
    order: Seq<Seq<char>>,
    new: Seq<Seq<char>>,
)
    requires
        names_all(packs, ids),
        reconciled(packs, ids, order) == Ok::<Seq<Seq<char>>, PackIssue>(new),
    ensures
        forall|x: Seq<char>| #[trigger] new.contains(x) <==> packs.contains_key(x),
        interleaves(retained(packs, order), new),
        forall|x: Seq<char>| #[trigger]
            new.contains(x) && !order.contains(x) ==> behind_dependencies(packs, new, x),
        retained(packs, order).no_duplicates() ==> new.no_duplicates(),
{
    let r = retained(packs, order);
    placing_all_grows(packs, ids, 0, r);
    lemma_retained(packs, order);
    assert(grows(packs, r, new));
    assert forall|x: Seq<char>| #[trigger] new.contains(x) <==> packs.contains_key(x) by {
        if packs.contains_key(x) {
            assert(ids.contains(x));
            let i = choose|i: int| 0 <= i < ids.len() && ids[i] == x;
            assert(new.contains(ids[i]));
        }
        if new.contains(x) && r.contains(x) {
            assert(packs.contains_key(x));
        }
    }
    assert forall|x: Seq<char>| #[trigger]
        new.contains(x) && !order.contains(x) implies behind_dependencies(packs, new, x) by {
        assert(!r.contains(x));
    }
}

/// Where what was retained is loaded after its dependencies, so is the whole new order.
pub proof fn reconciling_keeps_packs_behind_dependencies(
    packs: Map<Seq<char>, PackageModel>,
    ids: Seq<Seq<char>>,
    order: Seq<Seq<char>>,
    new: Seq<Seq<char>>,
)
    requires
        names_all(packs, ids),
        reconciled(packs, ids, order) == Ok::<Seq<Seq<char>>, PackIssue>(new),
        ordered(packs, retained(packs, order)),
    ensures
        ordered(packs, new),
{
    let r = retained(packs, order);
    placing_all_grows(packs, ids, 0, r);
    assert(grows(packs, r, new));
    assert forall|x: Seq<char>| #[trigger] new.contains(x) implies behind_dependencies(
        packs,
        new,
        x,
    ) by {
        if r.contains(x) {
            assert(behind_dependencies(packs, r, x));
            assert forall|d: Seq<char>| #[trigger]
                subjects(packs[x].dependencies).contains(d) implies new.contains(d) && first_index(
                new,
                d,
            ) < first_index(new, x) by {
                assert(r.contains(d));
                assert(first_index(r, d) < first_index(r, x));
            }
        }
    }
}

/// Without circles, bringing the order up to date succeeds exactly when no pack that has to be
/// placed lacks a dependency.
pub proof fn reconciling_succeeds_iff_supplied(
    packs: Map<Seq<char>, PackageModel>,
    ids: Seq<Seq<char>>,
    order: Seq<Seq<char>>,
)
    requires
        names_all(packs, ids),
        !has_cycle(packs),
    ensures
        reconciled(packs, ids, order) is Ok <==> new_packs_supplied(packs, order),
{
    let r = retained(packs, order);
    placing_all_grows(packs, ids, 0, r);
    lemma_retained(packs, order);
    match reconciled(packs, ids, order) {
        Ok(new) => {
            reconciled_order_is_complete(packs, ids, order, new);
            assert forall|x: Seq<char>, d: Seq<char>|
                packs.contains_key(x) && !order.contains(x) && #[trigger] subjects(
                    packs[x].dependencies,
                ).contains(d) implies packs.contains_key(d) by {
                assert(new.contains(x));
                assert(behind_dependencies(packs, new, x));
                assert(new.contains(d));
            }
        },
        Err(e) => {
            assert(blames(packs, r, e));
            if e is Cycle {
                closing_trace_is_a_cycle(packs, e->Cycle_trace);
            } else {
                let x = e->UnmetDependency_pack;
                let d = e->UnmetDependency_dependency;
                assert(subjects(packs[x].dependencies).contains(d));
                assert(!r.contains(x));
            }
        },
    }
}

proof fn lemma_all_placed(
    packs: Map<Seq<char>, PackageModel>,
    ids: Seq<Seq<char>>,
    k: nat,
    order: Seq<Seq<char>>,
)
    requires
        forall|i: int| 0 <= i < ids.len() ==> order.contains(#[trigger] ids[i]),
    ensures
        with_all(packs, ids, k, order) == Ok::<Seq<Seq<char>>, PackIssue>(order),
    decreases ids.len() - k,
{
    if k < ids.len() {
        assert(order.contains(ids[k as int]));
        lemma_all_placed(packs, ids, k + 1, order);
    }
}

/// An order that is up to date stays as it is.
pub proof fn reconciling_again_changes_nothing(
    packs: Map<Seq<char>, PackageModel>,
    ids: Seq<Seq<char>>,
    order: Seq<Seq<char>>,
    new: Seq<Seq<char>>,
)
    requires
        names_all(packs, ids),
        reconciled(packs, ids, order) == Ok::<Seq<Seq<char>>, PackIssue>(new),
    ensures
        reconciled(packs, ids, new) == Ok::<Seq<Seq<char>>, PackIssue>(new),
{
    reconciled_order_is_complete(packs, ids, order, new);
    lemma_filter_all(new, |id: Seq<char>| packs.contains_key(id));
    assert forall|i: int| 0 <= i < ids.len() implies new.contains(#[trigger] ids[i]) by {
        assert(packs.contains_key(ids[i]));
    }
    lemma_all_placed(packs, ids, 0, new);
}

/// An order that passes the check loads every pack after its dependencies.
pub proof fn loadable_order_is_ordered(
    packs: Map<Seq<char>, PackageModel>,
    order: Seq<Seq<char>>,
)
    requires
        loadable(packs, order),
    ensures
        ordered(packs, order),
{
    assert forall|x: Seq<char>| #[trigger] order.contains(x) implies behind_dependencies(
        packs,
        order,
        x,
    ) by {
        lemma_first_index(order, x);
        let i = first_index(order, x);
        assert(order[i] == x);
        let deps = packs[x].dependencies;
        assert forall|d: Seq<char>| #[trigger] subjects(deps).contains(d) implies order.contains(d)
            && first_index(order, d) < first_index(order, x) by {
            let k = choose|k: int| 0 <= k < subjects(deps).len() && subjects(deps)[k] == d;
            assert(deps[k].0 == d);
            assert(dependency_issue(packs, order, i, k) is None);
            lemma_first_index(order, d);
        }
    }
}

/// In an order that loads every pack after its dependencies, a dependency is objected to only
/// for its version.
pub proof fn ordered_leaves_version_issues_only(
    packs: Map<Seq<char>, PackageModel>,
    order: Seq<Seq<char>>,
    i: int,
    k: int,
)
    requires
        ordered(packs, order),
        known_up_to(packs, order, order.len() as int),
        0 <= i < order.len(),
        0 <= k < packs[order[i]].dependencies.len(),
    ensures
        ({
            let dep = packs[order[i]].dependencies[k];
            &&& packs.contains_key(dep.0)
            &&& dependency_issue(packs, order, i, k) is None <==> satisfaction(
                dep.1,
                packs[dep.0].version,
            ) == Ok::<bool, PackIssue>(true)
        }),
{
    let x = order[i];
    let dep = packs[x].dependencies[k];
    assert(order.contains(x));
    assert(behind_dependencies(packs, order, x));
    assert(subjects(packs[x].dependencies)[k] == dep.0);
    assert(subjects(packs[x].dependencies).contains(dep.0));
    lemma_first_index(order, dep.0);
    assert(order[first_index(order, dep.0)] == dep.0);
    lemma_first_index(order, x);
}

/// A dependency is met exactly where its pack is there in an admitted version and comes earlier in
/// the order. Else it is told what is wrong: the pack is missing, the requirement or the version
/// cannot be read, the version is not admitted, or the pack comes too late or not at all.
pub proof fn dependencies_are_met_by_earlier_packs(
    packs: Map<Seq<char>, PackageModel>,
    order: Seq<Seq<char>>,
    i: int,
    k: int,
)
    requires
        0 <= i < order.len(),
    ensures
        ({
            let pack = order[i];
            let dependency = packs[pack].dependencies[k].0;
            let requirement = packs[pack].dependencies[k].1;
            let version = packs[dependency].version;
            let there = packs.contains_key(dependency);
            let read = requirement_parses(requirement) && version_parses(version);
            let admitted = requirement_admits(requirement, version);
            let earlier = exists|j: int| 0 <= j < i && #[trigger] order[j] == dependency;
            let issue = dependency_issue(packs, order, i, k);
            &&& issue is None <==> there && read && admitted && earlier
            &&& !there ==> issue == Some(PackIssue::MissingDependency { pack, dependency })
            &&& there && !requirement_parses(requirement) ==> issue == Some(
                PackIssue::UnreadableRequirement { requirement },
            )
            &&& there && requirement_parses(requirement) && !version_parses(version) ==> issue
                == Some(PackIssue::UnreadableVersion { version })
            &&& there && read && !admitted ==> issue == Some(
                PackIssue::VersionMismatch { pack, dependency, requirement, version },
            )
            &&& there && read && admitted && !earlier && order.contains(dependency) ==> issue
                == Some(PackIssue::WrongOrder { pack, dependency })
            &&& there && read && admitted && !order.contains(dependency) ==> issue == Some(
                PackIssue::NotEnabled { pack, dependency },
            )
        }),
{
    let dependency = packs[order[i]].dependencies[k].0;
    lemma_first_index(order, dependency);
    let at = first_index(order, dependency);
    if at < i {
        assert(order[at] == dependency);
    }
    if exists|j: int| 0 <= j < i && #[trigger] order[j] == dependency {
        let j = choose|j: int| 0 <= j < i && #[trigger] order[j] == dependency;
        assert(!(j < at));
    }
}

/// A pack excludes another exactly where that one is enabled, there, and in a version that the
/// exclusion is about.
pub proof fn conflicts_are_between_enabled_packs(
    packs: Map<Seq<char>, PackageModel>,
    order: Seq<Seq<char>>,
    i: int,
    k: int,
)
    requires
        0 <= i < order.len(),
    ensures
        ({
            let pack = order[i];
            let other = packs[pack].conflicts[k].0;
            let requirement = packs[pack].conflicts[k].1;
            let version = packs[other].version;
            let enabled = packs.contains_key(other) && order.contains(other);
            let issue = conflict_issue(packs, order, i, k);
            &&& !enabled ==> issue is None
            &&& enabled && !requirement_parses(requirement) ==> issue == Some(
                PackIssue::UnreadableRequirement { requirement },
            )
            &&& enabled && requirement_parses(requirement) && !version_parses(version) ==> issue
                == Some(PackIssue::UnreadableVersion { version })
            &&& enabled && requirement_parses(requirement) && version_parses(version) ==> issue == (
            if requirement_admits(requirement, version) {
                Some(PackIssue::Conflict { pack, other, requirement })
            } else {
                None
            })
        }),
{
}

/// An order can be loaded exactly where all its packs are there, every dependency is met by an
/// earlier pack, and no two packs exclude each other.
pub proof fn loadable_orders_meet_every_requirement(
    packs: Map<Seq<char>, PackageModel>,
    order: Seq<Seq<char>>,
)
    ensures
        loadable(packs, order) <==> {
            &&& forall|i: int| 0 <= i < order.len() ==> packs.contains_key(#[trigger] order[i])
            &&& forall|i: int, k: int|
                0 <= i < order.len() && 0 <= k < packs[order[i]].dependencies.len() ==> (
                #[trigger] dependency_issue(packs, order, i, k)) is None
            &&& forall|i: int, k: int|
                0 <= i < order.len() && 0 <= k < packs[order[i]].conflicts.len() ==> (
                #[trigger] conflict_issue(packs, order, i, k)) is None
        },
{
}

/// Of an order those packs stay that are there, in their order, and no other.
pub proof fn lost_packs_are_left_out(
    packs: Map<Seq<char>, PackageModel>,
    order: Seq<Seq<char>>,
    id: Seq<char>,
)
    ensures
        retained(packs, order).contains(id) <==> order.contains(id) && packs.contains_key(id),
        retained(packs, Seq::empty()) == Seq::<Seq<char>>::empty(),
        retained(packs, order.push(id)) == (if packs.contains_key(id) {
            retained(packs, order).push(id)
        } else {
            retained(packs, order)
        }),
        default_order().len() == 1,
        default_order()[0] == "vanilla"@,
{
    let f = |id: Seq<char>| packs.contains_key(id);
    lemma_filter_contains(order, f);
    reveal(Seq::filter);
    assert(order.push(id).drop_last() =~= order);
    assert(Seq::<Seq<char>>::empty().filter(f) =~= Seq::<Seq<char>>::empty());
}

/// What is told of an order is a reason why it cannot be loaded: a pack of it that is not there, or,
/// where all are there, an unmet dependency, or, where all dependencies are met, a conflict.
pub proof fn told_issues_keep_an_order_from_loading(
    packs: Map<Seq<char>, PackageModel>,
    order: Seq<Seq<char>>,
    issue: PackIssue,
)
    requires
        first_issue(packs, order, issue),
    ensures
        !loadable(packs, order),
        (exists|i: int|
            0 <= i < order.len() && !packs.contains_key(#[trigger] order[i])) ==> issue
            is UnknownPack && order.contains(issue->UnknownPack_pack) && !packs.contains_key(
            issue->UnknownPack_pack,
        ),
        (forall|i: int| 0 <= i < order.len() ==> packs.contains_key(#[trigger] order[i])) ==> (exists|
            i: int,
            k: int,
        |
            0 <= i < order.len() && 0 <= k < packs[order[i]].dependencies.len()
                && #[trigger] dependency_issue(packs, order, i, k) == Some(issue)) || ((forall|
            i: int,
            k: int,
        |
            0 <= i < order.len() && 0 <= k < packs[order[i]].dependencies.len() ==> (
            #[trigger] dependency_issue(packs, order, i, k)) is None) && exists|i: int, k: int|
            0 <= i < order.len() && 0 <= k < packs[order[i]].conflicts.len()
                && #[trigger] conflict_issue(packs, order, i, k) == Some(issue)),
{
}

/// Without a stored order the packs are ordered beginning with the one that comes with the game.
pub proof fn first_orders_begin_with_the_default(
    packs: Map<Seq<char>, PackageModel>,
    ids: Seq<Seq<char>>,
    stored: Seq<Seq<char>>,
)
    ensures
        discovered(packs, ids, None) == reconciled(packs, ids, seq!["vanilla"@]),
        discovered(packs, ids, Some(stored)) == reconciled(packs, ids, stored),
{
}

/// The order is written exactly where nothing is stored yet or something else is.
pub proof fn unchanged_orders_are_not_written(existing: Option<&str>, text: &str, write: bool)
    requires
        call_ensures(PackConfig::save_if_changed, (existing, text), write),
    ensures
        existing is None ==> write,
        existing is Some ==> (write <==> existing->0@ != text@),
{
}

/// The root of each pack lies below that of all data, under the name of the pack, in the order.
pub proof fn packs_lie_below_the_data_root(
    config: &PackConfig,
    data_root: &str,
    roots: Vec<String>,
    i: int,
)
    requires
        call_ensures(PackConfig::pack_roots, (config, data_root), roots),
    ensures
        roots@.len() == config.order@.len(),
        0 <= i < roots@.len() ==> roots@[i]@ == joined(data_root@, config.order@[i]@),
{
    let all = texts(roots@);
    assert(all.len() == roots@.len());
    if 0 <= i < roots@.len() {
        assert(all[i] == roots@[i]@);
        assert(texts(config.order@)[i] == config.order@[i]@);
    }
}

} // verus!
