//! Sets of resource addresses and the index from files to the entries they gave.
use crate::game_path::{Address, GamePath};
use vstd::prelude::*;

verus! {

/// What the addresses of a list say.
pub open spec fn addresses(list: Seq<GamePath>) -> Seq<Address> {
    list.map_values(|p: GamePath| p@)
}

/// A set of addresses.
#[derive(Debug)]
pub struct PathSet {
    items: Vec<GamePath>,
}

impl View for PathSet {
    type V = Set<Address>;

    closed spec fn view(&self) -> Set<Address> {
        addresses(self.items@).to_set()
    }
}

impl PathSet {
    #[verifier::type_invariant]
    closed spec fn well_formed(&self) -> bool {
        addresses(self.items@).no_duplicates()
    }

    /// The empty set.
    pub fn new() -> (s: PathSet)
        ensures
            s@ == Set::<Address>::empty(),
    {
        let s = PathSet { items: Vec::new() };
        proof {
            assert(addresses(s.items@) =~= Seq::<Address>::empty());
            assert(s@ =~= Set::<Address>::empty());
        }
        s
    }

    /// Number of members.
    pub fn len(&self) -> (n: usize)
        ensures
            n == self@.len(),
            self@.finite(),
    {
        proof {
            use_type_invariant(self);
            addresses(self.items@).unique_seq_to_set();
        }
        self.items.len()
    }

    /// Whether the set has no member.
    pub fn is_empty(&self) -> (b: bool)
        ensures
            b == (self@ =~= Set::<Address>::empty()),
    {
        proof {
            if self.items@.len() > 0 {
                assert(addresses(self.items@)[0] == self.items@[0]@);
                assert(self@.contains(self.items@[0]@));
            }
        }
        self.items.len() == 0
    }

    /// The place of an address among the members, the length where it is none.
    fn position(&self, path: &GamePath) -> (i: usize)
        ensures
            i <= self.items@.len(),
            i < self.items@.len() ==> self.items@[i as int]@ == path@,
            i < self.items@.len() <==> self@.contains(path@),
    {
        let mut i: usize = 0;
        while i < self.items.len()
            invariant
                i <= self.items@.len(),
                forall|j: int| 0 <= j < i ==> (#[trigger] self.items@[j])@ != path@,
            decreases self.items@.len() - i,
        {
            if self.items[i] == *path {
                proof {
                    assert(addresses(self.items@)[i as int] == path@);
                }
                return i;
            }
            i += 1;
        }
        i
    }

    /// Whether the address is a member.
    pub fn contains(&self, path: &GamePath) -> (b: bool)
        ensures
            b == self@.contains(path@),
    {
        self.position(path) < self.items.len()
    }

    /// Adds an address.
    pub fn insert(&mut self, path: GamePath)
        ensures
            final(self)@ == old(self)@.insert(path@),
    {
        proof {
            use_type_invariant(&*self);
        }
        let known = self.contains(&path);
        let ghost before = addresses(self.items@);
        if !known {
            let ghost p = path@;
            let mut items: Vec<GamePath> = Vec::new();
            core::mem::swap(&mut items, &mut self.items);
            items.push(path);
            proof {
                let after = addresses(items@);
                assert(after =~= before.push(p));
                assert forall|i: int, j: int|
                    0 <= i < after.len() && 0 <= j < after.len() && i != j implies after[i]
                    != after[j] by {
                    if i < before.len() {
                        assert(before.contains(before[i]));
                    }
                    if j < before.len() {
                        assert(before.contains(before[j]));
                    }
                }
                lemma_push_to_set(before, p);
            }
            self.items = items;
        } else {
            proof {
                assert(old(self)@.insert(path@) =~= old(self)@);
            }
        }
    }

    /// Removes an address.
    pub fn remove(&mut self, path: &GamePath)
        ensures
            final(self)@ == old(self)@.remove(path@),
    {
        proof {
            use_type_invariant(&*self);
        }
        let i = self.position(path);
        let ghost before = addresses(self.items@);
        if i < self.items.len() {
            let mut items: Vec<GamePath> = Vec::new();
            core::mem::swap(&mut items, &mut self.items);
            items.remove(i);
            proof {
                let after = addresses(items@);
                assert(after =~= before.remove(i as int));
                lemma_remove_to_set(before, i as int);
            }
            self.items = items;
        } else {
            proof {
                assert(old(self)@.remove(path@) =~= old(self)@);
            }
        }
    }

    /// Keeps only the members that are in `keep` as well.
    pub fn retain_in(&mut self, keep: &PathSet)
        ensures
            final(self)@ == old(self)@.intersect(keep@),
    {
        let mut out = PathSet::new();
        let mut i: usize = 0;
        let ghost all = addresses(self.items@);
        proof {
            assert(all.take(0).to_set() =~= Set::<Address>::empty());
            assert(out@ =~= all.take(0).to_set().intersect(keep@));
        }
        while i < self.items.len()
            invariant
                i <= self.items@.len(),
                all == addresses(self.items@),
                out@ == all.take(i as int).to_set().intersect(keep@),
            decreases self.items@.len() - i,
        {
            proof {
                assert(all.take(i as int + 1) =~= all.take(i as int).push(all[i as int]));
                lemma_push_to_set(all.take(i as int), all[i as int]);
            }
            if keep.contains(&self.items[i]) {
                out.insert(self.items[i].clone());
                proof {
                    assert(out@ =~= all.take(i as int + 1).to_set().intersect(keep@));
                }
            } else {
                proof {
                    assert(out@ =~= all.take(i as int + 1).to_set().intersect(keep@));
                }
            }
            i += 1;
        }
        proof {
            assert(all.take(i as int) =~= all);
        }
        *self = out;
    }
}

proof fn lemma_push_to_set(s: Seq<Address>, x: Address)
    ensures
        s.push(x).to_set() == s.to_set().insert(x),
{
    let t = s.push(x);
    assert forall|y: Address| t.to_set().contains(y) == s.to_set().insert(x).contains(y) by {
        if s.contains(y) {
            let i = choose|i: int| 0 <= i < s.len() && s[i] == y;
            assert(t[i] == y);
        }
        if y == x {
            assert(t[s.len() as int] == y);
        }
        if t.contains(y) {
            let i = choose|i: int| 0 <= i < t.len() && t[i] == y;
            if i < s.len() {
                assert(s[i] == y);
            }
        }
    }
    assert(t.to_set() =~= s.to_set().insert(x));
}

pub(crate) proof fn lemma_remove_to_set(s: Seq<Address>, i: int)
    requires
        s.no_duplicates(),
        0 <= i < s.len(),
    ensures
        s.remove(i).to_set() == s.to_set().remove(s[i]),
        s.remove(i).no_duplicates(),
{
    let t = s.remove(i);
    assert forall|y: Address| t.to_set().contains(y) == s.to_set().remove(s[i]).contains(y) by {
        if t.contains(y) {
            let k = choose|k: int| 0 <= k < t.len() && t[k] == y;
            let k2 = if k < i {
                k
            } else {
                k + 1
            };
            assert(s[k2] == y);
        }
        if s.contains(y) && y != s[i] {
            let k = choose|k: int| 0 <= k < s.len() && s[k] == y;
            let k2 = if k < i {
                k
            } else {
                k - 1
            };
            assert(t[k2] == y);
        }
    }
    assert(t.to_set() =~= s.to_set().remove(s[i]));
    assert forall|a: int, b: int| 0 <= a < t.len() && 0 <= b < t.len() && a != b implies t[a]
        != t[b] by {
        let a2 = if a < i {
            a
        } else {
            a + 1
        };
        let b2 = if b < i {
            b
        } else {
            b + 1
        };
        assert(s[a2] != s[b2]);
    }
}

/// From each file to the keys of the entries that came from it, in the order of registration.
#[derive(Debug)]
pub struct FileIndex {
    sources: Vec<GamePath>,
    keys: Vec<Vec<u64>>,
}

spec fn index_map(sources: Seq<Address>, keys: Seq<Vec<u64>>) -> Map<Address, Seq<u64>> {
    Map::new(
        |a: Address| sources.contains(a),
        |a: Address| keys[crate::text::first_index(sources, a)]@,
    )
}

proof fn lemma_index_at(sources: Seq<Address>, keys: Seq<Vec<u64>>, i: int)
    requires
        sources.no_duplicates(),
        sources.len() == keys.len(),
        0 <= i < sources.len(),
    ensures
        index_map(sources, keys).contains_key(sources[i]),
        index_map(sources, keys)[sources[i]] == keys[i]@,
        crate::text::first_index(sources, sources[i]) == i,
{
    assert(sources.contains(sources[i]));
    crate::text::lemma_first_index_is(sources, sources[i], i);
}

/// Without the element.
pub open spec fn without(s: Seq<u64>, x: u64) -> Seq<u64> {
    s.filter(crate::lists::differs(x))
}

/// The index once a key has left its file; a file without keys leaves as well.
pub open spec fn index_without(
    index: Map<Address, Seq<u64>>,
    source: Address,
    key: u64,
) -> Map<Address, Seq<u64>> {
    if !index.contains_key(source) {
        index
    } else if without(index[source], key).len() == 0 {
        index.remove(source)
    } else {
        index.insert(source, without(index[source], key))
    }
}

/// The index once a key has joined its file.
pub open spec fn index_with(
    index: Map<Address, Seq<u64>>,
    source: Address,
    key: u64,
) -> Map<Address, Seq<u64>> {
    if index.contains_key(source) {
        index.insert(source, index[source].push(key))
    } else {
        index.insert(source, seq![key])
    }
}

impl View for FileIndex {
    type V = Map<Address, Seq<u64>>;

    closed spec fn view(&self) -> Map<Address, Seq<u64>> {
        index_map(addresses(self.sources@), self.keys@)
    }
}

impl FileIndex {
    #[verifier::type_invariant]
    closed spec fn well_formed(&self) -> bool {
        addresses(self.sources@).no_duplicates() && self.sources@.len() == self.keys@.len()
    }

    /// An index without files.
    pub fn new() -> (x: FileIndex)
        ensures
            x@ == Map::<Address, Seq<u64>>::empty(),
    {
        let x = FileIndex { sources: Vec::new(), keys: Vec::new() };
        proof {
            assert(x@ =~= Map::<Address, Seq<u64>>::empty());
        }
        x
    }

    /// Whether no file is indexed.
    pub fn is_empty(&self) -> (b: bool)
        ensures
            b == (self@ =~= Map::<Address, Seq<u64>>::empty()),
    {
        proof {
            use_type_invariant(self);
            if self.sources@.len() > 0 {
                lemma_index_at(addresses(self.sources@), self.keys@, 0);
            }
        }
        self.sources.len() == 0
    }

    fn position(&self, source: &GamePath) -> (i: usize)
        ensures
            i <= self.sources@.len(),
            i < self.sources@.len() ==> self.sources@[i as int]@ == source@ && self@[source@]
                == self.keys@[i as int]@,
            i < self.sources@.len() <==> self@.contains_key(source@),
            self.sources@.len() == self.keys@.len(),
    {
        proof {
            use_type_invariant(self);
        }
        let mut i: usize = 0;
        while i < self.sources.len()
            invariant
                i <= self.sources@.len() == self.keys@.len(),
                forall|j: int| 0 <= j < i ==> (#[trigger] self.sources@[j])@ != source@,
                addresses(self.sources@).no_duplicates(),
            decreases self.sources@.len() - i,
        {
            if self.sources[i] == *source {
                proof {
                    assert(addresses(self.sources@)[i as int] == source@);
                    lemma_index_at(addresses(self.sources@), self.keys@, i as int);
                }
                return i;
            }
            i += 1;
        }
        i
    }

    /// Whether some entry came from the file.
    pub fn contains_key(&self, source: &GamePath) -> (b: bool)
        ensures
            b == self@.contains_key(source@),
    {
        self.position(source) < self.sources.len()
    }

    /// A copy of the keys of a file, empty where the file is not indexed.
    pub fn keys_of(&self, source: &GamePath) -> (keys: Vec<u64>)
        ensures
            self@.contains_key(source@) ==> keys@ == self@[source@],
            !self@.contains_key(source@) ==> keys@ == Seq::<u64>::empty(),
    {
        let i = self.position(source);
        let mut out: Vec<u64> = Vec::new();
        if i < self.sources.len() {
            let list = &self.keys[i];
            let mut k: usize = 0;
            while k < list.len()
                invariant
                    k <= list@.len(),
                    out@ =~= list@.take(k as int),
                decreases list@.len() - k,
            {
                out.push(list[k]);
                k += 1;
            }
            proof {
                assert(list@.take(k as int) =~= list@);
            }
        }
        out
    }

    /// Adds a key to the keys of a file.
    pub fn push(&mut self, source: GamePath, key: u64)
        ensures
            final(self)@ == index_with(old(self)@, source@, key),
    {
        proof {
            use_type_invariant(&*self);
        }
        let i = self.position(&source);
        let ghost before = self@;
        let ghost srcs = addresses(self.sources@);
        let ghost keys0 = self.keys@;
        let ghost a = source@;
        let mut whole = FileIndex { sources: Vec::new(), keys: Vec::new() };
        core::mem::swap(&mut whole, self);
        let FileIndex { sources: mut sources, keys: mut keys } = whole;
        if i < sources.len() {
            let mut list = keys.remove(i);
            list.push(key);
            keys.insert(i, list);
            proof {
                assert(keys@ =~= keys0.update(i as int, list));
                assert(srcs[i as int] == a);
                lemma_index_at(srcs, keys0, i as int);
                assert(index_map(srcs, keys@) =~= before.insert(a, list@)) by {
                    assert forall|b: Address| srcs.contains(b) implies index_map(srcs, keys@)[b]
                        == before.insert(a, list@)[b] by {
                        let j = crate::text::first_index(srcs, b);
                        crate::text::lemma_first_index(srcs, b);
                        lemma_index_at(srcs, keys0, j);
                        lemma_index_at(srcs, keys@, j);
                    }
                }
            }
        } else {
            let mut list: Vec<u64> = Vec::new();
            list.push(key);
            sources.push(source);
            keys.push(list);
            proof {
                assert(list@ =~= seq![key]);
                let srcs2 = addresses(sources@);
                assert(srcs2 =~= srcs.push(a));
                assert(!srcs.contains(a));
                assert forall|i: int, j: int|
                    0 <= i < srcs2.len() && 0 <= j < srcs2.len() && i != j implies srcs2[i]
                    != srcs2[j] by {
                    if i < srcs.len() {
                        assert(srcs.contains(srcs[i]));
                    }
                    if j < srcs.len() {
                        assert(srcs.contains(srcs[j]));
                    }
                }
                assert(index_map(srcs2, keys@) =~= before.insert(a, seq![key])) by {
                    assert forall|b: Address| srcs2.contains(b) == (srcs.contains(b) || b == a) by {
                        if srcs.contains(b) {
                            let j = choose|j: int| 0 <= j < srcs.len() && srcs[j] == b;
                            assert(srcs2[j] == b);
                        }
                        if b == a {
                            assert(srcs2[srcs.len() as int] == b);
                        }
                    }
                    assert forall|b: Address| srcs2.contains(b) implies index_map(srcs2, keys@)[b]
                        == before.insert(a, seq![key])[b] by {
                        let j = crate::text::first_index(srcs2, b);
                        crate::text::lemma_first_index(srcs2, b);
                        lemma_index_at(srcs2, keys@, j);
                        if j < srcs.len() {
                            lemma_index_at(srcs, keys0, j);
                        }
                    }
                }
            }
        }
        *self = FileIndex { sources, keys };
    }

    /// Takes a key out of the keys of a file, and the file itself where it has no key left.
    /// Tells whether it was the last key.
    pub fn remove_key(&mut self, source: &GamePath, key: u64) -> (last: bool)
        ensures
            final(self)@ == index_without(old(self)@, source@, key),
            last == (old(self)@.contains_key(source@) && !final(self)@.contains_key(source@)),
    {
        proof {
            use_type_invariant(&*self);
        }
        let i = self.position(source);
        let ghost before = self@;
        let ghost srcs = addresses(self.sources@);
        let ghost keys0 = self.keys@;
        let ghost a = source@;
        if i >= self.sources.len() {
            return false;
        }
        let mut whole = FileIndex { sources: Vec::new(), keys: Vec::new() };
        core::mem::swap(&mut whole, self);
        let FileIndex { sources: mut sources, keys: mut keys } = whole;
        let old_list = keys.remove(i);
        let mut list: Vec<u64> = Vec::new();
        let mut k: usize = 0;
        proof {
            reveal(Seq::filter);
            assert(old_list@.take(0) =~= Seq::<u64>::empty());
            assert(srcs[i as int] == a);
            lemma_index_at(srcs, keys0, i as int);
        }
        while k < old_list.len()
            invariant
                k <= old_list@.len(),
                list@ == without(old_list@.take(k as int), key),
            decreases old_list@.len() - k,
        {
            proof {
                reveal(Seq::filter);
                assert(old_list@.take(k as int + 1).drop_last() =~= old_list@.take(k as int));
            }
            if old_list[k] != key {
                list.push(old_list[k]);
            }
            k += 1;
        }
        proof {
            assert(old_list@.take(k as int) =~= old_list@);
        }
        if list.len() == 0 {
            sources.remove(i);
            proof {
                let srcs2 = addresses(sources@);
                assert(srcs2 =~= srcs.remove(i as int));
                lemma_remove_to_set(srcs, i as int);
                assert(index_map(srcs2, keys@) =~= before.remove(a)) by {
                    assert forall|b: Address|
                        srcs2.contains(b) == (srcs.contains(b) && b != a) by {
                        assert(srcs2.to_set().contains(b) == srcs.to_set().remove(a).contains(b));
                    }
                    assert forall|b: Address| srcs2.contains(b) implies index_map(srcs2, keys@)[b]
                        == before.remove(a)[b] by {
                        let j = crate::text::first_index(srcs2, b);
                        crate::text::lemma_first_index(srcs2, b);
                        lemma_index_at(srcs2, keys@, j);
                        let j2 = if j < i {
                            j
                        } else {
                            j + 1
                        };
                        assert(srcs[j2] == b);
                        lemma_index_at(srcs, keys0, j2);
                    }
                }
            }
            *self = FileIndex { sources, keys };
            true
        } else {
            keys.insert(i, list);
            proof {
                assert(keys@ =~= keys0.update(i as int, list));
                assert(index_map(srcs, keys@) =~= before.insert(a, list@)) by {
                    assert forall|b: Address| srcs.contains(b) implies index_map(srcs, keys@)[b]
                        == before.insert(a, list@)[b] by {
                        let j = crate::text::first_index(srcs, b);
                        crate::text::lemma_first_index(srcs, b);
                        lemma_index_at(srcs, keys0, j);
                        lemma_index_at(srcs, keys@, j);
                    }
                }
            }
            *self = FileIndex { sources, keys };
            false
        }
    }
}

/// A key that is added comes last among those of its file; one that is removed is gone from them,
/// and with the last one the file. The other keys keep their order, and other files theirs.
pub proof fn index_changes_one_file(
    index: Map<Address, Seq<u64>>,
    source: Address,
    key: u64,
    other: Address,
    k: u64,
)
    ensures
        index_with(index, source, key).contains_key(source),
        index.contains_key(source) ==> index_with(index, source, key)[source]
            == index[source].push(key),
        !index.contains_key(source) ==> index_with(index, source, key)[source] == seq![key],
        index_without(index, source, key).contains_key(source) <==> index.contains_key(source)
            && exists|j: int| 0 <= j < index[source].len() && #[trigger] index[source][j] != key,
        index_without(index, source, key).contains_key(source) ==> (index_without(
            index,
            source,
            key,
        )[source].contains(k) <==> index[source].contains(k) && k != key),
        other != source ==> index_with(index, source, key).contains_key(other)
            == index.contains_key(other) && index_without(index, source, key).contains_key(other)
            == index.contains_key(other),
        other != source && index.contains_key(other) ==> index_with(index, source, key)[other]
            == index[other] && index_without(index, source, key)[other] == index[other],
{
    if index.contains_key(source) {
        let s = index[source];
        let w = without(s, key);
        crate::lists::lemma_filter_contains(s, crate::lists::differs(key));
        if w.len() > 0 {
            assert(w.contains(w[0]));
            assert(s.contains(w[0]));
            let j = choose|j: int| 0 <= j < s.len() && s[j] == w[0];
            assert(s[j] != key);
        }
        if exists|j: int| 0 <= j < s.len() && #[trigger] s[j] != key {
            let j = choose|j: int| 0 <= j < s.len() && #[trigger] s[j] != key;
            assert(s.contains(s[j]));
            assert(w.contains(s[j]));
        }
    }
}

} // verus!
