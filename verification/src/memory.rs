//! The memory layer: what parsing each file gave, shared by all assets of the file.
use crate::game_path::{Address, GamePath};
use crate::path_index::{addresses, lemma_remove_to_set};
use crate::text::{first_index, lemma_first_index, lemma_first_index_is};
use vstd::prelude::*;

verus! {

/// What parsing each file gave.
#[derive(Debug)]
pub struct MemoryLayer<P> {
    sources: Vec<GamePath>,
    parsed: Vec<P>,
}

spec fn layer_map<P>(sources: Seq<Address>, parsed: Seq<P>) -> Map<Address, P> {
    Map::new(|a: Address| sources.contains(a), |a: Address| parsed[first_index(sources, a)])
}

proof fn lemma_layer_at<P>(sources: Seq<Address>, parsed: Seq<P>, i: int)
    requires
        sources.no_duplicates(),
        0 <= i < sources.len(),
    ensures
        layer_map(sources, parsed).contains_key(sources[i]),
        layer_map(sources, parsed)[sources[i]] == parsed[i],
{
    assert(sources.contains(sources[i]));
    lemma_first_index_is(sources, sources[i], i);
}

impl<P> View for MemoryLayer<P> {
    type V = Map<Address, P>;

    closed spec fn view(&self) -> Map<Address, P> {
        layer_map(addresses(self.sources@), self.parsed@)
    }
}

impl<P> MemoryLayer<P> {
    #[verifier::type_invariant]
    closed spec fn well_formed(&self) -> bool {
        addresses(self.sources@).no_duplicates() && self.sources@.len() == self.parsed@.len()
    }

    /// Nothing in memory.
    pub fn new() -> (m: MemoryLayer<P>)
        ensures
            m@ == Map::<Address, P>::empty(),
    {
        let m = MemoryLayer { sources: Vec::new(), parsed: Vec::new() };
        proof {
            assert(m@ =~= Map::<Address, P>::empty());
        }
        m
    }

    fn position(&self, source: &GamePath) -> (i: usize)
        ensures
            i <= self.sources@.len(),
            i < self.sources@.len() ==> self.sources@[i as int]@ == source@ && self@[source@]
                == self.parsed@[i as int],
            i < self.sources@.len() <==> self@.contains_key(source@),
            self.sources@.len() == self.parsed@.len(),
    {
        proof {
            use_type_invariant(self);
        }
        let mut i: usize = 0;
        while i < self.sources.len()
            invariant
                i <= self.sources@.len() == self.parsed@.len(),
                forall|j: int| 0 <= j < i ==> (#[trigger] self.sources@[j])@ != source@,
                addresses(self.sources@).no_duplicates(),
            decreases self.sources@.len() - i,
        {
            if self.sources[i] == *source {
                proof {
                    assert(addresses(self.sources@)[i as int] == source@);
                    lemma_layer_at(addresses(self.sources@), self.parsed@, i as int);
                }
                return i;
            }
            i += 1;
        }
        i
    }

    /// What parsing the file gave, if it is in memory.
    pub fn get(&self, source: &GamePath) -> (r: Option<&P>)
        ensures
            match r {
                Some(p) => self@.contains_key(source@) && self@[source@] == *p,
                None => !self@.contains_key(source@),
            },
    {
        let i = self.position(source);
        if i < self.sources.len() {
            Some(&self.parsed[i])
        } else {
            None
        }
    }

    /// Keeps what parsing a file gave.
    pub fn insert(&mut self, source: GamePath, value: P)
        ensures
            final(self)@ == old(self)@.insert(source@, value),
    {
        proof {
            use_type_invariant(&*self);
        }
        let i = self.position(&source);
        let ghost before = self@;
        let ghost srcs = addresses(self.sources@);
        let ghost parsed0 = self.parsed@;
        let ghost a = source@;
        let mut whole = MemoryLayer { sources: Vec::new(), parsed: Vec::new() };
        core::mem::swap(&mut whole, self);
        let MemoryLayer { sources: mut sources, parsed: mut parsed } = whole;
        if i < sources.len() {
            parsed[i] = value;
            proof {
                assert(parsed@ =~= parsed0.update(i as int, value));
                assert(srcs[i as int] == a);
                lemma_layer_at(srcs, parsed0, i as int);
                assert(layer_map(srcs, parsed@) =~= before.insert(a, value)) by {
                    assert forall|b: Address| srcs.contains(b) implies layer_map(srcs, parsed@)[b]
                        == before.insert(a, value)[b] by {
                        let j = first_index(srcs, b);
                        lemma_first_index(srcs, b);
                        lemma_layer_at(srcs, parsed0, j);
                        lemma_layer_at(srcs, parsed@, j);
                    }
                }
            }
        } else {
            sources.push(source);
            parsed.push(value);
            proof {
                let srcs2 = addresses(sources@);
                assert(srcs2 =~= srcs.push(a));
                assert(!srcs.contains(a));
                assert forall|i: int, j: int|
                    0 <= i < srcs2.len() && 0 <= j < srcs2.len() && i != j implies srcs2[i]
                    != srcs2[j] by {
                    if i < srcs.len() {
                        assert(srcs.contains(srcs[i]));
                    }
                    if j < srcs.len() {
                        assert(srcs.contains(srcs[j]));
                    }
                }
                assert(layer_map(srcs2, parsed@) =~= before.insert(a, value)) by {
                    assert forall|b: Address| srcs2.contains(b) == (srcs.contains(b) || b == a) by {
                        if srcs.contains(b) {
                            let j = choose|j: int| 0 <= j < srcs.len() && srcs[j] == b;
                            assert(srcs2[j] == b);
                        }
                        if b == a {
                            assert(srcs2[srcs.len() as int] == b);
                        }
                    }
                    assert forall|b: Address| srcs2.contains(b) implies layer_map(
                        srcs2,
                        parsed@,
                    )[b] == before.insert(a, value)[b] by {
                        let j = first_index(srcs2, b);
                        lemma_first_index(srcs2, b);
                        lemma_layer_at(srcs2, parsed@, j);
                        if j < srcs.len() {
                            lemma_layer_at(srcs, parsed0, j);
                        }
                    }
                }
            }
        }
        *self = MemoryLayer { sources, parsed };
    }

    /// Drops what parsing a file gave; gives it back.
    pub fn remove(&mut self, source: &GamePath) -> (r: Option<P>)
        ensures
            final(self)@ == old(self)@.remove(source@),
            r == (if old(self)@.contains_key(source@) {
                Some(old(self)@[source@])
            } else {
                None
            }),
    {
        proof {
            use_type_invariant(&*self);
        }
        let i = self.position(source);
        let ghost before = self@;
        let ghost srcs = addresses(self.sources@);
        let ghost parsed0 = self.parsed@;
        let ghost a = source@;
        if i >= self.sources.len() {
            proof {
                assert(before =~= before.remove(a));
            }
            return None;
        }
        let mut whole = MemoryLayer { sources: Vec::new(), parsed: Vec::new() };
        core::mem::swap(&mut whole, self);
        let MemoryLayer { sources: mut sources, parsed: mut parsed } = whole;
        let value = parsed.remove(i);
        sources.remove(i);
        proof {
            let srcs2 = addresses(sources@);
            assert(srcs[i as int] == a);
            assert(srcs2 =~= srcs.remove(i as int));
            lemma_remove_to_set(srcs, i as int);
            assert(layer_map(srcs2, parsed@) =~= before.remove(a)) by {
                assert forall|b: Address| srcs2.contains(b) == (srcs.contains(b) && b != a) by {
                    assert(srcs2.to_set().contains(b) == srcs.to_set().remove(a).contains(b));
                }
                assert forall|b: Address| srcs2.contains(b) implies layer_map(srcs2, parsed@)[b]
                    == before.remove(a)[b] by {
                    let j = first_index(srcs2, b);
                    lemma_first_index(srcs2, b);
                    lemma_layer_at(srcs2, parsed@, j);
                    let j2 = if j < i {
                        j
                    } else {
                        j + 1
                    };
                    assert(srcs[j2] == b);
                    lemma_layer_at(srcs, parsed0, j2);
                }
            }
        }
        *self = MemoryLayer { sources, parsed };
        Some(value)
    }
}

} // verus!
