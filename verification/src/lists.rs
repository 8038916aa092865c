//! Facts about sequences that several modules share.
use vstd::prelude::*;

verus! {

/// Everything but one element.
pub open spec fn differs<A>(x: A) -> spec_fn(A) -> bool {
    |y: A| y != x
}

/// A filter keeps exactly the elements that pass.
pub proof fn lemma_filter_contains<A>(s: Seq<A>, f: spec_fn(A) -> bool)
    ensures
        forall|x: A| #[trigger] s.filter(f).contains(x) <==> s.contains(x) && f(x),
    decreases s.len(),
{
    reveal(Seq::filter);
    if s.len() > 0 {
        let h = s.drop_last();
        lemma_filter_contains(h, f);
        let r = s.filter(f);
        let rh = h.filter(f);
        assert forall|x: A| #[trigger] r.contains(x) <==> s.contains(x) && f(x) by {
            if r.contains(x) {
                let i = choose|i: int| 0 <= i < r.len() && r[i] == x;
                if i < rh.len() {
                    assert(rh[i] == x);
                    assert(rh.contains(x));
                    let j = choose|j: int| 0 <= j < h.len() && h[j] == x;
                    assert(s[j] == x);
                } else {
                    assert(s[s.len() - 1] == x);
                }
            }
            if s.contains(x) && f(x) {
                let j = choose|j: int| 0 <= j < s.len() && s[j] == x;
                if j < h.len() {
                    assert(h[j] == x);
                    assert(rh.contains(x));
                    let i = choose|i: int| 0 <= i < rh.len() && rh[i] == x;
                    assert(r[i] == x);
                } else {
                    assert(r[r.len() - 1] == x);
                }
            }
        }
    }
}

/// A filter brings no duplicates in.
pub proof fn lemma_filter_distinct<A>(s: Seq<A>, f: spec_fn(A) -> bool)
    requires
        s.no_duplicates(),
    ensures
        s.filter(f).no_duplicates(),
    decreases s.len(),
{
    reveal(Seq::filter);
    if s.len() > 0 {
        let h = s.drop_last();
        lemma_filter_distinct(h, f);
        lemma_filter_contains(h, f);
        let r = s.filter(f);
        let rh = h.filter(f);
        assert forall|i: int, j: int| 0 <= i < r.len() && 0 <= j < r.len() && i != j implies r[i]
            != r[j] by {
            if i == rh.len() {
                assert(rh[j] == r[j]);
                assert(rh.contains(rh[j]));
                let k = choose|k: int| 0 <= k < h.len() && h[k] == rh[j];
                assert(s[k] == rh[j]);
            } else if j == rh.len() {
                assert(rh[i] == r[i]);
                assert(rh.contains(rh[i]));
                let k = choose|k: int| 0 <= k < h.len() && h[k] == rh[i];
                assert(s[k] == rh[i]);
            } else {
                assert(rh[i] != rh[j]);
            }
        }
    }
}

/// Filters that agree on the elements give the same.
pub proof fn lemma_filter_same<A>(s: Seq<A>, f: spec_fn(A) -> bool, g: spec_fn(A) -> bool)
    requires
        forall|x: A| s.contains(x) ==> (#[trigger] f(x) <==> g(x)),
    ensures
        s.filter(f) == s.filter(g),
    decreases s.len(),
{
    reveal(Seq::filter);
    if s.len() > 0 {
        let h = s.drop_last();
        assert forall|x: A| h.contains(x) implies (#[trigger] f(x) <==> g(x)) by {
            let i = choose|i: int| 0 <= i < h.len() && h[i] == x;
            assert(s[i] == x);
        }
        lemma_filter_same(h, f, g);
        assert(s.contains(s.last()));
        assert(f(s.last()) <==> g(s.last()));
    }
}

/// Filtering twice is filtering by both.
pub proof fn lemma_filter_both<A>(s: Seq<A>, f: spec_fn(A) -> bool, g: spec_fn(A) -> bool)
    ensures
        s.filter(f).filter(g) == s.filter(|x: A| f(x) && g(x)),
    decreases s.len(),
{
    reveal(Seq::filter);
    if s.len() > 0 {
        let h = s.drop_last();
        lemma_filter_both(h, f, g);
        let l = s.last();
        if f(l) {
            assert(s.filter(f) == h.filter(f).push(l));
            assert(h.filter(f).push(l).drop_last() =~= h.filter(f));
        }
    }
}

/// A filter that everything passes changes nothing.
pub proof fn lemma_filter_all<A>(s: Seq<A>, f: spec_fn(A) -> bool)
    requires
        forall|x: A| s.contains(x) ==> #[trigger] f(x),
    ensures
        s.filter(f) == s,
    decreases s.len(),
{
    reveal(Seq::filter);
    if s.len() > 0 {
        let h = s.drop_last();
        assert forall|x: A| h.contains(x) implies #[trigger] f(x) by {
            let i = choose|i: int| 0 <= i < h.len() && h[i] == x;
            assert(s[i] == x);
        }
        lemma_filter_all(h, f);
        assert(s.contains(s.last()));
        assert(h.push(s.last()) =~= s);
    }
}

/// Filtering out one element of a list without duplicates takes one off its length.
pub proof fn lemma_filter_out_one<A>(s: Seq<A>, x: A)
    requires
        s.no_duplicates(),
        s.contains(x),
    ensures
        s.filter(differs(x)).len() == s.len() - 1,
    decreases s.len(),
{
    reveal(Seq::filter);
    let h = s.drop_last();
    let f = differs(x);
    if s.last() == x {
        assert forall|y: A| h.contains(y) implies #[trigger] f(y) by {
            let i = choose|i: int| 0 <= i < h.len() && h[i] == y;
            assert(s[i] == y);
        }
        lemma_filter_all(h, f);
    } else {
        let i = choose|i: int| 0 <= i < s.len() && s[i] == x;
        assert(h[i] == x);
        assert(h.no_duplicates());
        lemma_filter_out_one(h, x);
    }
}

/// What a filter keeps and what it drops make up the whole list.
pub proof fn lemma_filter_parts<A>(s: Seq<A>, f: spec_fn(A) -> bool)
    ensures
        s.filter(f).len() + s.filter(|x: A| !f(x)).len() == s.len(),
    decreases s.len(),
{
    reveal(Seq::filter);
    if s.len() > 0 {
        lemma_filter_parts(s.drop_last(), f);
    }
}

/// A prefix one longer has one element more.
pub proof fn lemma_take_next<A>(s: Seq<A>, i: int)
    requires
        0 <= i < s.len(),
    ensures
        forall|x: A| #[trigger]
            s.take(i + 1).contains(x) <==> s.take(i).contains(x) || x == s[i],
        s.no_duplicates() ==> !s.take(i).contains(s[i]),
{
    let a = s.take(i);
    let b = s.take(i + 1);
    assert forall|x: A| #[trigger] b.contains(x) <==> a.contains(x) || x == s[i] by {
        if a.contains(x) {
            let j = choose|j: int| 0 <= j < a.len() && a[j] == x;
            assert(b[j] == x);
        }
        if x == s[i] {
            assert(b[i] == x);
        }
        if b.contains(x) {
            let j = choose|j: int| 0 <= j < b.len() && b[j] == x;
            if j < i {
                assert(a[j] == x);
            }
        }
    }
    if s.no_duplicates() && a.contains(s[i]) {
        let j = choose|j: int| 0 <= j < a.len() && a[j] == s[i];
        assert(s[j] == s[i]);
    }
}

/// The list in reverse order.
pub fn reversed<A>(list: Vec<A>) -> (out: Vec<A>)
    ensures
        out@ == list@.reverse(),
{
    let ghost given = list@;
    let mut rest = list;
    let mut out: Vec<A> = Vec::new();
    while rest.len() > 0
        invariant
            rest@ =~= given.take(rest@.len() as int),
            rest@.len() + out@.len() == given.len(),
            forall|i: int| 0 <= i < out@.len() ==> #[trigger] out@[i] == given[given.len() - 1 - i],
        decreases rest@.len(),
    {
        if let Some(a) = rest.pop() {
            out.push(a);
        }
    }
    proof {
        assert(out@ =~= given.reverse());
    }
    out
}

} // verus!
