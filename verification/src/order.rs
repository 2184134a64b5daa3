//! Sorting by a strict order that a type declares.
use vstd::prelude::*;
use vstd::multiset::Multiset;

verus! {

broadcast use vstd::seq_lib::group_to_multiset_ensures;

/// A type whose values are ranked by a strict order (`goes_before`).
pub trait Ranked: Sized {
    /// `self` ranks strictly before `other`.
    spec fn goes_before(&self, other: &Self) -> bool;

    /// Tests `goes_before`.
    fn ranks_before(&self, other: &Self) -> (r: bool)
        ensures
            r == self.goes_before(other),
    ;

    /// No value ranks before itself.
    proof fn lemma_irreflexive(a: &Self)
        ensures
            !a.goes_before(a),
    ;

    /// Ranking is transitive.
    proof fn lemma_transitive(a: &Self, b: &Self, c: &Self)
        requires
            a.goes_before(b),
            b.goes_before(c),
        ensures
            a.goes_before(c),
    ;
}

/// No element of `s` ranks before an element that precedes it.
pub open spec fn ranked<T: Ranked>(s: Seq<T>) -> bool {
    forall|i: int, j: int| #![trigger s[i], s[j]] 0 <= i < j < s.len() ==> !s[j].goes_before(&s[i])
}

/// The elements of `v`, reordered so that none ranks before one that precedes
/// it; elements that rank alike keep their relative order.
pub fn sort_ranked<T: Ranked>(v: Vec<T>) -> (r: Vec<T>)
    ensures
        ranked(r@),
        r@.to_multiset() == v@.to_multiset(),
{
    let ghost orig = v@;
    let mut rest = v;
    let mut out: Vec<T> = Vec::new();
    assert(out@.to_multiset().add(rest@.to_multiset()) =~= orig.to_multiset()) by {
        broadcast use vstd::multiset::group_multiset_axioms;
    }
    while rest.len() > 0
        invariant
            ranked(out@),
            out@.to_multiset().add(rest@.to_multiset()) == orig.to_multiset(),
        decreases rest@.len(),
    {
        let ghost rest_before = rest@;
        let ghost out_before = out@;
        let x = rest.remove(0);
        let n = out.len();
        let mut k: usize = 0;
        while k < n && !x.ranks_before(&out[k])
            invariant
                n == out@.len(),
                out@ == out_before,
                k <= n,
                forall|j: int| 0 <= j < k ==> !x.goes_before(&#[trigger] out_before[j]),
            decreases n - k,
        {
            k = k + 1;
        }
        proof {
            assert forall|j: int| k <= j < n implies !(#[trigger] out_before[j]).goes_before(&x) by {
                if out_before[j].goes_before(&x) {
                    // x ranks before out[k], so out[j] would rank before out[k]
                    T::lemma_transitive(&out_before[j], &x, &out_before[k as int]);
                    if j == k {
                        T::lemma_irreflexive(&out_before[j]);
                    }
                }
            }
        }
        out.insert(k, x);
        proof {
            let after = out@;
            assert(after == out_before.insert(k as int, x));
            assert forall|i: int, j: int| #![trigger after[i], after[j]] 0 <= i < j < after.len() implies !after[j].goes_before(&after[i]) by {
                if i < k && j < k {
                    assert(after[i] == out_before[i] && after[j] == out_before[j]);
                } else if i < k && j == k {
                    assert(after[i] == out_before[i]);
                } else if i < k && j > k {
                    assert(after[i] == out_before[i] && after[j] == out_before[j - 1]);
                } else if i == k {
                    assert(after[j] == out_before[j - 1]);
                } else {
                    assert(after[i] == out_before[i - 1] && after[j] == out_before[j - 1]);
                }
            }
            assert(rest_before[0] == x);
            assert(rest_before.to_multiset().count(x) > 0);
            assert(out@.to_multiset().add(rest@.to_multiset()) =~= orig.to_multiset()) by {
                broadcast use vstd::multiset::group_multiset_axioms;
            }
        }
    }
    assert(rest@.to_multiset() =~= Multiset::empty()) by {
        broadcast use vstd::multiset::group_multiset_axioms;
    }
    assert(out@.to_multiset() =~= orig.to_multiset()) by {
        broadcast use vstd::multiset::group_multiset_axioms;
    }
    out
}

/// An element that stands at two positions counts at least twice.
pub proof fn lemma_repeat_counts_twice<T>(s: Seq<T>, a: int, b: int)
    requires
        0 <= a < s.len(),
        0 <= b < s.len(),
        a != b,
        s[a] == s[b],
    ensures
        s.to_multiset().count(s[a]) >= 2,
{
    broadcast use vstd::multiset::group_multiset_axioms;

    let t = s.remove(a);
    let bb = if b < a { b } else { b - 1 };
    assert(0 <= bb < t.len());
    assert(t[bb] == s[b]);
    assert(t.contains(s[a]));
    assert(t.to_multiset().count(s[a]) > 0);
    assert(s.contains(s[a]));
    assert(s.to_multiset().count(s[a]) > 0);
    assert(t.to_multiset() == s.to_multiset().remove(s[a]));
}

/// In a sequence without duplicates every element counts once.
pub proof fn lemma_distinct_counts_once<T>(s: Seq<T>, k: int)
    requires
        0 <= k < s.len(),
        s.no_duplicates(),
    ensures
        s.to_multiset().count(s[k]) == 1,
{
    s.lemma_multiset_has_no_duplicates();
    assert(s.contains(s[k]));
}

} // verus!
