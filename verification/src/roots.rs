//! The root set: the prefix strings words are matched against, kept in
//! priority order (descending length, ties broken by ascending lexicographic
//! order). The order is what makes "first prefix match" mean "most specific
//! match wins". Duplicate lines are kept, each in its own slot, and a blank
//! line is kept as the empty root: it sorts last and is a prefix of every
//! word, so it collects exactly the words no other root matches.

use vstd::prelude::*;
use vstd::relations::{sorted_by, total_ordering};
use vstd::seq_lib::lemma_sorted_unique;
use crate::order::{root_le, root_order, root_le_exec, lemma_root_order_total};
use crate::seq_views;

verus! {

/// The ordered set of roots. Built once by [`build_root_set`]; the matcher
/// scans it in order and never changes it.
pub struct RootSet {
    pub roots: Vec<String>,
}

impl View for RootSet {
    type V = Seq<Seq<char>>;

    open spec fn view(&self) -> Seq<Seq<char>> {
        seq_views(self.roots@)
    }
}

impl RootSet {
    /// The root set's invariant: its entries stand in priority order.
    pub open spec fn wf(self) -> bool {
        sorted_by(self@, root_order())
    }

    pub fn len(&self) -> (n: usize)
        ensures
            n == self@.len(),
    {
        self.roots.len()
    }
}

/// The root priority order is a total order, so a sorted permutation of a
/// sequence is unique.
pub proof fn lemma_root_order_is_total_ordering()
    ensures
        total_ordering(root_order()),
{
    let r = root_order();
    assert forall|a: Seq<char>| #[trigger] r(a, a) by {
        lemma_root_order_total(a, a, a);
    }
    assert forall|a: Seq<char>, b: Seq<char>| #[trigger] r(a, b) && #[trigger] r(b, a) implies a
        == b by {
        lemma_root_order_total(a, b, b);
    }
    assert forall|a: Seq<char>, b: Seq<char>, c: Seq<char>|
        #[trigger] r(a, b) && #[trigger] r(b, c) implies r(a, c) by {
        lemma_root_order_total(a, b, c);
    }
    assert forall|a: Seq<char>, b: Seq<char>| !(#[trigger] r(a, b)) implies r(b, a) by {
        lemma_root_order_total(a, b, b);
    }
}

proof fn lemma_to_multiset_insert(s: Seq<Seq<char>>, j: int, x: Seq<char>)
    requires
        0 <= j <= s.len(),
    ensures
        s.insert(j, x).to_multiset() =~= s.to_multiset().insert(x),
{
    broadcast use vstd::seq_lib::group_to_multiset_ensures;
    broadcast use vstd::multiset::group_multiset_axioms;

    let t = s.insert(j, x);
    assert(t.remove(j) =~= s);
    assert(t[j] == x);
    assert(t.contains(x));
    assert(t.remove(j).to_multiset() =~= t.to_multiset().remove(x));
}

proof fn lemma_views_insert(s: Seq<String>, j: int, x: String)
    requires
        0 <= j <= s.len(),
    ensures
        seq_views(s.insert(j, x)) =~= seq_views(s).insert(j, x@),
{
    let a = seq_views(s.insert(j, x));
    let b = seq_views(s).insert(j, x@);
    assert forall|t: int| 0 <= t < a.len() implies a[t] == b[t] by {
        if t < j {
        } else if t == j {
        } else {
        }
    }
}

proof fn lemma_views_push(s: Seq<String>, x: String)
    ensures
        seq_views(s.push(x)) =~= seq_views(s).push(x@),
{
    let a = seq_views(s.push(x));
    let b = seq_views(s).push(x@);
    assert forall|t: int| 0 <= t < a.len() implies a[t] == b[t] by {
        if t < s.len() {
        }
    }
}

/// Orders the raw root lines by priority: descending length, ties broken by
/// ascending lexicographic order. The result is exactly the sorted
/// permutation of the input; nothing is dropped or deduplicated.
pub fn build_root_set(lines: &Vec<String>) -> (rs: RootSet)
    ensures
        rs@ == seq_views(lines@).sort_by(root_order()),
        rs.wf(),
        rs@.to_multiset() == seq_views(lines@).to_multiset(),
{
    broadcast use vstd::seq_lib::group_to_multiset_ensures;

    let mut roots: Vec<String> = Vec::new();
    let mut k: usize = 0;
    proof {
        assert(seq_views(roots@) =~= seq_views(lines@.take(0)));
    }
    while k < lines.len()
        invariant
            k <= lines.len(),
            sorted_by(seq_views(roots@), root_order()),
            seq_views(roots@).to_multiset() == seq_views(lines@.take(k as int)).to_multiset(),
        decreases lines.len() - k,
    {
        let s = lines[k].clone();
        let ghost ov = seq_views(roots@);
        let mut j: usize = 0;
        loop
            invariant
                j <= roots.len(),
                ov == seq_views(roots@),
                forall|t: int| 0 <= t < j ==> root_le(#[trigger] ov[t], s@),
            ensures
                j <= roots.len(),
                forall|t: int| 0 <= t < j ==> root_le(#[trigger] ov[t], s@),
                j < roots.len() ==> root_le(s@, ov[j as int]),
            decreases roots.len() - j,
        {
            if j >= roots.len() {
                break ;
            }
            if !root_le_exec(roots[j].as_str(), s.as_str()) {
                proof {
                    lemma_root_order_total(s@, ov[j as int], ov[j as int]);
                }
                break ;
            }
            j += 1;
        }
        let ghost jj = j as int;
        let ghost sview = s@;
        let ghost oldroots = roots@;
        let ghost sghost = s;
        roots.insert(j, s);
        proof {
            lemma_views_insert(oldroots, jj, sghost);
            let nv = seq_views(roots@);
            let r = root_order();
            assert(nv =~= ov.insert(jj, sview));
            // The new entry sits between everything at or before j and
            // everything after it, so the sequence stays sorted.
            assert forall|i1: int, i2: int| 0 <= i1 < i2 < nv.len() implies #[trigger] r(
                nv[i1],
                nv[i2],
            ) by {
                if i2 < jj {
                    assert(r(ov[i1], ov[i2]));
                } else if i2 == jj {
                    assert(root_le(ov[i1], sview));
                } else if i1 == jj {
                    assert(root_le(sview, ov[jj]));
                    assert(r(ov[jj], ov[i2 - 1]) || jj == i2 - 1);
                    lemma_root_order_total(sview, ov[jj], ov[i2 - 1]);
                } else if i1 < jj {
                    assert(r(ov[i1], ov[i2 - 1]));
                } else {
                    assert(r(ov[i1 - 1], ov[i2 - 1]));
                }
            }
            broadcast use vstd::seq_lib::group_to_multiset_ensures;

            lemma_to_multiset_insert(ov, jj, sview);
            assert(lines@.take(k as int + 1) =~= lines@.take(k as int).push(lines@[k as int]));
            lemma_views_push(lines@.take(k as int), lines@[k as int]);
            assert(seq_views(lines@.take(k as int + 1)) =~= seq_views(lines@.take(k as int)).push(
                sview,
            ));
            assert(seq_views(lines@.take(k as int + 1)).to_multiset() =~= seq_views(
                lines@.take(k as int),
            ).to_multiset().insert(sview));
            assert(nv.to_multiset() =~= seq_views(lines@.take(k as int + 1)).to_multiset());
        }
        k += 1;
    }
    proof {
        assert(lines@.take(k as int) =~= lines@);
        let target = seq_views(lines@).sort_by(root_order());
        lemma_root_order_is_total_ordering();
        seq_views(lines@).lemma_sort_by_ensures(root_order());
        lemma_sorted_unique(seq_views(roots@), target, root_order());
    }
    RootSet { roots }
}

/// Loading the same lines again gives the identical ordering: on a sequence
/// already in priority order, the sort returns its input unchanged.
pub proof fn lemma_sort_idempotent(v: Seq<Seq<char>>)
    requires
        sorted_by(v, root_order()),
    ensures
        v.sort_by(root_order()) == v,
{
    lemma_root_order_is_total_ordering();
    v.lemma_sort_by_ensures(root_order());
    lemma_sorted_unique(v, v.sort_by(root_order()), root_order());
}

} // verus!
