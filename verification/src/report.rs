//! The reporter: turns a frequency table into the ranked output list —
//! one entry per distinct root, sorted by descending frequency, ties broken
//! by ascending root text.

use vstd::prelude::*;
use vstd::relations::{sorted_by, total_ordering};
use vstd::seq_lib::lemma_sorted_unique;
use crate::aggregate::FrequencyTable;
use crate::order::{lex_lt, lex_lt_exec, lemma_lex_lt_asymmetric, lemma_lex_lt_connected,
    lemma_lex_lt_transitive};
use crate::roots::RootSet;

verus! {

/// One line of the output: a root and how many corpus words it matched.
pub struct RankedEntry {
    pub root: String,
    pub frequency: usize,
}

impl View for RankedEntry {
    type V = (Seq<char>, int);

    open spec fn view(&self) -> (Seq<char>, int) {
        (self.root@, self.frequency as int)
    }
}

/// The mathematical model of an entry list.
pub open spec fn entries_model(s: Seq<RankedEntry>) -> Seq<(Seq<char>, int)> {
    s.map_values(|e: RankedEntry| e@)
}

/// Output rank order: higher frequency first; equal frequencies are
/// ordered by ascending root text.
pub open spec fn rank_le(a: (Seq<char>, int), b: (Seq<char>, int)) -> bool {
    a.1 > b.1 || (a.1 == b.1 && (a.0 == b.0 || lex_lt(a.0, b.0)))
}

/// The rank order as a relation value, for `sorted_by`.
pub open spec fn rank_order() -> spec_fn((Seq<char>, int), (Seq<char>, int)) -> bool {
    |a: (Seq<char>, int), b: (Seq<char>, int)| rank_le(a, b)
}

pub proof fn lemma_rank_order_total(a: (Seq<char>, int), b: (Seq<char>, int), c: (Seq<char>, int))
    ensures
        rank_le(a, a),
        rank_le(a, b) && rank_le(b, a) ==> a == b,
        rank_le(a, b) && rank_le(b, c) ==> rank_le(a, c),
        rank_le(a, b) || rank_le(b, a),
{
    lemma_lex_lt_asymmetric(a.0, b.0);
    lemma_lex_lt_connected(a.0, b.0);
    lemma_lex_lt_transitive(a.0, b.0, c.0);
}

/// The rank order is a total order: a sorted permutation of the entries is
/// unique.
pub proof fn lemma_rank_order_is_total_ordering()
    ensures
        total_ordering(rank_order()),
{
    let r = rank_order();
    assert forall|a: (Seq<char>, int)| #[trigger] r(a, a) by {
        lemma_rank_order_total(a, a, a);
    }
    assert forall|a: (Seq<char>, int), b: (Seq<char>, int)|
        #[trigger] r(a, b) && #[trigger] r(b, a) implies a == b by {
        lemma_rank_order_total(a, b, b);
    }
    assert forall|a: (Seq<char>, int), b: (Seq<char>, int), c: (Seq<char>, int)|
        #[trigger] r(a, b) && #[trigger] r(b, c) implies r(a, c) by {
        lemma_rank_order_total(a, b, c);
    }
    assert forall|a: (Seq<char>, int), b: (Seq<char>, int)| !(#[trigger] r(a, b)) implies r(
        b,
        a,
    ) by {
        lemma_rank_order_total(a, b, b);
    }
}

/// Whether slot `j` holds the first occurrence of its root text in the
/// root set.
pub open spec fn first_occurrence(roots: Seq<Seq<char>>, j: int) -> bool {
    forall|t: int| 0 <= t < j ==> #[trigger] roots[t] != roots[j]
}

/// The unsorted output rows drawn from the first `m` slots of the table:
/// one `(root, count)` pair per slot that holds the first occurrence of its
/// root text. Later duplicate slots are skipped — their whole tally lands
/// in the first slot, so nothing is lost.
pub open spec fn table_entries_upto(roots: Seq<Seq<char>>, counts: Seq<int>, m: int) -> Seq<
    (Seq<char>, int),
>
    decreases m,
{
    if m <= 0 {
        Seq::empty()
    } else if first_occurrence(roots, m - 1) {
        table_entries_upto(roots, counts, m - 1).push((roots[m - 1], counts[m - 1]))
    } else {
        table_entries_upto(roots, counts, m - 1)
    }
}

/// The unsorted output rows of the whole table.
pub open spec fn table_entries(roots: Seq<Seq<char>>, counts: Seq<int>) -> Seq<(Seq<char>, int)> {
    table_entries_upto(roots, counts, roots.len() as int)
}

/// Decides [`rank_le`] on two entries.
fn rank_le_exec(a: &RankedEntry, b: &RankedEntry) -> (r: bool)
    ensures
        r == rank_le(a@, b@),
{
    if a.frequency > b.frequency {
        true
    } else if a.frequency < b.frequency {
        false
    } else if lex_lt_exec(a.root.as_str(), b.root.as_str()) {
        true
    } else {
        let ba = lex_lt_exec(b.root.as_str(), a.root.as_str());
        proof {
            lemma_lex_lt_connected(a.root@, b.root@);
            lemma_lex_lt_asymmetric(a.root@, b.root@);
        }
        !ba
    }
}

proof fn lemma_entries_insert(s: Seq<RankedEntry>, j: int, x: RankedEntry)
    requires
        0 <= j <= s.len(),
    ensures
        entries_model(s.insert(j, x)) =~= entries_model(s).insert(j, x@),
{
    let a = entries_model(s.insert(j, x));
    let b = entries_model(s).insert(j, x@);
    assert forall|t: int| 0 <= t < a.len() implies a[t] == b[t] by {
        if t < j {
        } else if t == j {
        } else {
        }
    }
}

proof fn lemma_entries_to_multiset_insert(s: Seq<(Seq<char>, int)>, j: int, x: (Seq<char>, int))
    requires
        0 <= j <= s.len(),
    ensures
        s.insert(j, x).to_multiset() =~= s.to_multiset().insert(x),
{
    broadcast use vstd::seq_lib::group_to_multiset_ensures;
    broadcast use vstd::multiset::group_multiset_axioms;

    let t = s.insert(j, x);
    assert(t.remove(j) =~= s);
    assert(t[j] == x);
    assert(t.contains(x));
    assert(t.remove(j).to_multiset() =~= t.to_multiset().remove(x));
}

/// Builds the ranked output of a frequency table: one entry per distinct
/// root — a duplicated root text keeps only its first slot, where its whole
/// tally lands — sorted by descending frequency, ties broken by ascending
/// root text.
pub fn rank_entries(rs: &RootSet, ft: &FrequencyTable) -> (entries: Vec<RankedEntry>)
    requires
        ft.counts@.len() == rs@.len(),
    ensures
        entries_model(entries@) == table_entries(rs@, ft.model()).sort_by(rank_order()),
        sorted_by(entries_model(entries@), rank_order()),
        entries_model(entries@).to_multiset() == table_entries(rs@, ft.model()).to_multiset(),
{
    broadcast use vstd::seq_lib::group_to_multiset_ensures;

    let n = rs.len();
    let mut entries: Vec<RankedEntry> = Vec::new();
    let mut k: usize = 0;
    proof {
        assert(entries_model(entries@) =~= Seq::<(Seq<char>, int)>::empty());
        assert(entries_model(entries@).to_multiset() =~= table_entries_upto(
            rs@,
            ft.model(),
            0,
        ).to_multiset());
    }
    while k < n
        invariant
            k <= n,
            n == rs@.len(),
            rs@ == crate::seq_views(rs.roots@),
            ft.counts@.len() == n,
            sorted_by(entries_model(entries@), rank_order()),
            entries_model(entries@).to_multiset() == table_entries_upto(
                rs@,
                ft.model(),
                k as int,
            ).to_multiset(),
        decreases n - k,
    {
        // Is slot k the first occurrence of its root text?
        let mut dup = false;
        let mut t: usize = 0;
        loop
            invariant_except_break
                !dup,
            invariant
                t <= k,
                k < n,
                n == rs@.len(),
                rs@ == crate::seq_views(rs.roots@),
                forall|u: int| 0 <= u < t ==> #[trigger] rs@[u] != rs@[k as int],
            ensures
                dup ==> !first_occurrence(rs@, k as int),
                !dup ==> first_occurrence(rs@, k as int),
            decreases k - t,
        {
            if t >= k {
                break ;
            }
            if rs.roots[t].eq(&rs.roots[k]) {
                proof {
                    assert(rs@[t as int] == rs@[k as int]);
                }
                dup = true;
                break ;
            }
            t += 1;
        }
        if !dup {
            let e = RankedEntry { root: rs.roots[k].clone(), frequency: ft.counts[k] };
            let ghost ev = e@;
            let ghost ov = entries_model(entries@);
            // Find the rank position for the new entry.
            let mut j: usize = 0;
            loop
                invariant
                    j <= entries.len(),
                    ov == entries_model(entries@),
                    ev == e@,
                    forall|u: int| 0 <= u < j ==> rank_le(#[trigger] ov[u], ev),
                ensures
                    j <= entries.len(),
                    forall|u: int| 0 <= u < j ==> rank_le(#[trigger] ov[u], ev),
                    j < entries.len() ==> rank_le(ev, ov[j as int]),
                decreases entries.len() - j,
            {
                if j >= entries.len() {
                    break ;
                }
                if !rank_le_exec(&entries[j], &e) {
                    proof {
                        lemma_rank_order_total(ev, ov[j as int], ov[j as int]);
                    }
                    break ;
                }
                j += 1;
            }
            let ghost jj = j as int;
            let ghost oldentries = entries@;
            let ghost eghost = e;
            entries.insert(j, e);
            proof {
                lemma_entries_insert(oldentries, jj, eghost);
                let nv = entries_model(entries@);
                let r = rank_order();
                assert(nv =~= ov.insert(jj, ev));
                assert forall|i1: int, i2: int| 0 <= i1 < i2 < nv.len() implies #[trigger] r(
                    nv[i1],
                    nv[i2],
                ) by {
                    if i2 < jj {
                        assert(r(ov[i1], ov[i2]));
                    } else if i2 == jj {
                        assert(rank_le(ov[i1], ev));
                    } else if i1 == jj {
                        assert(rank_le(ev, ov[jj]));
                        assert(r(ov[jj], ov[i2 - 1]) || jj == i2 - 1);
                        lemma_rank_order_total(ev, ov[jj], ov[i2 - 1]);
                    } else if i1 < jj {
                        assert(r(ov[i1], ov[i2 - 1]));
                    } else {
                        assert(r(ov[i1 - 1], ov[i2 - 1]));
                    }
                }
                lemma_entries_to_multiset_insert(ov, jj, ev);
                broadcast use vstd::seq_lib::group_to_multiset_ensures;

                assert(ev == (rs@[k as int], ft.model()[k as int]));
                assert(table_entries_upto(rs@, ft.model(), k as int + 1) == table_entries_upto(
                    rs@,
                    ft.model(),
                    k as int,
                ).push(ev));
                assert(nv.to_multiset() =~= table_entries_upto(
                    rs@,
                    ft.model(),
                    k as int + 1,
                ).to_multiset());
            }
        } else {
            proof {
                assert(table_entries_upto(rs@, ft.model(), k as int + 1) == table_entries_upto(
                    rs@,
                    ft.model(),
                    k as int,
                ));
            }
        }
        k += 1;
    }
    proof {
        lemma_rank_order_is_total_ordering();
        let target = table_entries(rs@, ft.model()).sort_by(rank_order());
        table_entries(rs@, ft.model()).lemma_sort_by_ensures(rank_order());
        lemma_sorted_unique(entries_model(entries@), target, rank_order());
    }
    entries
}

} // verus!
