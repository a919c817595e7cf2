//! The aggregator: merges the workers' partial counts into one frequency
//! table that covers every root of the root set. Merging is pointwise
//! addition, so the order in which partial counts are combined never
//! matters, and chunked counting gives the same table as one pass over the
//! whole corpus.

use vstd::prelude::*;
use crate::corpus::Corpus;
use crate::matcher::{counts_of, lemma_counts_of_bounds, lemma_counts_of_concat, PartialCount};
use crate::roots::RootSet;

verus! {

/// The pointwise sum of two tallies of equal length.
pub open spec fn merged(a: Seq<int>, b: Seq<int>) -> Seq<int> {
    Seq::new(a.len(), |i: int| a[i] + b[i])
}

/// Merging two partial counts is commutative: either order gives the same
/// table.
pub proof fn lemma_merged_commutative(a: Seq<int>, b: Seq<int>)
    requires
        a.len() == b.len(),
    ensures
        merged(a, b) == merged(b, a),
{
    assert(merged(a, b) =~= merged(b, a));
}

/// Merging partial counts is associative: any grouping gives the same
/// table. Together with commutativity, every order of merging a collection
/// of partial counts yields one and the same result.
pub proof fn lemma_merged_associative(a: Seq<int>, b: Seq<int>, c: Seq<int>)
    requires
        a.len() == b.len(),
        b.len() == c.len(),
    ensures
        merged(a, merged(b, c)) == merged(merged(a, b), c),
{
    assert(merged(a, merged(b, c)) =~= merged(merged(a, b), c));
}

/// The pointwise sum of a sequence of tallies, starting from `n` zero
/// slots.
pub open spec fn merged_all(n: int, ps: Seq<Seq<int>>) -> Seq<int>
    decreases ps.len(),
{
    if ps.len() == 0 {
        Seq::new(n as nat, |i: int| 0)
    } else {
        merged(merged_all(n, ps.drop_last()), ps.last())
    }
}

/// Pulling any one tally out of the fold leaves the result unchanged:
/// `merged_all` absorbs element `i` last as well as in place.
proof fn lemma_merged_all_pull_out(n: int, ps: Seq<Seq<int>>, i: int)
    requires
        n >= 0,
        0 <= i < ps.len(),
        forall|t: int| 0 <= t < ps.len() ==> (#[trigger] ps[t]).len() == n,
    ensures
        merged_all(n, ps) == merged(merged_all(n, ps.remove(i)), ps[i]),
    decreases ps.len(),
{
    lemma_merged_all_len(n, ps);
    if i == ps.len() - 1 {
        assert(ps.remove(i) =~= ps.drop_last());
    } else {
        let head = ps.drop_last();
        assert(forall|t: int| 0 <= t < head.len() ==> (#[trigger] head[t]).len() == n);
        lemma_merged_all_pull_out(n, head, i);
        lemma_merged_all_len(n, head.remove(i));
        assert(ps.remove(i).drop_last() =~= head.remove(i));
        assert(ps.remove(i).last() == ps.last());
        // Reassociate: ((x + ps[i]) + last) == ((x + last) + ps[i]).
        let x = merged_all(n, head.remove(i));
        assert(merged(merged(x, ps[i]), ps.last()) =~= merged(merged(x, ps.last()), ps[i]));
    }
}

proof fn lemma_merged_all_len(n: int, ps: Seq<Seq<int>>)
    requires
        n >= 0,
    ensures
        merged_all(n, ps).len() == n,
    decreases ps.len(),
{
    if ps.len() > 0 {
        lemma_merged_all_len(n, ps.drop_last());
    }
}

/// Shuffling the partial counts never changes the final table: merging the
/// same collection of tallies in any order gives the same result.
pub proof fn lemma_merged_all_permutation(n: int, ps: Seq<Seq<int>>, qs: Seq<Seq<int>>)
    requires
        n >= 0,
        ps.to_multiset() == qs.to_multiset(),
        forall|t: int| 0 <= t < ps.len() ==> (#[trigger] ps[t]).len() == n,
    ensures
        merged_all(n, ps) == merged_all(n, qs),
    decreases qs.len(),
{
    broadcast use vstd::seq_lib::group_to_multiset_ensures;
    broadcast use vstd::multiset::group_multiset_axioms;

    if qs.len() == 0 {
        assert(ps.to_multiset().len() == 0);
        assert(ps =~= qs);
    } else {
        let last = qs.last();
        assert(qs.to_multiset().contains(last));
        assert(ps.to_multiset().contains(last));
        assert(ps.contains(last));
        let i = choose|i: int| 0 <= i < ps.len() && ps[i] == last;
        lemma_merged_all_pull_out(n, ps, i);
        assert(ps.remove(i).to_multiset() =~= ps.to_multiset().remove(last));
        assert(qs.drop_last() =~= qs.remove(qs.len() - 1));
        assert(qs.drop_last().to_multiset() =~= qs.to_multiset().remove(last));
        assert(forall|t: int|
            0 <= t < ps.remove(i).len() ==> (#[trigger] ps.remove(i)[t]).len() == n);
        lemma_merged_all_permutation(n, ps.remove(i), qs.drop_last());
    }
}

/// The number of corpus words behind a collection of partial counts.
pub open spec fn sum_words(ps: Seq<PartialCount>) -> int
    decreases ps.len(),
{
    if ps.len() == 0 {
        0
    } else {
        sum_words(ps.drop_last()) + ps.last().words_seen
    }
}

proof fn lemma_sum_words_step(ps: Seq<PartialCount>, t: int)
    requires
        0 <= t < ps.len(),
    ensures
        sum_words(ps.take(t + 1)) == sum_words(ps.take(t)) + ps[t].words_seen,
{
    assert(ps.take(t + 1).drop_last() =~= ps.take(t));
}

proof fn lemma_sum_words_prefix(ps: Seq<PartialCount>, t: int)
    requires
        0 <= t <= ps.len(),
    ensures
        sum_words(ps.take(t)) <= sum_words(ps),
    decreases ps.len() - t,
{
    if t == ps.len() {
        assert(ps.take(t) =~= ps);
    } else {
        lemma_sum_words_step(ps, t);
        lemma_sum_words_prefix(ps, t + 1);
    }
}

impl PartialCount {
    /// The tally as a mathematical sequence.
    pub open spec fn model(self) -> Seq<int> {
        self.counts@.map_values(|c: usize| c as int)
    }

    /// A fresh tally: one zero slot for each of `n` roots, nothing scanned.
    pub fn zero(n: usize) -> (pc: PartialCount)
        ensures
            pc.counts@.len() == n,
            forall|i: int| 0 <= i < n ==> #[trigger] pc.counts@[i] == 0,
            pc.words_seen == 0,
            pc.wf(),
    {
        let mut counts: Vec<usize> = Vec::new();
        let mut z: usize = 0;
        while z < n
            invariant
                z <= n,
                counts@.len() == z,
                forall|i: int| 0 <= i < z ==> #[trigger] counts@[i] == 0,
            decreases n - z,
        {
            counts.push(0);
            z += 1;
        }
        PartialCount { counts, words_seen: 0 }
    }

    /// Adds another chunk's tally into this one, slot by slot. The two
    /// scanned totals must fit one machine word together; tallies of
    /// disjoint chunks of one corpus always do.
    pub fn merge(&self, other: &PartialCount) -> (r: PartialCount)
        requires
            self.wf(),
            other.wf(),
            self.counts@.len() == other.counts@.len(),
            self.words_seen + other.words_seen <= usize::MAX,
        ensures
            r.counts@.len() == self.counts@.len(),
            forall|i: int|
                0 <= i < r.counts@.len() ==> #[trigger] r.counts@[i] as int == self.counts@[i]
                    + other.counts@[i],
            r.words_seen == self.words_seen + other.words_seen,
            r.wf(),
            r.model() == merged(self.model(), other.model()),
    {
        let n = self.counts.len();
        let mut counts: Vec<usize> = Vec::new();
        let mut z: usize = 0;
        while z < n
            invariant
                z <= n,
                n == self.counts@.len(),
                n == other.counts@.len(),
                self.wf(),
                other.wf(),
                self.words_seen + other.words_seen <= usize::MAX,
                counts@.len() == z,
                forall|i: int|
                    0 <= i < z ==> #[trigger] counts@[i] as int == self.counts@[i]
                        + other.counts@[i],
            decreases n - z,
        {
            let a = self.counts[z];
            let b = other.counts[z];
            counts.push(a + b);
            z += 1;
        }
        let r = PartialCount { counts, words_seen: self.words_seen + other.words_seen };
        proof {
            assert(r.model() =~= merged(self.model(), other.model()));
        }
        r
    }
}

/// The final table: one total per root of the root set it was aggregated
/// against, zero where nothing matched.
pub struct FrequencyTable {
    pub counts: Vec<usize>,
}

impl FrequencyTable {
    /// The table as a mathematical sequence.
    pub open spec fn model(self) -> Seq<int> {
        self.counts@.map_values(|c: usize| c as int)
    }
}

/// Merges a collection of partial counts — in the order given, though by
/// commutativity and associativity of the merge any order gives the same
/// table — into a frequency table with one slot per root.
pub fn aggregate(rs: &RootSet, partials: &Vec<PartialCount>) -> (ft: FrequencyTable)
    requires
        forall|t: int|
            0 <= t < partials@.len() ==> (#[trigger] partials@[t]).counts@.len() == rs@.len(),
        forall|t: int| 0 <= t < partials@.len() ==> (#[trigger] partials@[t]).wf(),
        sum_words(partials@) <= usize::MAX,
    ensures
        ft.counts@.len() == rs@.len(),
        ft.model() == merged_all(rs@.len() as int, partials@.map_values(|p: PartialCount| p.model())),
{
    let n = rs.len();
    let mut acc = PartialCount::zero(n);
    let mut t: usize = 0;
    let ghost models = partials@.map_values(|p: PartialCount| p.model());
    proof {
        assert(acc.model() =~= merged_all(n as int, models.take(0)));
        lemma_sum_words_prefix(partials@, 0);
    }
    while t < partials.len()
        invariant
            t <= partials@.len(),
            n == rs@.len(),
            models == partials@.map_values(|p: PartialCount| p.model()),
            forall|u: int|
                0 <= u < partials@.len() ==> (#[trigger] partials@[u]).counts@.len() == rs@.len(),
            forall|u: int| 0 <= u < partials@.len() ==> (#[trigger] partials@[u]).wf(),
            sum_words(partials@) <= usize::MAX,
            acc.counts@.len() == n,
            acc.wf(),
            acc.words_seen == sum_words(partials@.take(t as int)),
            acc.model() == merged_all(n as int, models.take(t as int)),
        decreases partials@.len() - t,
    {
        proof {
            lemma_sum_words_step(partials@, t as int);
            lemma_sum_words_prefix(partials@, t as int + 1);
        }
        let acc2 = acc.merge(&partials[t]);
        proof {
            assert(models.take(t as int + 1).drop_last() =~= models.take(t as int));
            assert(models.take(t as int + 1).last() == partials@[t as int].model());
        }
        acc = acc2;
        t += 1;
    }
    proof {
        assert(models.take(partials@.len() as int) =~= models);
        assert(partials@.take(partials@.len() as int) =~= partials@);
    }
    FrequencyTable { counts: acc.counts }
}

/// Tallies the whole corpus against the root set: partitions it into
/// contiguous chunks of `chunk_size` words (the final chunk may be
/// shorter), tallies each chunk, and merges the partial counts. The result
/// does not depend on `chunk_size`: it is exactly the tally of the whole
/// corpus, with every root present and zero where nothing matched.
pub fn count_root_frequencies(rs: &RootSet, corpus: &Corpus, chunk_size: usize) -> (ft:
    FrequencyTable)
    requires
        1 <= chunk_size,
    ensures
        ft.counts@.len() == rs@.len(),
        forall|i: int|
            0 <= i < rs@.len() ==> #[trigger] ft.counts@[i] as int == counts_of(rs@, corpus@)[i],
{
    let n = rs.len();
    let len = corpus.len();
    let mut acc = PartialCount::zero(n);
    let mut start: usize = 0;
    proof {
        assert(corpus@.subrange(0, 0) =~= Seq::<Seq<char>>::empty());
        lemma_counts_of_bounds(rs@, Seq::<Seq<char>>::empty());
    }
    while start < len
        invariant
            start <= len,
            1 <= chunk_size,
            len == corpus@.len(),
            n == rs@.len(),
            acc.counts@.len() == n,
            acc.wf(),
            acc.words_seen == start,
            forall|i: int|
                0 <= i < n ==> #[trigger] acc.counts@[i] as int == counts_of(
                    rs@,
                    corpus@.subrange(0, start as int),
                )[i],
        decreases len - start,
    {
        let end = if len - start > chunk_size {
            start + chunk_size
        } else {
            len
        };
        let pc = crate::matcher::count_range(rs, corpus, start, end);
        proof {
            lemma_counts_of_concat(
                rs@,
                corpus@.subrange(0, start as int),
                corpus@.subrange(start as int, end as int),
            );
            assert(corpus@.subrange(0, start as int) + corpus@.subrange(start as int, end as int)
                =~= corpus@.subrange(0, end as int));
            lemma_counts_of_bounds(rs@, corpus@.subrange(0, start as int));
        }
        acc = acc.merge(&pc);
        start = end;
    }
    proof {
        assert(corpus@.subrange(0, len as int) =~= corpus@);
    }
    FrequencyTable { counts: acc.counts }
}

} // verus!
