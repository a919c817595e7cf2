//! The prefix matcher: assigns each word to at most one root — the first
//! root, in root-set order, whose text is a prefix of the word — and tallies
//! one contiguous chunk of the corpus into a partial count.

use vstd::prelude::*;
use vstd::relations::sorted_by;
use crate::corpus::Corpus;
use crate::order::{root_le, root_order, lemma_root_order_total};
use crate::roots::RootSet;

verus! {

/// Decides whether `word` begins with `root`, character for character,
/// case-sensitive, with no normalization.
pub fn starts_with(word: &str, root: &str) -> (r: bool)
    ensures
        r == root@.is_prefix_of(word@),
{
    let rlen = root.unicode_len();
    let wlen = word.unicode_len();
    if rlen > wlen {
        return false;
    }
    let mut i: usize = 0;
    while i < rlen
        invariant
            i <= rlen,
            rlen == root@.len(),
            rlen <= wlen,
            wlen == word@.len(),
            forall|t: int| 0 <= t < i ==> root@[t] == word@[t],
        decreases rlen - i,
    {
        let cr = root.get_char(i);
        let cw = word.get_char(i);
        if cr != cw {
            proof {
                assert(word@.subrange(0, rlen as int)[i as int] == word@[i as int]);
            }
            return false;
        }
        i += 1;
    }
    proof {
        assert(root@ =~= word@.subrange(0, rlen as int));
    }
    true
}

/// The slot of the root a word is assigned to: the first root, in root-set
/// order, whose text is a prefix of the word.
pub open spec fn match_index(roots: Seq<Seq<char>>, w: Seq<char>) -> Option<int>
    decreases roots.len(),
{
    if roots.len() == 0 {
        Option::None
    } else if roots[0].is_prefix_of(w) {
        Option::Some(0)
    } else {
        match match_index(roots.drop_first(), w) {
            Option::None => Option::None,
            Option::Some(i) => Option::Some(i + 1),
        }
    }
}

/// A word matches at most one root, and if it matches any, it matches the
/// first root in root-set order whose text is a prefix of the word: the
/// matched root is a prefix, no earlier root is, and when there is no match
/// no root at all is a prefix.
pub proof fn lemma_match_index_first(roots: Seq<Seq<char>>, w: Seq<char>)
    ensures
        match match_index(roots, w) {
            Option::Some(i) => 0 <= i < roots.len() && roots[i].is_prefix_of(w) && (forall|j: int|
                #![trigger roots[j]]
                0 <= j < i ==> !roots[j].is_prefix_of(w)),
            Option::None => forall|j: int|
                #![trigger roots[j]]
                0 <= j < roots.len() ==> !roots[j].is_prefix_of(w),
        },
    decreases roots.len(),
{
    if roots.len() > 0 && !roots[0].is_prefix_of(w) {
        let rest = roots.drop_first();
        lemma_match_index_first(rest, w);
        match match_index(roots, w) {
            Option::Some(i) => {
                assert(rest[i - 1] == roots[i]);
                assert forall|j: int| 0 <= j < i implies !(#[trigger] roots[j]).is_prefix_of(
                    w,
                ) by {
                    if j > 0 {
                        assert(rest[j - 1] == roots[j]);
                    }
                }
            },
            Option::None => {
                assert forall|j: int| 0 <= j < roots.len() implies !(#[trigger] roots[j]).is_prefix_of(
                    w,
                ) by {
                    if j > 0 {
                        assert(rest[j - 1] == roots[j]);
                    }
                }
            },
        }
    }
}

/// With the root set in priority order, the chosen root is the most
/// specific match: whenever some root is a prefix of the word, the word
/// matches, and the matched root stands no later in the priority order —
/// longest first, ties broken alphabetically — than any root that is a
/// prefix of the word.
pub proof fn lemma_match_most_specific(roots: Seq<Seq<char>>, w: Seq<char>, j: int)
    requires
        sorted_by(roots, root_order()),
        0 <= j < roots.len(),
        roots[j].is_prefix_of(w),
    ensures
        match match_index(roots, w) {
            Option::Some(i) => root_le(roots[i], roots[j]),
            Option::None => false,
        },
{
    lemma_match_index_first(roots, w);
    let r = root_order();
    match match_index(roots, w) {
        Option::Some(i) => {
            if j > i {
                assert(r(roots[i], roots[j]));
            } else if j == i {
                lemma_root_order_total(roots[i], roots[j], roots[j]);
            }
        },
        Option::None => {},
    }
}

/// Finds the word's root slot, scanning the root set in its order and
/// stopping at the first prefix match.
pub fn match_root(rs: &RootSet, word: &str) -> (m: Option<usize>)
    ensures
        match m {
            Option::Some(i) => match_index(rs@, word@) == Option::Some(i as int),
            Option::None => match_index(rs@, word@) == Option::<int>::None,
        },
{
    let n = rs.len();
    let mut j: usize = 0;
    proof {
        assert(rs@.skip(0) =~= rs@);
    }
    while j < n
        invariant
            j <= n,
            n == rs@.len(),
            rs@ == crate::seq_views(rs.roots@),
            match_index(rs@, word@) == match match_index(rs@.skip(j as int), word@) {
                Option::None => Option::<int>::None,
                Option::Some(t) => Option::Some(t + j),
            },
        decreases n - j,
    {
        proof {
            assert(rs@.skip(j as int)[0] == rs@[j as int]);
            assert(rs@.skip(j as int).drop_first() =~= rs@.skip(j as int + 1));
        }
        if starts_with(word, rs.roots[j].as_str()) {
            return Option::Some(j);
        }
        j += 1;
    }
    Option::None
}

/// The tally of a word sequence against a root set: slot `i` counts the
/// words whose match is root `i`. Words that match nothing count nowhere.
pub open spec fn counts_of(roots: Seq<Seq<char>>, words: Seq<Seq<char>>) -> Seq<int>
    decreases words.len(),
{
    if words.len() == 0 {
        Seq::new(roots.len(), |i: int| 0)
    } else {
        let rest = counts_of(roots, words.drop_last());
        match match_index(roots, words.last()) {
            Option::None => rest,
            Option::Some(i) => rest.update(i, rest[i] + 1),
        }
    }
}

/// Every root has a slot in the tally, and no root can match more words
/// than the sequence holds.
pub proof fn lemma_counts_of_bounds(roots: Seq<Seq<char>>, words: Seq<Seq<char>>)
    ensures
        counts_of(roots, words).len() == roots.len(),
        forall|i: int|
            0 <= i < roots.len() ==> 0 <= #[trigger] counts_of(roots, words)[i] <= words.len(),
    decreases words.len(),
{
    if words.len() > 0 {
        lemma_counts_of_bounds(roots, words.drop_last());
        if match_index(roots, words.last()) is Some {
            lemma_match_index_first(roots, words.last());
        }
    }
}

/// Counting chunk by chunk loses nothing: the tally of a concatenation is
/// the pointwise sum of the tallies of its parts, so merged partial counts
/// equal the tally of the whole corpus, whatever the partition.
pub proof fn lemma_counts_of_concat(roots: Seq<Seq<char>>, w1: Seq<Seq<char>>, w2: Seq<Seq<char>>)
    ensures
        forall|i: int|
            0 <= i < roots.len() ==> #[trigger] counts_of(roots, w1 + w2)[i] == counts_of(
                roots,
                w1,
            )[i] + counts_of(roots, w2)[i],
    decreases w2.len(),
{
    lemma_counts_of_bounds(roots, w1);
    lemma_counts_of_bounds(roots, w2);
    lemma_counts_of_bounds(roots, w1 + w2);
    if w2.len() == 0 {
        assert(w1 + w2 =~= w1);
    } else {
        lemma_counts_of_concat(roots, w1, w2.drop_last());
        lemma_counts_of_bounds(roots, w2.drop_last());
        lemma_counts_of_bounds(roots, w1 + w2.drop_last());
        assert((w1 + w2).drop_last() =~= w1 + w2.drop_last());
        assert((w1 + w2).last() == w2.last());
        if match_index(roots, w2.last()) is Some {
            lemma_match_index_first(roots, w2.last());
        }
    }
}

/// Every root from the root set keeps its slot, and a root that matches no
/// word of the corpus keeps count zero there.
pub proof fn lemma_unmatched_root_zero(roots: Seq<Seq<char>>, words: Seq<Seq<char>>, i: int)
    requires
        0 <= i < roots.len(),
        forall|k: int|
            0 <= k < words.len() ==> match_index(roots, #[trigger] words[k]) != Option::Some(i),
    ensures
        counts_of(roots, words)[i] == 0,
    decreases words.len(),
{
    lemma_counts_of_bounds(roots, words);
    if words.len() > 0 {
        let wdl = words.drop_last();
        lemma_counts_of_bounds(roots, wdl);
        assert forall|k: int| 0 <= k < wdl.len() implies match_index(roots, #[trigger] wdl[k])
            != Option::Some(i) by {
            assert(wdl[k] == words[k]);
        }
        lemma_unmatched_root_zero(roots, wdl, i);
        assert(words.last() == words[words.len() - 1]);
        if match_index(roots, words.last()) is Some {
            lemma_match_index_first(roots, words.last());
        }
    }
}

/// A later duplicate of a root is never anything's first match, so its slot
/// stays zero: the whole tally for a duplicated root text collapses into
/// the text's first slot.
pub proof fn lemma_duplicate_root_zero(
    roots: Seq<Seq<char>>,
    words: Seq<Seq<char>>,
    i: int,
    j: int,
)
    requires
        0 <= i < j < roots.len(),
        roots[i] == roots[j],
    ensures
        counts_of(roots, words)[j] == 0,
{
    assert forall|k: int| 0 <= k < words.len() implies match_index(roots, #[trigger] words[k])
        != Option::Some(j) by {
        lemma_match_index_first(roots, words[k]);
    }
    lemma_unmatched_root_zero(roots, words, j);
}

/// One worker's tally of one corpus chunk: slot `i` counts the chunk's
/// words whose match is root `i`; `words_seen` is the chunk's length.
#[derive(Clone)]
pub struct PartialCount {
    pub counts: Vec<usize>,
    pub words_seen: usize,
}

impl PartialCount {
    /// No slot can exceed the number of words scanned; merging tallies of
    /// disjoint chunks of one corpus therefore never overflows.
    pub open spec fn wf(self) -> bool {
        forall|i: int| 0 <= i < self.counts@.len() ==> #[trigger] self.counts@[i] <= self.words_seen
    }

    /// This tally is exactly the tally of `words` against `roots`.
    pub open spec fn is_count_of(self, roots: Seq<Seq<char>>, words: Seq<Seq<char>>) -> bool {
        &&& self.counts@.len() == roots.len()
        &&& self.words_seen == words.len()
        &&& forall|i: int|
            0 <= i < roots.len() ==> #[trigger] self.counts@[i] as int == counts_of(
                roots,
                words,
            )[i]
    }
}

/// Tallies the corpus words with indices in `[start, end)` against the root
/// set: the partial count of one contiguous chunk.
pub fn count_range(rs: &RootSet, corpus: &Corpus, start: usize, end: usize) -> (pc: PartialCount)
    requires
        start <= end <= corpus@.len(),
    ensures
        pc.is_count_of(rs@, corpus@.subrange(start as int, end as int)),
        pc.wf(),
{
    let n = rs.len();
    let mut counts: Vec<usize> = Vec::new();
    let mut z: usize = 0;
    while z < n
        invariant
            z <= n,
            counts@.len() == z,
            forall|i: int| 0 <= i < z ==> #[trigger] counts@[i] == 0,
        decreases n - z,
    {
        counts.push(0);
        z += 1;
    }
    let mut k: usize = start;
    proof {
        assert(corpus@.subrange(start as int, start as int) =~= Seq::<Seq<char>>::empty());
    }
    while k < end
        invariant
            start <= k <= end,
            end <= corpus@.len(),
            corpus@ == crate::seq_views(corpus.words@),
            n == rs@.len(),
            counts@.len() == n,
            forall|i: int|
                0 <= i < n ==> #[trigger] counts@[i] as int == counts_of(
                    rs@,
                    corpus@.subrange(start as int, k as int),
                )[i],
            forall|i: int| 0 <= i < n ==> #[trigger] counts@[i] <= k - start,
        decreases end - k,
    {
        let ghost chunk = corpus@.subrange(start as int, k as int);
        let ghost chunk1 = corpus@.subrange(start as int, k as int + 1);
        proof {
            assert(chunk1.drop_last() =~= chunk);
            assert(chunk1.last() == corpus@[k as int]);
            lemma_counts_of_bounds(rs@, chunk);
        }
        let m = match_root(rs, corpus.words[k].as_str());
        match m {
            Option::Some(i) => {
                proof {
                    lemma_match_index_first(rs@, corpus@[k as int]);
                }
                let c = counts[i];
                counts.set(i, c + 1);
            },
            Option::None => {},
        }
        k += 1;
    }
    PartialCount { counts, words_seen: end - start }
}

} // verus!
