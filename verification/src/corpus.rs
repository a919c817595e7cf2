//! The corpus: the ordered list of words to be classified. Raw lines are
//! split into words at runs of whitespace; the corpus is the words of all
//! lines, in line order.

use vstd::prelude::*;
use crate::seq_views;

verus! {

/// What counts as a whitespace character when a line is split into words.
/// The answer is a function of the character alone.
pub uninterp spec fn is_space(c: char) -> bool;

/// Relies on char::is_whitespace: true exactly for characters with the
/// Unicode White_Space property, a pure function of the character.
#[verifier::external_body]
fn char_is_space(c: char) -> (r: bool)
    ensures
        r == is_space(c),
{
    c.is_whitespace()
}

/// The words found in `s` when `cur` holds the (possibly empty) word read so
/// far: a whitespace character closes `cur`, any other character extends it.
pub open spec fn split_words_from(s: Seq<char>, cur: Seq<char>) -> Seq<Seq<char>>
    decreases s.len(),
{
    if s.len() == 0 {
        if cur.len() == 0 {
            Seq::empty()
        } else {
            seq![cur]
        }
    } else if is_space(s[0]) {
        if cur.len() == 0 {
            split_words_from(s.drop_first(), Seq::empty())
        } else {
            seq![cur] + split_words_from(s.drop_first(), Seq::empty())
        }
    } else {
        split_words_from(s.drop_first(), cur.push(s[0]))
    }
}

/// The words of a line: its maximal runs of non-whitespace characters, in
/// order.
pub open spec fn split_words(s: Seq<char>) -> Seq<Seq<char>> {
    split_words_from(s, Seq::empty())
}

/// The corpus drawn from a sequence of lines: all their words, in line
/// order.
pub open spec fn corpus_words(lines: Seq<Seq<char>>) -> Seq<Seq<char>>
    decreases lines.len(),
{
    if lines.len() == 0 {
        Seq::empty()
    } else {
        corpus_words(lines.drop_last()) + split_words(lines.last())
    }
}

/// The full ordered word list. Built once by [`build_corpus`]; the matcher
/// only ever reads it.
pub struct Corpus {
    pub words: Vec<String>,
}

impl View for Corpus {
    type V = Seq<Seq<char>>;

    open spec fn view(&self) -> Seq<Seq<char>> {
        seq_views(self.words@)
    }
}

impl Corpus {
    pub fn len(&self) -> (n: usize)
        ensures
            n == self@.len(),
    {
        self.words.len()
    }
}

/// Splits one line into its whitespace-delimited words.
pub fn tokenize_line(line: &str) -> (words: Vec<String>)
    ensures
        seq_views(words@) == split_words(line@),
{
    let n = line.unicode_len();
    let mut words: Vec<String> = Vec::new();
    let mut i: usize = 0;
    let mut start: usize = 0;
    let mut in_word = false;
    proof {
        assert(line@.skip(0) =~= line@);
        assert(seq_views(words@) + split_words_from(line@, Seq::<char>::empty()) =~= split_words(
            line@,
        ));
    }
    while i < n
        invariant
            i <= n,
            n == line@.len(),
            in_word ==> start < i,
            split_words(line@) == seq_views(words@) + split_words_from(
                line@.skip(i as int),
                if in_word {
                    line@.subrange(start as int, i as int)
                } else {
                    Seq::<char>::empty()
                },
            ),
        decreases n - i,
    {
        let ghost cur: Seq<char> = if in_word {
            line@.subrange(start as int, i as int)
        } else {
            Seq::<char>::empty()
        };
        let c = line.get_char(i);
        proof {
            assert(line@.skip(i as int)[0] == line@[i as int]);
            assert(line@.skip(i as int).drop_first() =~= line@.skip(i as int + 1));
        }
        if char_is_space(c) {
            if in_word {
                let w = line.substring_char(start, i).to_owned();
                let ghost ws = seq_views(words@);
                words.push(w);
                proof {
                    assert(seq_views(words@) =~= ws.push(cur));
                    assert(ws.push(cur) + split_words_from(
                        line@.skip(i as int + 1),
                        Seq::<char>::empty(),
                    ) =~= ws + (seq![cur] + split_words_from(
                        line@.skip(i as int + 1),
                        Seq::<char>::empty(),
                    )));
                }
                in_word = false;
            }
        } else {
            if !in_word {
                start = i;
                in_word = true;
                proof {
                    assert(cur.push(line@[i as int]) =~= line@.subrange(
                        start as int,
                        i as int + 1,
                    ));
                }
            } else {
                proof {
                    assert(cur.push(line@[i as int]) =~= line@.subrange(
                        start as int,
                        i as int + 1,
                    ));
                }
            }
        }
        i += 1;
    }
    proof {
        assert(line@.skip(n as int) =~= Seq::<char>::empty());
    }
    if in_word {
        let w = line.substring_char(start, n).to_owned();
        let ghost ws = seq_views(words@);
        let ghost cur = line@.subrange(start as int, n as int);
        words.push(w);
        proof {
            assert(seq_views(words@) =~= ws.push(cur));
            assert(ws + seq![cur] =~= ws.push(cur));
        }
    } else {
        proof {
            assert(seq_views(words@) + Seq::<Seq<char>>::empty() =~= seq_views(words@));
        }
    }
    words
}

proof fn lemma_views_concat(a: Seq<String>, b: Seq<String>)
    ensures
        seq_views(a + b) =~= seq_views(a) + seq_views(b),
{
    let l = seq_views(a + b);
    let r = seq_views(a) + seq_views(b);
    assert forall|t: int| 0 <= t < l.len() implies l[t] == r[t] by {
        if t < a.len() {
        }
    }
}

/// Builds the corpus from raw lines: every line is split into words and the
/// words of all lines are kept in line order.
pub fn build_corpus(lines: &Vec<String>) -> (c: Corpus)
    ensures
        c@ == corpus_words(seq_views(lines@)),
{
    let mut words: Vec<String> = Vec::new();
    let mut k: usize = 0;
    proof {
        assert(seq_views(lines@).take(0) =~= Seq::<Seq<char>>::empty());
        assert(seq_views(words@) =~= Seq::<Seq<char>>::empty());
    }
    while k < lines.len()
        invariant
            k <= lines.len(),
            seq_views(words@) == corpus_words(seq_views(lines@).take(k as int)),
        decreases lines.len() - k,
    {
        let ghost ws = words@;
        let mut line_words = tokenize_line(lines[k].as_str());
        let ghost lw = line_words@;
        words.append(&mut line_words);
        proof {
            lemma_views_concat(ws, lw);
            let vs = seq_views(lines@);
            assert(vs.take(k as int + 1).drop_last() =~= vs.take(k as int));
            assert(vs.take(k as int + 1).last() == vs[k as int]);
            assert(seq_views(words@) =~= corpus_words(vs.take(k as int + 1)));
        }
        k += 1;
    }
    proof {
        assert(seq_views(lines@).take(lines@.len() as int) =~= seq_views(lines@));
    }
    Corpus { words }
}

} // verus!
