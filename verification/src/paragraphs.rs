//! The choice of the paragraphs worth reading: those of more than two words,
//! the longest first.

use vstd::prelude::*;
use crate::cleanup::count_words;
use crate::cleanup::word_count;
use crate::text::texts_of;

verus! {

/// `x` put into a ranking, behind the texts that have at least as many words.
pub open spec fn placed(ranking: Seq<Seq<char>>, x: Seq<char>) -> Seq<Seq<char>>
    decreases ranking.len(),
{
    if ranking.len() == 0 || word_count(ranking.last()) >= word_count(x) {
        ranking.push(x)
    } else {
        placed(ranking.drop_last(), x).push(ranking.last())
    }
}

/// The paragraphs of more than two words, those of more words first, and
/// those of equally many in their order.
pub open spec fn ranked(paragraphs: Seq<Seq<char>>) -> Seq<Seq<char>>
    decreases paragraphs.len(),
{
    if paragraphs.len() == 0 {
        Seq::empty()
    } else if word_count(paragraphs.last()) > 2 {
        placed(ranked(paragraphs.drop_last()), paragraphs.last())
    } else {
        ranked(paragraphs.drop_last())
    }
}

/// No text has fewer words than one behind it, and each has more than two.
pub open spec fn is_ranking(ranking: Seq<Seq<char>>) -> bool {
    &&& forall|i: int, j: int|
        0 <= i < j < ranking.len() ==> word_count(ranking[i]) >= word_count(ranking[j])
    &&& forall|i: int| 0 <= i < ranking.len() ==> word_count(#[trigger] ranking[i]) > 2
}

/// Placing a text at `at`, behind the last text that has at least as many
/// words, is `placed`.
proof fn lemma_placed_is_insert(ranking: Seq<Seq<char>>, x: Seq<char>, at: int)
    requires
        0 <= at <= ranking.len(),
        at > 0 ==> word_count(ranking[at - 1]) >= word_count(x),
        forall|j: int| at <= j < ranking.len() ==> word_count(ranking[j]) < word_count(x),
    ensures
        placed(ranking, x) == ranking.insert(at, x),
    decreases ranking.len() - at,
{
    if at == ranking.len() {
        assert(ranking.insert(at, x) =~= ranking.push(x));
    } else {
        lemma_placed_is_insert(ranking.drop_last(), x, at);
        assert(ranking.insert(at, x) =~= ranking.drop_last().insert(at, x).push(ranking.last()));
    }
}

/// A ranking stays one when a text of more than two words is placed in it.
pub proof fn lemma_placed_keeps_ranking(ranking: Seq<Seq<char>>, x: Seq<char>)
    requires
        is_ranking(ranking),
        word_count(x) > 2,
    ensures
        is_ranking(placed(ranking, x)),
        placed(ranking, x).len() == ranking.len() + 1,
        forall|i: int|
            0 <= i < placed(ranking, x).len() ==> word_count(#[trigger] placed(ranking, x)[i])
                >= word_count(x) || word_count(placed(ranking, x)[i]) >= word_count(
                ranking.last(),
            ),
    decreases ranking.len(),
{
    let out = placed(ranking, x);
    if ranking.len() == 0 || word_count(ranking.last()) >= word_count(x) {
        assert forall|i: int, j: int| 0 <= i < j < out.len() implies word_count(out[i])
            >= word_count(out[j]) by {
            if j == ranking.len() && i < ranking.len() - 1 {
                assert(word_count(ranking[i]) >= word_count(ranking[ranking.len() - 1]));
            }
        }
    } else {
        let front = ranking.drop_last();
        assert(is_ranking(front)) by {
            assert forall|i: int, j: int| 0 <= i < j < front.len() implies word_count(front[i])
                >= word_count(front[j]) by {
                assert(front[i] == ranking[i] && front[j] == ranking[j]);
            }
            assert forall|i: int| 0 <= i < front.len() implies word_count(#[trigger] front[i])
                > 2 by {
                assert(front[i] == ranking[i]);
            }
        }
        lemma_placed_keeps_ranking(front, x);
        let mid = placed(front, x);
        assert forall|i: int| 0 <= i < mid.len() implies word_count(#[trigger] mid[i])
            >= word_count(ranking.last()) by {
            if word_count(mid[i]) < word_count(x) {
                assert(front.len() > 0);
                assert(word_count(front[front.len() - 1]) >= word_count(
                    ranking[ranking.len() - 1],
                ));
            }
        }
        assert forall|i: int, j: int| 0 <= i < j < out.len() implies word_count(out[i])
            >= word_count(out[j]) by {
            if j < mid.len() {
                assert(out[i] == mid[i] && out[j] == mid[j]);
            } else {
                assert(out[i] == mid[i]);
            }
        }
        assert forall|i: int| 0 <= i < out.len() implies word_count(#[trigger] out[i]) > 2 by {
            if i < mid.len() {
                assert(out[i] == mid[i]);
            }
        }
    }
}

/// The chosen paragraphs are ranked: each has more than two words, and none
/// has fewer words than one behind it.
pub proof fn lemma_ranked_is_ranking(paragraphs: Seq<Seq<char>>)
    ensures
        is_ranking(ranked(paragraphs)),
    decreases paragraphs.len(),
{
    if paragraphs.len() > 0 {
        lemma_ranked_is_ranking(paragraphs.drop_last());
        if word_count(paragraphs.last()) > 2 {
            lemma_placed_keeps_ranking(ranked(paragraphs.drop_last()), paragraphs.last());
        }
    }
}

/// The paragraphs of more than two words, those of more words first and
/// those of equally many in their order.
pub fn select_paragraphs(paragraphs: &[String]) -> (chosen: Vec<String>)
    ensures
        texts_of(chosen@) == ranked(texts_of(paragraphs@)),
        is_ranking(texts_of(chosen@)),
{
    let mut chosen: Vec<String> = Vec::new();
    let mut counts: Vec<usize> = Vec::new();
    let n = paragraphs.len();
    let mut k: usize = 0;
    while k < n
        invariant
            k <= n,
            n == paragraphs@.len(),
            counts@.len() == chosen@.len(),
            forall|i: int| 0 <= i < counts@.len() ==> counts@[i] == word_count(#[trigger] chosen@[i]@),
            texts_of(chosen@) == ranked(texts_of(paragraphs@).take(k as int)),
        decreases n - k,
    {
        let words = count_words(paragraphs[k].as_str());
        proof {
            let all = texts_of(paragraphs@);
            assert(all.take(k + 1).drop_last() =~= all.take(k as int));
            assert(all.take(k + 1).last() == paragraphs@[k as int]@);
        }
        if words > 2 {
            let mut at: usize = counts.len();
            while at > 0 && counts[at - 1] < words
                invariant
                    at <= counts@.len(),
                    forall|j: int| at <= j < counts@.len() ==> counts@[j] < words,
                decreases at,
            {
                at -= 1;
            }
            let text = paragraphs[k].clone();
            let ghost before = texts_of(chosen@);
            let ghost old_chosen = chosen@;
            let ghost old_counts = counts@;
            proof {
                assert forall|j: int| at <= j < before.len() implies word_count(before[j])
                    < word_count(text@) by {
                    assert(counts@[j] == word_count(chosen@[j]@));
                }
                if at > 0 {
                    assert(counts@[at - 1] == word_count(chosen@[at - 1]@));
                }
                lemma_placed_is_insert(before, text@, at as int);
            }
            chosen.insert(at, text);
            counts.insert(at, words);
            assert(texts_of(chosen@) =~= before.insert(at as int, text@));
            assert forall|i: int| 0 <= i < counts@.len() implies counts@[i] == word_count(
                #[trigger] chosen@[i]@,
            ) by {
                if i < at {
                    assert(chosen@[i] == old_chosen[i] && counts@[i] == old_counts[i]);
                } else if i > at {
                    assert(chosen@[i] == old_chosen[i - 1] && counts@[i] == old_counts[i - 1]);
                }
            }
        }
        k += 1;
    }
    proof {
        assert(texts_of(paragraphs@).take(n as int) =~= texts_of(paragraphs@));
        lemma_ranked_is_ranking(texts_of(paragraphs@));
    }
    chosen
}

} // verus!
