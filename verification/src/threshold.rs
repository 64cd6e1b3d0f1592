//! The estimate of how many consecutive line breaks end a paragraph.

use vstd::prelude::*;
use crate::text::is_blank;
use crate::text::is_white_space;
use crate::text::texts_of;
use crate::tokens::is_break;
use crate::tokens::read_tokens;
use crate::tokens::token_texts;
use crate::tokens::Token;

verus! {

/// The state of the scan that observes runs of breaks between lines with text.
pub struct RunScan {
    /// A line with text has been seen.
    pub started: bool,
    /// The breaks seen since the last line with text.
    pub run: nat,
    /// The runs observed so far, in the order in which they ended.
    pub runs: Seq<nat>,
}

/// The scan after one more token. Before the first line with text nothing is
/// counted. From then on a break lengthens the run, and a line with text
/// records the run, if there is one, and starts anew.
pub open spec fn run_step(scan: RunScan, token: Seq<char>) -> RunScan {
    if scan.started {
        if is_break(token) {
            RunScan { run: scan.run + 1, ..scan }
        } else if !is_blank(token) && scan.run > 0 {
            RunScan { run: 0, runs: scan.runs.push(scan.run), ..scan }
        } else {
            scan
        }
    } else if !is_blank(token) {
        RunScan { started: true, ..scan }
    } else {
        scan
    }
}

/// The scan after the first `n` tokens.
pub open spec fn run_scan(tokens: Seq<Seq<char>>, n: nat) -> RunScan
    decreases n,
{
    if n == 0 {
        RunScan { started: false, run: 0, runs: Seq::empty() }
    } else {
        run_step(run_scan(tokens, (n - 1) as nat), tokens[n - 1])
    }
}

/// The lengths of the runs of breaks that stand between two lines with text.
pub open spec fn observed_runs(tokens: Seq<Seq<char>>) -> Seq<nat> {
    run_scan(tokens, tokens.len()).runs
}

/// `x` put into an ascending sequence, behind the elements that are not greater.
pub open spec fn inserted(ascending: Seq<nat>, x: nat) -> Seq<nat>
    decreases ascending.len(),
{
    if ascending.len() == 0 || ascending.last() <= x {
        ascending.push(x)
    } else {
        inserted(ascending.drop_last(), x).push(ascending.last())
    }
}

/// The elements of `runs` in ascending order.
pub open spec fn ascending(runs: Seq<nat>) -> Seq<nat>
    decreases runs.len(),
{
    if runs.len() == 0 {
        runs
    } else {
        inserted(ascending(runs.drop_last()), runs.last())
    }
}

/// The element in the middle of the ascending order: the one at index
/// `len / 2`.
pub open spec fn median(runs: Seq<nat>) -> nat
    recommends
        runs.len() > 0,
{
    ascending(runs)[runs.len() as int / 2]
}

/// The threshold that the observed runs give: 1 without any run; else the
/// median, raised by one where some run is longer than the median.
pub open spec fn threshold_of_runs(runs: Seq<nat>) -> nat {
    if runs.len() == 0 {
        1
    } else if exists|i: int| 0 <= i < runs.len() && #[trigger] runs[i] > median(runs) {
        median(runs) + 1
    } else {
        median(runs)
    }
}

/// The threshold of a sequence of tokens.
pub open spec fn threshold_of(tokens: Seq<Seq<char>>) -> nat {
    threshold_of_runs(observed_runs(tokens))
}

/// No element is greater than one behind it.
pub open spec fn is_ascending(s: Seq<nat>) -> bool {
    forall|i: int, j: int| 0 <= i < j < s.len() ==> s[i] <= s[j]
}

/// Putting an element into a sequence keeps the old elements and adds the new
/// one; an ascending sequence stays ascending.
pub proof fn lemma_inserted(s: Seq<nat>, x: nat)
    ensures
        inserted(s, x).len() == s.len() + 1,
        inserted(s, x).to_multiset() == s.to_multiset().insert(x),
        is_ascending(s) ==> is_ascending(inserted(s, x)),
    decreases s.len(),
{
    broadcast use vstd::seq_lib::group_to_multiset_ensures;

    let out = inserted(s, x);
    if s.len() == 0 || s.last() <= x {
        if is_ascending(s) {
            assert forall|i: int, j: int| 0 <= i < j < out.len() implies out[i] <= out[j] by {
                if j == s.len() && s.len() > 0 && i < s.len() - 1 {
                    assert(s[i] <= s[s.len() - 1]);
                }
            }
        }
    } else {
        let front = s.drop_last();
        lemma_inserted(front, x);
        let mid = inserted(front, x);
        assert(s =~= front.push(s.last()));
        assert(s.to_multiset() =~= front.to_multiset().insert(s.last()));
        assert(out.to_multiset() =~= mid.to_multiset().insert(s.last()));
        assert(out.to_multiset() =~= s.to_multiset().insert(x));
        if is_ascending(s) {
            assert forall|i: int, j: int| 0 <= i < j < front.len() implies front[i]
                <= front[j] by {
                assert(front[i] == s[i] && front[j] == s[j]);
            }
            assert forall|k: int| 0 <= k < mid.len() implies mid[k] <= s.last() by {
                assert(mid.to_multiset().count(mid[k]) > 0);
                if mid[k] != x {
                    assert(front.to_multiset().count(mid[k]) > 0);
                    let w = choose|w: int| 0 <= w < front.len() && front[w] == mid[k];
                    assert(s[w] == mid[k]);
                    if w < s.len() - 1 {
                        assert(s[w] <= s[s.len() - 1]);
                    }
                }
            }
            assert forall|i: int, j: int| 0 <= i < j < out.len() implies out[i] <= out[j] by {
                if j < mid.len() {
                    assert(out[i] == mid[i] && out[j] == mid[j]);
                } else {
                    assert(out[i] == mid[i]);
                }
            }
        }
    }
}

/// `ascending(runs)` holds the elements of `runs`, each as often as `runs`
/// does, in ascending order.
pub proof fn lemma_ascending(runs: Seq<nat>)
    ensures
        ascending(runs).len() == runs.len(),
        ascending(runs).to_multiset() == runs.to_multiset(),
        is_ascending(ascending(runs)),
    decreases runs.len(),
{
    broadcast use vstd::seq_lib::group_to_multiset_ensures;

    if runs.len() > 0 {
        let front = runs.drop_last();
        lemma_ascending(front);
        lemma_inserted(ascending(front), runs.last());
        assert(runs =~= front.push(runs.last()));
        assert(runs.to_multiset() =~= front.to_multiset().insert(runs.last()));
    }
}

/// Where every run has one length, that length is the threshold.
pub proof fn law_uniform_runs_give_their_length(runs: Seq<nat>, k: nat)
    requires
        runs.len() >= 1,
        forall|i: int| 0 <= i < runs.len() ==> runs[i] == k,
    ensures
        threshold_of_runs(runs) == k,
{
    lemma_median_is_a_run(runs);
}

/// The median of some runs is one of them.
pub proof fn lemma_median_is_a_run(runs: Seq<nat>)
    requires
        runs.len() >= 1,
    ensures
        exists|i: int| 0 <= i < runs.len() && runs[i] == median(runs),
{
    broadcast use vstd::seq_lib::group_to_multiset_ensures;

    lemma_ascending(runs);
    let sorted = ascending(runs);
    let m = sorted[runs.len() as int / 2];
    assert(sorted.to_multiset().count(m) > 0);
    assert(runs.to_multiset().count(m) > 0);
    assert(runs.contains(m));
}

/// What bounds the scan: no run is empty, and every run, with the two lines
/// around it, fits into the tokens read.
pub open spec fn runs_fit(scan: RunScan, n: nat) -> bool {
    &&& scan.run + (if scan.started { 1nat } else { 0nat }) <= n
    &&& !scan.started ==> scan.run == 0
    &&& forall|i: int| 0 <= i < scan.runs.len() ==> 0 < #[trigger] scan.runs[i] && scan.runs[i] + 2 <= n
}

/// The runs fit at every step of the scan.
pub proof fn lemma_runs_fit(tokens: Seq<Seq<char>>, n: nat)
    requires
        n <= tokens.len(),
    ensures
        runs_fit(run_scan(tokens, n), n),
    decreases n,
{
    if n > 0 {
        let before = run_scan(tokens, (n - 1) as nat);
        let after = run_scan(tokens, n);
        lemma_runs_fit(tokens, (n - 1) as nat);
        let token = tokens[n - 1];
        if is_break(token) {
            assert(is_white_space(token[0]));
            assert(is_blank(token));
        }
        assert forall|i: int| 0 <= i < after.runs.len() implies 0 < #[trigger] after.runs[i]
            && after.runs[i] + 2 <= n by {
            if i < before.runs.len() {
                assert(after.runs[i] == before.runs[i]);
            }
        }
    }
}

/// The threshold is at least 1 and below the number of tokens, or 1.
pub proof fn lemma_threshold_bounds(tokens: Seq<Seq<char>>)
    ensures
        1 <= threshold_of(tokens),
        threshold_of(tokens) == 1 || threshold_of(tokens) < tokens.len(),
{
    let runs = observed_runs(tokens);
    lemma_runs_fit(tokens, tokens.len());
    if runs.len() > 0 {
        lemma_median_is_a_run(runs);
    }
}

/// The elements of `v` as natural numbers.
pub open spec fn nats(v: Seq<usize>) -> Seq<nat> {
    Seq::new(v.len(), |i: int| v[i] as nat)
}

/// Putting `x` at the place `at` of an ascending sequence, behind the last
/// element that is not greater, is `inserted`.
proof fn lemma_inserted_is_insert(s: Seq<nat>, x: nat, at: int)
    requires
        0 <= at <= s.len(),
        at > 0 ==> s[at - 1] <= x,
        forall|j: int| at <= j < s.len() ==> s[j] > x,
    ensures
        inserted(s, x) == s.insert(at, x),
    decreases s.len() - at,
{
    if at == s.len() {
        assert(s.insert(at, x) =~= s.push(x));
    } else {
        lemma_inserted_is_insert(s.drop_last(), x, at);
        assert(s.insert(at, x) =~= s.drop_last().insert(at, x).push(s.last()));
    }
}

/// The elements of `runs` in ascending order.
pub fn sort_ascending(runs: &Vec<usize>) -> (sorted: Vec<usize>)
    ensures
        nats(sorted@) == ascending(nats(runs@)),
{
    let mut sorted: Vec<usize> = Vec::new();
    let n = runs.len();
    let mut k: usize = 0;
    while k < n
        invariant
            k <= n,
            n == runs@.len(),
            sorted@.len() == k,
            nats(sorted@) == ascending(nats(runs@).take(k as int)),
        decreases n - k,
    {
        let x = runs[k];
        let mut at: usize = sorted.len();
        while at > 0 && sorted[at - 1] > x
            invariant
                at <= sorted@.len(),
                forall|j: int| at <= j < sorted@.len() ==> sorted@[j] > x,
            decreases at,
        {
            at -= 1;
        }
        let ghost before = nats(sorted@);
        sorted.insert(at, x);
        k += 1;
        proof {
            let all = nats(runs@);
            lemma_inserted_is_insert(before, x as nat, at as int);
            assert(nats(sorted@) =~= before.insert(at as int, x as nat));
            assert(all.take(k as int).drop_last() =~= all.take(k - 1));
            assert(all.take(k as int).last() == x as nat);
        }
    }
    assert(nats(runs@).take(n as int) =~= nats(runs@));
    sorted
}

/// Whether a token is a line with text.
fn has_text(token: &Token) -> (r: bool)
    ensures
        r == !is_blank(token.text()),
{
    match token {
        Token::Break => {
            assert(is_white_space(token.text()[0]));
            false
        },
        Token::Line(line) => !crate::text::is_blank_text(line.as_slice()),
    }
}

/// The threshold that the tokens give.
pub fn estimate_threshold(tokens: &Vec<Token>) -> (threshold: usize)
    ensures
        threshold == threshold_of(token_texts(tokens@)),
        threshold >= 1,
{
    let ghost all = token_texts(tokens@);
    let mut runs: Vec<usize> = Vec::new();
    let mut run: usize = 0;
    let mut started = false;
    let n = tokens.len();
    let mut i: usize = 0;
    while i < n
        invariant
            i <= n,
            n == tokens@.len(),
            all == token_texts(tokens@),
            started == run_scan(all, i as nat).started,
            run == run_scan(all, i as nat).run,
            nats(runs@) == run_scan(all, i as nat).runs,
        decreases n - i,
    {
        proof {
            lemma_runs_fit(all, i as nat);
        }
        let token = &tokens[i];
        assert(all[i as int] == token.text());
        if started {
            if token.is_break() {
                run += 1;
            } else if run > 0 && has_text(token) {
                let ghost before = nats(runs@);
                runs.push(run);
                assert(nats(runs@) =~= before.push(run as nat));
                run = 0;
            }
        } else if has_text(token) {
            started = true;
        }
        i += 1;
    }
    proof {
        lemma_threshold_bounds(all);
        lemma_runs_fit(all, n as nat);
    }
    if runs.len() == 0 {
        return 1;
    }
    let sorted = sort_ascending(&runs);
    proof {
        lemma_ascending(nats(runs@));
    }
    let middle = sorted[runs.len() / 2];
    proof {
        assert(middle as nat == nats(sorted@)[runs@.len() as int / 2]);
        lemma_median_is_a_run(nats(runs@));
    }
    let mut k: usize = 0;
    while k < runs.len()
        invariant
            k <= runs@.len(),
            runs@.len() > 0,
            all == token_texts(tokens@),
            nats(runs@) == observed_runs(all),
            middle as nat == median(nats(runs@)),
            middle < usize::MAX,
            forall|j: int| 0 <= j < k ==> nats(runs@)[j] <= middle,
        decreases runs@.len() - k,
    {
        if runs[k] > middle {
            assert(nats(runs@)[k as int] > median(nats(runs@)));
            return middle + 1;
        }
        k += 1;
    }
    middle
}

/// The least number of consecutive breaks that ends a paragraph, estimated
/// from `sentences` read as tokens: 1 where no run of breaks stands between
/// two lines with text; else the median of the lengths of such runs, raised by
/// one where some run is longer than the median.
pub fn select_min_split(sentences: &[String]) -> (threshold: usize)
    ensures
        threshold == threshold_of(texts_of(sentences@)),
        threshold >= 1,
{
    let tokens = read_tokens(sentences);
    estimate_threshold(&tokens)
}

} // verus!
