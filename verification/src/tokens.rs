//! The decomposition of raw fragments into tokens: line breaks and lines.

use vstd::prelude::*;
use crate::text::chars_of;
use crate::text::string_of;
use crate::text::texts_of;

verus! {

/// The token that stands for a line break: the text of one line feed.
pub open spec fn break_token() -> Seq<char> {
    seq!['\n']
}

/// A line feed or a carriage return: either ends a line.
pub open spec fn is_break_char(c: char) -> bool {
    c == '\n' || c == '\r'
}

/// A token is a break.
pub open spec fn is_break(token: Seq<char>) -> bool {
    token == break_token()
}

/// A token is a line: it is not empty and holds no break character.
pub open spec fn is_line(token: Seq<char>) -> bool {
    token.len() > 0 && forall|i: int| 0 <= i < token.len() ==> !is_break_char(#[trigger] token[i])
}

/// `c`, with a carriage return turned into a line feed.
pub open spec fn normalized_char(c: char) -> char {
    if c == '\r' {
        '\n'
    } else {
        c
    }
}

/// `s`, with every carriage return turned into a line feed.
pub open spec fn normalized(s: Seq<char>) -> Seq<char> {
    Seq::new(s.len(), |i: int| normalized_char(s[i]))
}

/// The state of a scan that cuts a fragment into tokens: the tokens that are
/// complete, and the characters of the line that is still open.
pub struct TokenScan {
    pub done: Seq<Seq<char>>,
    pub open: Seq<char>,
}

/// The tokens that a scan has found once the fragment has ended.
pub open spec fn closed_tokens(scan: TokenScan) -> Seq<Seq<char>> {
    if scan.open.len() > 0 {
        scan.done.push(scan.open)
    } else {
        scan.done
    }
}

/// The scan after the first `n` characters of `s`: a break character closes
/// the open line and gives a break, any other character joins the open line.
pub open spec fn token_scan(s: Seq<char>, n: nat) -> TokenScan
    decreases n,
{
    if n == 0 {
        TokenScan { done: Seq::empty(), open: Seq::empty() }
    } else {
        let before = token_scan(s, (n - 1) as nat);
        let c = s[n - 1];
        if is_break_char(c) {
            TokenScan { done: closed_tokens(before).push(break_token()), open: Seq::empty() }
        } else {
            TokenScan { done: before.done, open: before.open.push(c) }
        }
    }
}

/// The tokens of one fragment: a break for each break character, and a line
/// for each maximal run of other characters.
pub open spec fn tokens_of_fragment(s: Seq<char>) -> Seq<Seq<char>> {
    closed_tokens(token_scan(s, s.len()))
}

/// The tokens of the fragments, in order.
pub open spec fn tokens_of(fragments: Seq<Seq<char>>) -> Seq<Seq<char>>
    decreases fragments.len(),
{
    if fragments.len() == 0 {
        Seq::empty()
    } else {
        tokens_of(fragments.drop_last()) + tokens_of_fragment(fragments.last())
    }
}

/// Every token is a break or a line, and no line follows a line.
pub open spec fn well_cut(tokens: Seq<Seq<char>>) -> bool {
    &&& forall|k: int|
        0 <= k < tokens.len() ==> is_break(#[trigger] tokens[k]) || is_line(tokens[k])
    &&& forall|k: int|
        0 < k < tokens.len() ==> is_break(#[trigger] tokens[k]) || is_break(tokens[k - 1])
}

/// What holds of a scan at every step: its tokens are well cut and end in a
/// break, its open line holds no break character, and together they spell the
/// normalized text read so far.
pub open spec fn scan_invariant(s: Seq<char>, n: nat, scan: TokenScan) -> bool {
    &&& well_cut(scan.done)
    &&& scan.done.len() > 0 ==> is_break(scan.done.last())
    &&& forall|i: int| 0 <= i < scan.open.len() ==> !is_break_char(#[trigger] scan.open[i])
    &&& scan.done.flatten() + scan.open == normalized(s.take(n as int))
}

/// The invariant holds at every step of the scan.
pub proof fn lemma_token_scan(s: Seq<char>, n: nat)
    requires
        n <= s.len(),
    ensures
        scan_invariant(s, n, token_scan(s, n)),
    decreases n,
{
    broadcast use vstd::seq::Seq::lemma_flatten_push;

    let after = token_scan(s, n);
    if n == 0 {
        assert(after.done.flatten() + after.open =~= normalized(s.take(0)));
    } else {
        let before = token_scan(s, (n - 1) as nat);
        lemma_token_scan(s, (n - 1) as nat);
        let c = s[n - 1];
        let text_before = normalized(s.take(n - 1));
        assert(normalized(s.take(n as int)) =~= text_before.push(normalized_char(c)));
        if is_break_char(c) {
            let closed = closed_tokens(before);
            assert(closed.flatten() =~= before.done.flatten() + before.open);
            assert(after.done.flatten() =~= closed.flatten() + break_token());
            assert(break_token() =~= Seq::<char>::empty().push('\n'));
            assert(after.done.flatten() + after.open =~= text_before.push('\n'));
            assert(is_break(after.done.last()));
            assert forall|k: int| 0 <= k < after.done.len() implies is_break(
                #[trigger] after.done[k],
            ) || is_line(after.done[k]) by {
                if k < before.done.len() {
                    assert(after.done[k] == before.done[k]);
                } else if k < closed.len() {
                    assert(after.done[k] == before.open);
                }
            }
            assert forall|k: int| 0 < k < after.done.len() implies is_break(
                #[trigger] after.done[k],
            ) || is_break(after.done[k - 1]) by {
                if k < before.done.len() {
                    assert(after.done[k] == before.done[k]);
                    assert(after.done[k - 1] == before.done[k - 1]);
                } else if k < closed.len() {
                    assert(after.done[k - 1] == before.done.last());
                }
            }
        } else {
            assert(after.done.flatten() + after.open =~= text_before.push(c));
            assert forall|i: int| 0 <= i < after.open.len() implies !is_break_char(
                #[trigger] after.open[i],
            ) by {
                if i < before.open.len() {
                    assert(after.open[i] == before.open[i]);
                }
            }
        }
    }
}

/// The tokens of a fragment are well cut, and spell the fragment with its
/// carriage returns turned into line feeds.
pub proof fn lemma_tokens_of_fragment(s: Seq<char>)
    ensures
        well_cut(tokens_of_fragment(s)),
        tokens_of_fragment(s).flatten() == normalized(s),
{
    broadcast use vstd::seq::Seq::lemma_flatten_push;

    lemma_token_scan(s, s.len());
    let scan = token_scan(s, s.len());
    let tokens = tokens_of_fragment(s);
    assert(s.take(s.len() as int) =~= s);
    if scan.open.len() > 0 {
        assert(tokens.flatten() =~= scan.done.flatten() + scan.open);
        assert forall|k: int| 0 <= k < tokens.len() implies is_break(#[trigger] tokens[k])
            || is_line(tokens[k]) by {
            if k < scan.done.len() {
                assert(tokens[k] == scan.done[k]);
            }
        }
        assert forall|k: int| 0 < k < tokens.len() implies is_break(#[trigger] tokens[k])
            || is_break(tokens[k - 1]) by {
            if k < scan.done.len() {
                assert(tokens[k] == scan.done[k]);
                assert(tokens[k - 1] == scan.done[k - 1]);
            } else {
                assert(tokens[k - 1] == scan.done.last());
            }
        }
    } else {
        assert(scan.done.flatten() + scan.open =~= scan.done.flatten());
    }
}

/// No token is empty, and each is a break or a line.
pub proof fn lemma_tokens_are_breaks_or_lines(fragments: Seq<Seq<char>>)
    ensures
        forall|k: int|
            0 <= k < tokens_of(fragments).len() ==> is_break(#[trigger] tokens_of(fragments)[k])
                || is_line(tokens_of(fragments)[k]),
    decreases fragments.len(),
{
    if fragments.len() > 0 {
        let head = tokens_of(fragments.drop_last());
        let tail = tokens_of_fragment(fragments.last());
        lemma_tokens_are_breaks_or_lines(fragments.drop_last());
        lemma_tokens_of_fragment(fragments.last());
        assert forall|k: int| 0 <= k < tokens_of(fragments).len() implies is_break(
            #[trigger] tokens_of(fragments)[k],
        ) || is_line(tokens_of(fragments)[k]) by {
            if k < head.len() {
                assert(tokens_of(fragments)[k] == head[k]);
            } else {
                assert(tokens_of(fragments)[k] == tail[k - head.len()]);
            }
        }
    }
}

/// The tokens, one after the other, spell the fragments, one after the other,
/// with every carriage return turned into a line feed.
pub proof fn lemma_tokens_spell_the_fragments(fragments: Seq<Seq<char>>)
    ensures
        tokens_of(fragments).flatten() == normalized(fragments.flatten()),
    decreases fragments.len(),
{
    broadcast use vstd::seq::Seq::lemma_flatten_push;

    if fragments.len() == 0 {
        assert(tokens_of(fragments).flatten() =~= normalized(fragments.flatten()));
    } else {
        let front = fragments.drop_last();
        let last = fragments.last();
        lemma_tokens_spell_the_fragments(front);
        lemma_tokens_of_fragment(last);
        vstd::seq_lib::lemma_flatten_concat(tokens_of(front), tokens_of_fragment(last));
        assert(fragments =~= front.push(last));
        assert(fragments.flatten() =~= front.flatten() + last);
        assert(normalized(front.flatten() + last) =~= normalized(front.flatten()) + normalized(
            last,
        ));
    }
}

/// A token: a line break, or a line with its text.
pub enum Token {
    /// A line feed or carriage return of the document.
    Break,
    /// A run of other characters, as it stands in the document.
    Line(Vec<char>),
}

impl Token {
    /// The text that stands for the token: the break token for a break, and
    /// for a line its characters.
    pub open spec fn text(self) -> Seq<char> {
        match self {
            Token::Break => break_token(),
            Token::Line(line) => line@,
        }
    }

    /// Whether the token is a break, or a line that holds nothing but one
    /// line feed and so reads as one.
    pub fn is_break(&self) -> (r: bool)
        ensures
            r == is_break(self.text()),
    {
        match self {
            Token::Break => true,
            Token::Line(line) => is_break_token(line.as_slice()),
        }
    }
}

/// The texts of the tokens.
pub open spec fn token_texts(tokens: Seq<Token>) -> Seq<Seq<char>> {
    Seq::new(tokens.len(), |i: int| tokens[i].text())
}

/// Whether a text is the break token.
pub fn is_break_token(token: &[char]) -> (r: bool)
    ensures
        r == is_break(token@),
{
    let r = token.len() == 1 && token[0] == '\n';
    assert(r == (token@ =~= break_token()));
    r
}

/// Cuts the fragments into tokens.
pub fn tokenize(fragments: &[String]) -> (tokens: Vec<Token>)
    ensures
        token_texts(tokens@) == tokens_of(texts_of(fragments@)),
{
    let mut tokens: Vec<Token> = Vec::new();
    let count = fragments.len();
    let mut k: usize = 0;
    while k < count
        invariant
            k <= count,
            count == fragments@.len(),
            token_texts(tokens@) == tokens_of(texts_of(fragments@).take(k as int)),
        decreases count - k,
    {
        let fragment = chars_of(fragments[k].as_str());
        let ghost head = token_texts(tokens@);
        let ghost s = fragment@;
        let n = fragment.len();
        let mut open: Vec<char> = Vec::new();
        let mut i: usize = 0;
        while i < n
            invariant
                i <= n,
                n == fragment@.len(),
                s == fragment@,
                token_texts(tokens@) == head + token_scan(s, i as nat).done,
                open@ == token_scan(s, i as nat).open,
            decreases n - i,
        {
            let c = fragment[i];
            let ghost before = token_scan(s, i as nat);
            if c == '\n' || c == '\r' {
                if open.len() > 0 {
                    let ghost was = token_texts(tokens@);
                    tokens.push(Token::Line(open));
                    assert(token_texts(tokens@) =~= was.push(open@));
                    open = Vec::new();
                }
                let ghost was = token_texts(tokens@);
                tokens.push(Token::Break);
                assert(token_texts(tokens@) =~= was.push(break_token()));
                assert(token_texts(tokens@) =~= head + closed_tokens(before).push(break_token()));
            } else {
                open.push(c);
            }
            i += 1;
        }
        if open.len() > 0 {
            let ghost was = token_texts(tokens@);
            tokens.push(Token::Line(open));
            assert(token_texts(tokens@) =~= was.push(open@));
        }
        k += 1;
        proof {
            let all = texts_of(fragments@);
            assert(all.take(k as int).drop_last() =~= all.take(k - 1));
            assert(all.take(k as int).last() == s);
            assert(token_texts(tokens@) =~= head + tokens_of_fragment(s));
        }
    }
    assert(texts_of(fragments@).take(count as int) =~= texts_of(fragments@));
    tokens
}

/// Reads each string as one token: a string that holds nothing but one line
/// feed as a break, any other as a line.
pub fn read_tokens(sentences: &[String]) -> (tokens: Vec<Token>)
    ensures
        token_texts(tokens@) == texts_of(sentences@),
{
    let mut tokens: Vec<Token> = Vec::new();
    let n = sentences.len();
    let mut i: usize = 0;
    while i < n
        invariant
            i <= n,
            n == sentences@.len(),
            token_texts(tokens@) == texts_of(sentences@).take(i as int),
        decreases n - i,
    {
        let text = chars_of(sentences[i].as_str());
        let ghost before = token_texts(tokens@);
        if is_break_token(text.as_slice()) {
            tokens.push(Token::Break);
        } else {
            tokens.push(Token::Line(text));
        }
        i += 1;
        assert(token_texts(tokens@) =~= before.push(text@));
        assert(texts_of(sentences@).take(i as int) =~= before.push(sentences@[i - 1]@));
    }
    assert(texts_of(sentences@).take(n as int) =~= texts_of(sentences@));
    tokens
}

/// The text of each token, as a string.
pub fn token_strings(tokens: &Vec<Token>) -> (out: Vec<String>)
    ensures
        texts_of(out@) == token_texts(tokens@),
{
    let mut out: Vec<String> = Vec::new();
    let n = tokens.len();
    let mut i: usize = 0;
    while i < n
        invariant
            i <= n,
            n == tokens@.len(),
            texts_of(out@) == token_texts(tokens@).take(i as int),
        decreases n - i,
    {
        let text = match &tokens[i] {
            Token::Break => {
                let mut line_feed: Vec<char> = Vec::new();
                line_feed.push('\n');
                assert(line_feed@ =~= break_token());
                string_of(line_feed.as_slice())
            },
            Token::Line(line) => string_of(line.as_slice()),
        };
        let ghost before = texts_of(out@);
        out.push(text);
        i += 1;
        assert(texts_of(out@) =~= before.push(text@));
        assert(token_texts(tokens@).take(i as int) =~= before.push(tokens@[i - 1].text()));
    }
    assert(token_texts(tokens@).take(n as int) =~= token_texts(tokens@));
    out
}

/// Cuts the fragments into tokens and gives the text of each. Empty
/// fragments give nothing; a carriage return counts as a line feed; each line
/// feed gives the break token, and each maximal run of other characters gives
/// a line with exactly those characters.
pub fn separate_line_breakers(sentences: &[String]) -> (tokens: Vec<String>)
    ensures
        texts_of(tokens@) == tokens_of(texts_of(sentences@)),
        forall|k: int|
            0 <= k < tokens@.len() ==> is_break(#[trigger] texts_of(tokens@)[k]) || is_line(
                texts_of(tokens@)[k],
            ),
        texts_of(tokens@).flatten() == normalized(texts_of(sentences@).flatten()),
{
    let cut = tokenize(sentences);
    proof {
        lemma_tokens_are_breaks_or_lines(texts_of(sentences@));
        lemma_tokens_spell_the_fragments(texts_of(sentences@));
    }
    token_strings(&cut)
}

} // verus!
