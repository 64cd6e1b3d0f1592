//! Characters, blank space and the conversions between strings and sequences of characters.

use vstd::prelude::*;

verus! {

/// The code points with the Unicode property `White_Space`.
pub open spec fn is_white_space(c: char) -> bool {
    ||| ('\u{9}' <= c && c <= '\u{d}')
    ||| c == ' '
    ||| c == '\u{85}'
    ||| c == '\u{a0}'
    ||| c == '\u{1680}'
    ||| ('\u{2000}' <= c && c <= '\u{200a}')
    ||| c == '\u{2028}'
    ||| c == '\u{2029}'
    ||| c == '\u{202f}'
    ||| c == '\u{205f}'
    ||| c == '\u{3000}'
}

/// The code points of the general category `Zs` (space separators).
pub open spec fn is_space_separator(c: char) -> bool {
    ||| c == ' '
    ||| c == '\u{a0}'
    ||| c == '\u{1680}'
    ||| ('\u{2000}' <= c && c <= '\u{200a}')
    ||| c == '\u{202f}'
    ||| c == '\u{205f}'
    ||| c == '\u{3000}'
}

/// Space, tab, line feed, form feed and carriage return.
pub open spec fn is_ascii_blank(c: char) -> bool {
    c == ' ' || c == '\t' || c == '\n' || c == '\u{c}' || c == '\r'
}

/// An ASCII letter, an ASCII digit or an ASCII punctuation mark: the printable
/// ASCII characters but the space.
pub open spec fn is_ascii_graphic(c: char) -> bool {
    '!' <= c && c <= '~'
}

/// One of the digits `0` to `9`.
pub open spec fn is_ascii_digit(c: char) -> bool {
    '0' <= c && c <= '9'
}

/// Every character of `s` is white space (so the empty sequence is blank).
pub open spec fn is_blank(s: Seq<char>) -> bool {
    forall|i: int| 0 <= i < s.len() ==> is_white_space(#[trigger] s[i])
}

/// `s` without its leading white space.
pub open spec fn trimmed_start(s: Seq<char>) -> Seq<char>
    decreases s.len(),
{
    if s.len() > 0 && is_white_space(s.first()) {
        trimmed_start(s.drop_first())
    } else {
        s
    }
}

/// `s` without its trailing white space.
pub open spec fn trimmed_end(s: Seq<char>) -> Seq<char>
    decreases s.len(),
{
    if s.len() > 0 && is_white_space(s.last()) {
        trimmed_end(s.drop_last())
    } else {
        s
    }
}

/// `s` without its leading and trailing white space.
pub open spec fn trimmed(s: Seq<char>) -> Seq<char> {
    trimmed_end(trimmed_start(s))
}

/// Whether `c` has the property `White_Space`.
pub fn char_is_white_space(c: char) -> (r: bool)
    ensures
        r == is_white_space(c),
{
    ('\u{9}' <= c && c <= '\u{d}') || c == ' ' || c == '\u{85}' || c == '\u{a0}' || c == '\u{1680}'
        || ('\u{2000}' <= c && c <= '\u{200a}') || c == '\u{2028}' || c == '\u{2029}' || c
        == '\u{202f}' || c == '\u{205f}' || c == '\u{3000}'
}

/// Whether `c` is a space separator.
pub fn char_is_space_separator(c: char) -> (r: bool)
    ensures
        r == is_space_separator(c),
{
    c == ' ' || c == '\u{a0}' || c == '\u{1680}' || ('\u{2000}' <= c && c <= '\u{200a}') || c
        == '\u{202f}' || c == '\u{205f}' || c == '\u{3000}'
}

/// Dropping `a` leading white-space characters in front of a character that is
/// none (or of the end) is trimming the start.
pub proof fn lemma_trimmed_start_is_skip(s: Seq<char>, a: int)
    requires
        0 <= a <= s.len(),
        is_blank(s.take(a)),
        a < s.len() ==> !is_white_space(s[a]),
    ensures
        trimmed_start(s) == s.skip(a),
    decreases a,
{
    if a == 0 {
        assert(s.skip(0) =~= s);
    } else {
        assert(s.take(a)[0] == s[0]);
        let rest = s.drop_first();
        assert forall|i: int| 0 <= i < rest.take(a - 1).len() implies is_white_space(
            #[trigger] rest.take(a - 1)[i],
        ) by {
            assert(rest.take(a - 1)[i] == s.take(a)[i + 1]);
        }
        lemma_trimmed_start_is_skip(rest, a - 1);
        assert(rest.skip(a - 1) =~= s.skip(a));
    }
}

/// Dropping the white-space characters from `b` on, behind a character that
/// is none (or behind nothing), is trimming the end.
pub proof fn lemma_trimmed_end_is_take(s: Seq<char>, b: int)
    requires
        0 <= b <= s.len(),
        is_blank(s.skip(b)),
        b > 0 ==> !is_white_space(s[b - 1]),
    ensures
        trimmed_end(s) == s.take(b),
    decreases s.len() - b,
{
    if b == s.len() {
        assert(s.take(b) =~= s);
    } else {
        assert(s.skip(b)[s.len() - 1 - b] == s.last());
        let rest = s.drop_last();
        assert forall|i: int| 0 <= i < rest.skip(b).len() implies is_white_space(
            #[trigger] rest.skip(b)[i],
        ) by {
            assert(rest.skip(b)[i] == s.skip(b)[i]);
        }
        lemma_trimmed_end_is_take(rest, b);
        assert(rest.take(b) =~= s.take(b));
    }
}

/// `text` without its leading and trailing white space.
pub fn trim(text: &[char]) -> (out: Vec<char>)
    ensures
        out@ == trimmed(text@),
{
    let n = text.len();
    let mut a: usize = 0;
    while a < n && char_is_white_space(text[a])
        invariant
            a <= n,
            n == text@.len(),
            is_blank(text@.take(a as int)),
        decreases n - a,
    {
        a += 1;
        assert forall|i: int| 0 <= i < text@.take(a as int).len() implies is_white_space(
            #[trigger] text@.take(a as int)[i],
        ) by {
            if i < a - 1 {
                assert(text@.take(a as int)[i] == text@.take(a - 1)[i]);
            }
        }
    }
    let mut b: usize = n;
    while b > a && char_is_white_space(text[b - 1])
        invariant
            a <= b <= n,
            n == text@.len(),
            is_blank(text@.skip(b as int)),
        decreases b,
    {
        b -= 1;
        assert forall|i: int| 0 <= i < text@.skip(b as int).len() implies is_white_space(
            #[trigger] text@.skip(b as int)[i],
        ) by {
            if i > 0 {
                assert(text@.skip(b as int)[i] == text@.skip(b + 1)[i - 1]);
            }
        }
    }
    let mut out: Vec<char> = Vec::new();
    let mut i: usize = a;
    while i < b
        invariant
            a <= i <= b <= n,
            n == text@.len(),
            out@ == text@.subrange(a as int, i as int),
        decreases b - i,
    {
        out.push(text[i]);
        i += 1;
        assert(out@ =~= text@.subrange(a as int, i as int));
    }
    proof {
        let s = text@;
        lemma_trimmed_start_is_skip(s, a as int);
        let t = s.skip(a as int);
        assert forall|k: int| 0 <= k < t.skip(b - a).len() implies is_white_space(
            #[trigger] t.skip(b - a)[k],
        ) by {
            assert(t.skip(b - a)[k] == s.skip(b as int)[k]);
        }
        if b > a {
            assert(t[b - a - 1] == s[b - 1]);
        }
        lemma_trimmed_end_is_take(t, b - a);
        assert(t.take(b - a) =~= s.subrange(a as int, b as int));
    }
    out
}

/// The state of a scan that cuts a text into words: the words that are
/// complete, and the characters of the word that is still open.
pub struct WordScan {
    pub done: Seq<Seq<char>>,
    pub open: Seq<char>,
}

/// The words that a scan has found once the text has ended.
pub open spec fn closed_words(scan: WordScan) -> Seq<Seq<char>> {
    if scan.open.len() > 0 {
        scan.done.push(scan.open)
    } else {
        scan.done
    }
}

/// The scan after the first `n` characters of `s`: white space closes the open
/// word, any other character joins it.
pub open spec fn word_scan(s: Seq<char>, n: nat) -> WordScan
    decreases n,
{
    if n == 0 {
        WordScan { done: Seq::empty(), open: Seq::empty() }
    } else {
        let before = word_scan(s, (n - 1) as nat);
        let c = s[n - 1];
        if is_white_space(c) {
            WordScan { done: closed_words(before), open: Seq::empty() }
        } else {
            WordScan { done: before.done, open: before.open.push(c) }
        }
    }
}

/// The maximal runs of characters of `s` that are not white space, in order.
pub open spec fn words_of(s: Seq<char>) -> Seq<Seq<char>> {
    closed_words(word_scan(s, s.len()))
}

/// A word is not empty and holds no white space.
pub open spec fn is_word(w: Seq<char>) -> bool {
    w.len() > 0 && forall|i: int| 0 <= i < w.len() ==> !is_white_space(#[trigger] w[i])
}

/// Every complete piece of the scan is a word, and the open one holds no
/// white space.
pub open spec fn holds_words(scan: WordScan) -> bool {
    &&& forall|k: int| 0 <= k < scan.done.len() ==> is_word(#[trigger] scan.done[k])
    &&& forall|i: int| 0 <= i < scan.open.len() ==> !is_white_space(#[trigger] scan.open[i])
}

/// Every piece that a scan holds is a word.
pub proof fn lemma_word_scan_gives_words(s: Seq<char>, n: nat)
    requires
        n <= s.len(),
    ensures
        holds_words(word_scan(s, n)),
    decreases n,
{
    if n > 0 {
        let before = word_scan(s, (n - 1) as nat);
        lemma_word_scan_gives_words(s, (n - 1) as nat);
        let after = word_scan(s, n);
        if is_white_space(s[n - 1]) {
            assert forall|k: int| 0 <= k < after.done.len() implies is_word(
                #[trigger] after.done[k],
            ) by {
                if k < before.done.len() {
                    assert(after.done[k] == before.done[k]);
                }
            }
        } else {
            assert forall|i: int| 0 <= i < after.open.len() implies !is_white_space(
                #[trigger] after.open[i],
            ) by {
                if i < before.open.len() {
                    assert(after.open[i] == before.open[i]);
                }
            }
        }
    }
}

/// Every element of `words_of(s)` is a word.
pub proof fn lemma_words_are_words(s: Seq<char>)
    ensures
        forall|k: int| 0 <= k < words_of(s).len() ==> is_word(#[trigger] words_of(s)[k]),
{
    lemma_word_scan_gives_words(s, s.len());
    let scan = word_scan(s, s.len());
    assert forall|k: int| 0 <= k < words_of(s).len() implies is_word(#[trigger] words_of(s)[k]) by {
        if k < scan.done.len() {
            assert(words_of(s)[k] == scan.done[k]);
        }
    }
}

/// The parts in order, with one space between neighbours.
pub open spec fn joined_with_spaces(parts: Seq<Seq<char>>) -> Seq<char>
    decreases parts.len(),
{
    if parts.len() == 0 {
        Seq::empty()
    } else if parts.len() == 1 {
        parts[0]
    } else {
        joined_with_spaces(parts.drop_last()).push(' ') + parts.last()
    }
}

/// The views of the elements of `lines`.
pub open spec fn views_of(lines: Seq<Vec<char>>) -> Seq<Seq<char>> {
    Seq::new(lines.len(), |i: int| lines[i]@)
}

/// The views of the elements of `texts`.
pub open spec fn texts_of(texts: Seq<String>) -> Seq<Seq<char>> {
    Seq::new(texts.len(), |i: int| texts[i]@)
}

/// The views of the elements of `texts`.
pub open spec fn strs_of(texts: Seq<&str>) -> Seq<Seq<char>> {
    Seq::new(texts.len(), |i: int| texts[i]@)
}

/// The maximal runs of characters of `text` that are not white space, in order.
pub fn split_words(text: &[char]) -> (out: Vec<Vec<char>>)
    ensures
        views_of(out@) == words_of(text@),
{
    let mut out: Vec<Vec<char>> = Vec::new();
    let mut open: Vec<char> = Vec::new();
    let n = text.len();
    let mut i: usize = 0;
    while i < n
        invariant
            i <= n,
            n == text@.len(),
            views_of(out@) == word_scan(text@, i as nat).done,
            open@ == word_scan(text@, i as nat).open,
        decreases n - i,
    {
        let c = text[i];
        if char_is_white_space(c) {
            if open.len() > 0 {
                let ghost before = views_of(out@);
                out.push(open);
                assert(views_of(out@) =~= before.push(open@));
                open = Vec::new();
            }
        } else {
            open.push(c);
        }
        i += 1;
    }
    if open.len() > 0 {
        let ghost before = views_of(out@);
        out.push(open);
        assert(views_of(out@) =~= before.push(open@));
    }
    out
}

/// The parts in order, with one space between neighbours.
pub fn join_with_spaces(parts: &Vec<Vec<char>>) -> (out: Vec<char>)
    ensures
        out@ == joined_with_spaces(views_of(parts@)),
{
    let mut out: Vec<char> = Vec::new();
    let n = parts.len();
    let mut k: usize = 0;
    while k < n
        invariant
            k <= n,
            n == parts@.len(),
            out@ == joined_with_spaces(views_of(parts@).take(k as int)),
        decreases n - k,
    {
        let ghost before = out@;
        if k > 0 {
            out.push(' ');
        }
        let part = &parts[k];
        let m = part.len();
        let ghost base = out@;
        let mut j: usize = 0;
        while j < m
            invariant
                j <= m,
                m == part@.len(),
                out@ == base + part@.take(j as int),
            decreases m - j,
        {
            out.push(part[j]);
            j += 1;
            assert(part@.take(j as int) =~= part@.take(j - 1).push(part@[j - 1]));
            assert(out@ =~= base + part@.take(j as int));
        }
        k += 1;
        proof {
            let all = views_of(parts@);
            assert(part@.take(m as int) =~= part@);
            assert(all.take(k as int).drop_last() =~= all.take(k - 1));
            assert(all.take(k as int).last() == part@);
            if k == 1 {
                assert(out@ =~= part@);
            }
        }
    }
    assert(views_of(parts@).take(n as int) =~= views_of(parts@));
    out
}

/// Appends one character to a string. This is `String::push` of the standard
/// library, which this contract describes and nothing here proves: the string
/// afterwards is the string before, followed by `c`.
#[verifier::external_body]
fn push_char(text: &mut String, c: char)
    ensures
        final(text)@ == old(text)@.push(c),
{
    text.push(c)
}

/// The lower-case form that the standard library gives to a text.
pub uninterp spec fn lowercase_of(text: Seq<char>) -> Seq<char>;

/// Calls `str::to_lowercase` of the standard library. The contract names the
/// outcome `lowercase_of(text)`: the conversion follows the Unicode tables that
/// the standard library carries and depends on the text alone.
#[verifier::external_body]
fn to_lowercase(text: &str) -> (lowered: String)
    ensures
        lowered@ == lowercase_of(text@),
{
    text.to_lowercase()
}

/// The lower-case form of `text`.
pub fn lowercase(text: &[char]) -> (lowered: Vec<char>)
    ensures
        lowered@ == lowercase_of(text@),
{
    let as_string = string_of(text);
    let lowered = to_lowercase(as_string.as_str());
    chars_of(lowered.as_str())
}

/// Whether two texts hold the same characters.
pub fn same_text(a: &[char], b: &[char]) -> (r: bool)
    ensures
        r == (a@ == b@),
{
    if a.len() != b.len() {
        return false;
    }
    let n = a.len();
    let mut i: usize = 0;
    while i < n
        invariant
            i <= n,
            n == a@.len(),
            n == b@.len(),
            a@.take(i as int) == b@.take(i as int),
        decreases n - i,
    {
        if a[i] != b[i] {
            return false;
        }
        i += 1;
        assert(a@.take(i as int) =~= a@.take(i - 1).push(a@[i - 1]));
        assert(b@.take(i as int) =~= b@.take(i - 1).push(b@[i - 1]));
    }
    assert(a@.take(n as int) =~= a@);
    assert(b@.take(n as int) =~= b@);
    true
}

/// The characters of `text`, in order.
pub fn chars_of(text: &str) -> (out: Vec<char>)
    ensures
        out@ == text@,
{
    let mut out: Vec<char> = Vec::new();
    for c in it: text.chars()
        invariant
            it.seq() == text@,
            out@ == it.seq().take(it.index()),
    {
        out.push(c);
    }
    out
}

/// The string that holds the characters of `text`, in order.
pub fn string_of(text: &[char]) -> (out: String)
    ensures
        out@ == text@,
{
    let mut out = String::new();
    let n = text.len();
    let mut i: usize = 0;
    while i < n
        invariant
            i <= n,
            n == text@.len(),
            out@ == text@.take(i as int),
        decreases n - i,
    {
        push_char(&mut out, text[i]);
        i += 1;
        assert(text@.take(i as int) =~= text@.take(i - 1).push(text@[i - 1]));
    }
    assert(text@.take(n as int) =~= text@);
    out
}

/// The characters of each string of `texts`.
pub fn lines_of(texts: &[String]) -> (out: Vec<Vec<char>>)
    ensures
        views_of(out@) == texts_of(texts@),
{
    let mut out: Vec<Vec<char>> = Vec::new();
    let n = texts.len();
    let mut i: usize = 0;
    while i < n
        invariant
            i <= n,
            n == texts@.len(),
            views_of(out@) == texts_of(texts@).take(i as int),
        decreases n - i,
    {
        let line = chars_of(texts[i].as_str());
        let ghost before = views_of(out@);
        out.push(line);
        i += 1;
        assert(views_of(out@) =~= before.push(line@));
        assert(texts_of(texts@).take(i as int) =~= before.push(texts@[i - 1]@));
    }
    assert(texts_of(texts@).take(n as int) =~= texts_of(texts@));
    out
}

/// The characters of each string slice of `texts`.
pub fn lines_of_strs(texts: &[&str]) -> (out: Vec<Vec<char>>)
    ensures
        views_of(out@) == strs_of(texts@),
{
    let mut out: Vec<Vec<char>> = Vec::new();
    let n = texts.len();
    let mut i: usize = 0;
    while i < n
        invariant
            i <= n,
            n == texts@.len(),
            views_of(out@) == strs_of(texts@).take(i as int),
        decreases n - i,
    {
        let line = chars_of(texts[i]);
        let ghost before = views_of(out@);
        out.push(line);
        i += 1;
        assert(views_of(out@) =~= before.push(line@));
        assert(strs_of(texts@).take(i as int) =~= before.push(texts@[i - 1]@));
    }
    assert(strs_of(texts@).take(n as int) =~= strs_of(texts@));
    out
}

/// One string for each element of `lines`, with the same characters.
pub fn strings_of(lines: &Vec<Vec<char>>) -> (out: Vec<String>)
    ensures
        texts_of(out@) == views_of(lines@),
{
    let mut out: Vec<String> = Vec::new();
    let n = lines.len();
    let mut i: usize = 0;
    while i < n
        invariant
            i <= n,
            n == lines@.len(),
            texts_of(out@) == views_of(lines@).take(i as int),
        decreases n - i,
    {
        let text = string_of(lines[i].as_slice());
        let ghost before = texts_of(out@);
        out.push(text);
        i += 1;
        assert(texts_of(out@) =~= before.push(text@));
        assert(views_of(lines@).take(i as int) =~= before.push(lines@[i - 1]@));
    }
    assert(views_of(lines@).take(n as int) =~= views_of(lines@));
    out
}

/// Whether every character of `text` is white space.
pub fn is_blank_text(text: &[char]) -> (r: bool)
    ensures
        r == is_blank(text@),
{
    let n = text.len();
    let mut i: usize = 0;
    while i < n
        invariant
            i <= n,
            n == text@.len(),
            forall|j: int| 0 <= j < i ==> is_white_space(#[trigger] text@[j]),
        decreases n - i,
    {
        if !char_is_white_space(text[i]) {
            return false;
        }
        i += 1;
    }
    true
}

/// A text is blank exactly when nothing is left of it after trimming.
pub proof fn lemma_blank_iff_trimmed_empty(s: Seq<char>)
    ensures
        is_blank(s) <==> trimmed(s).len() == 0,
{
    lemma_trimmed_keeps_text(s);
}

/// The character at `a` is the first of `s` that is no white space.
pub open spec fn text_starts_at(s: Seq<char>, a: int) -> bool {
    &&& 0 <= a < s.len()
    &&& !is_white_space(s[a])
    &&& forall|j: int| 0 <= j < a ==> is_white_space(#[trigger] s[j])
}

/// The character at `l` is the last of `s` that is no white space.
pub open spec fn text_ends_at(s: Seq<char>, l: int) -> bool {
    &&& 0 <= l < s.len()
    &&& !is_white_space(s[l])
    &&& forall|j: int| l < j < s.len() ==> is_white_space(#[trigger] s[j])
}

/// Trimming leaves a text that neither starts nor ends with white space, and
/// leaves nothing only of a blank text; what it leaves, it leaves alone when
/// trimmed again.
pub proof fn lemma_trimmed_keeps_text(s: Seq<char>)
    ensures
        is_blank(s) <==> trimmed(s).len() == 0,
        trimmed(s).len() > 0 ==> !is_white_space(trimmed(s).first()) && !is_white_space(
            trimmed(s).last(),
        ),
        trimmed(trimmed(s)) == trimmed(s),
{
    if is_blank(s) {
        assert(s.take(s.len() as int) =~= s);
        lemma_trimmed_start_is_skip(s, s.len() as int);
        assert(s.skip(s.len() as int) =~= Seq::<char>::empty());
    } else {
        let i = choose|i: int| 0 <= i < s.len() && !is_white_space(s[i]);
        lemma_first_text(s, i + 1);
        let a = choose|a: int| text_starts_at(s, a);
        lemma_last_text(s, a);
        let l = choose|l: int| a <= l && text_ends_at(s, l);
        let b = l + 1;
        assert forall|i: int| 0 <= i < s.take(a).len() implies is_white_space(
            #[trigger] s.take(a)[i],
        ) by {
            assert(s.take(a)[i] == s[i]);
        }
        lemma_trimmed_start_is_skip(s, a);
        let t = s.skip(a);
        assert forall|k: int| 0 <= k < t.skip(b - a).len() implies is_white_space(
            #[trigger] t.skip(b - a)[k],
        ) by {
            assert(t.skip(b - a)[k] == s[b + k]);
        }
        assert(t[b - a - 1] == s[b - 1]);
        lemma_trimmed_end_is_take(t, b - a);
        let u = t.take(b - a);
        assert(u.first() == s[a]);
        assert(u.last() == s[b - 1]);
        assert(u.take(0) =~= Seq::<char>::empty());
        lemma_trimmed_start_is_skip(u, 0);
        assert(u.skip(0) =~= u);
        assert(u.skip(u.len() as int) =~= Seq::<char>::empty());
        lemma_trimmed_end_is_take(u, u.len() as int);
        assert(u.take(u.len() as int) =~= u);
    }
}

/// Among the first `n` characters of a text, if one is no white space, one is
/// the first such.
proof fn lemma_first_text(s: Seq<char>, n: int)
    requires
        0 < n <= s.len(),
        !is_white_space(s[n - 1]),
    ensures
        exists|a: int| text_starts_at(s, a),
    decreases n,
{
    if exists|i: int| 0 <= i < n - 1 && !is_white_space(s[i]) {
        let i = choose|i: int| 0 <= i < n - 1 && !is_white_space(s[i]);
        lemma_first_text(s, i + 1);
    } else {
        assert(text_starts_at(s, n - 1));
    }
}

/// From a character that is no white space on, one such character is the last.
proof fn lemma_last_text(s: Seq<char>, a: int)
    requires
        0 <= a < s.len(),
        !is_white_space(s[a]),
    ensures
        exists|l: int| a <= l && text_ends_at(s, l),
    decreases s.len() - a,
{
    if exists|i: int| a < i < s.len() && !is_white_space(s[i]) {
        let i = choose|i: int| a < i < s.len() && !is_white_space(s[i]);
        lemma_last_text(s, i);
        let l = choose|l: int| i <= l && text_ends_at(s, l);
        assert(a <= l && text_ends_at(s, l));
    } else {
        assert(text_ends_at(s, a));
    }
}

} // verus!
