//! The e-mail addresses that stand in a text.

use vstd::prelude::*;
use linkify::LinkFinder;
use linkify::LinkKind;
use crate::text::chars_of;
use crate::text::strings_of;
use crate::text::texts_of;
use crate::text::views_of;

verus! {

/// The e-mail addresses that `linkify` finds in a text, in their order, each
/// as it stands there.
pub uninterp spec fn email_links_in(text: Seq<char>) -> Seq<Seq<char>>;

/// Runs a `linkify::LinkFinder` that is restricted to e-mail addresses over
/// the text and hands out the text of each link. The contract names the
/// outcome `email_links_in(text)`.
#[verifier::external_body]
fn find_email_links(text: &str) -> (links: Vec<String>)
    ensures
        texts_of(links@) == email_links_in(text@),
{
    let mut finder = LinkFinder::new();
    finder.kinds(&[LinkKind::Email]);
    finder.links(text).map(|link| link.as_str().to_string()).collect()
}

/// `s` without the apostrophes at its start.
pub open spec fn unquoted_start(s: Seq<char>) -> Seq<char>
    decreases s.len(),
{
    if s.len() > 0 && s.first() == '\'' {
        unquoted_start(s.drop_first())
    } else {
        s
    }
}

/// `s` without the apostrophes at its end.
pub open spec fn unquoted_end(s: Seq<char>) -> Seq<char>
    decreases s.len(),
{
    if s.len() > 0 && s.last() == '\'' {
        unquoted_end(s.drop_last())
    } else {
        s
    }
}

/// `s` without the apostrophes at its start and at its end.
pub open spec fn unquoted(s: Seq<char>) -> Seq<char> {
    unquoted_end(unquoted_start(s))
}

/// Each of the links without the apostrophes around it.
pub open spec fn all_unquoted(links: Seq<Seq<char>>) -> Seq<Seq<char>> {
    Seq::new(links.len(), |i: int| unquoted(links[i]))
}

/// Dropping `a` leading apostrophes in front of a character that is none
/// is stripping the start.
proof fn lemma_unquoted_start_is_skip(s: Seq<char>, a: int)
    requires
        0 <= a <= s.len(),
        forall|i: int| 0 <= i < a ==> s[i] == '\'',
        a < s.len() ==> s[a] != '\'',
    ensures
        unquoted_start(s) == s.skip(a),
    decreases a,
{
    if a == 0 {
        assert(s.skip(0) =~= s);
    } else {
        assert(s[0] == '\'');
        let rest = s.drop_first();
        assert forall|i: int| 0 <= i < a - 1 implies rest[i] == '\'' by {
            assert(rest[i] == s[i + 1]);
        }
        lemma_unquoted_start_is_skip(rest, a - 1);
        assert(rest.skip(a - 1) =~= s.skip(a));
    }
}

/// Dropping the apostrophes from `b` on, behind a character that is none,
/// is stripping the end.
proof fn lemma_unquoted_end_is_take(s: Seq<char>, b: int)
    requires
        0 <= b <= s.len(),
        forall|i: int| b <= i < s.len() ==> s[i] == '\'',
        b > 0 ==> s[b - 1] != '\'',
    ensures
        unquoted_end(s) == s.take(b),
    decreases s.len() - b,
{
    if b == s.len() {
        assert(s.take(b) =~= s);
    } else {
        assert(s[s.len() - 1] == '\'');
        let rest = s.drop_last();
        assert forall|i: int| b <= i < rest.len() implies rest[i] == '\'' by {
            assert(rest[i] == s[i]);
        }
        lemma_unquoted_end_is_take(rest, b);
        assert(rest.take(b) =~= s.take(b));
    }
}

/// `text` without the apostrophes at its start and at its end.
pub fn strip_quotes(text: &[char]) -> (out: Vec<char>)
    ensures
        out@ == unquoted(text@),
{
    let n = text.len();
    let mut a: usize = 0;
    while a < n && text[a] == '\''
        invariant
            a <= n,
            n == text@.len(),
            forall|i: int| 0 <= i < a ==> text@[i] == '\'',
        decreases n - a,
    {
        a += 1;
    }
    let mut b: usize = n;
    while b > a && text[b - 1] == '\''
        invariant
            a <= b <= n,
            n == text@.len(),
            forall|i: int| b <= i < n ==> text@[i] == '\'',
        decreases b,
    {
        b -= 1;
    }
    let mut out: Vec<char> = Vec::new();
    let mut i: usize = a;
    while i < b
        invariant
            a <= i <= b <= n,
            n == text@.len(),
            out@ == text@.subrange(a as int, i as int),
        decreases b - i,
    {
        out.push(text[i]);
        i += 1;
        assert(out@ =~= text@.subrange(a as int, i as int));
    }
    proof {
        let s = text@;
        lemma_unquoted_start_is_skip(s, a as int);
        let t = s.skip(a as int);
        assert forall|k: int| b - a <= k < t.len() implies t[k] == '\'' by {
            assert(t[k] == s[a + k]);
        }
        if b > a {
            assert(t[b - a - 1] == s[b - 1]);
        }
        lemma_unquoted_end_is_take(t, b - a);
        assert(t.take(b - a) =~= s.subrange(a as int, b as int));
    }
    out
}

/// The e-mail addresses that stand in `html`, in their order, each without
/// the apostrophes around it.
pub fn get_emails(html: &str) -> (emails: Vec<String>)
    ensures
        texts_of(emails@) == all_unquoted(email_links_in(html@)),
{
    let links = find_email_links(html);
    let mut emails: Vec<Vec<char>> = Vec::new();
    let n = links.len();
    let mut i: usize = 0;
    while i < n
        invariant
            i <= n,
            n == links@.len(),
            texts_of(links@) == email_links_in(html@),
            views_of(emails@) == all_unquoted(email_links_in(html@)).take(i as int),
        decreases n - i,
    {
        let link = chars_of(links[i].as_str());
        assert(link@ == texts_of(links@)[i as int]);
        let email = strip_quotes(link.as_slice());
        let ghost before = views_of(emails@);
        emails.push(email);
        i += 1;
        assert(views_of(emails@) =~= before.push(email@));
        assert(all_unquoted(email_links_in(html@)).take(i as int) =~= before.push(email@));
    }
    assert(all_unquoted(email_links_in(html@)).take(n as int) =~= all_unquoted(
        email_links_in(html@),
    ));
    strings_of(&emails)
}

} // verus!
