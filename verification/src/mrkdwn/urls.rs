//! Bare web addresses.

use vstd::prelude::*;
use crate::mrkdwn::brackets;
use crate::mrkdwn::fences;
use crate::mrkdwn::spans;
use crate::text;

verus! {

/// The character ends a web address.
pub open spec fn ends_url(c: char) -> bool {
    c == ' ' || c == '\t' || c == '>' || c == ')' || c == ']' || c == '|' || c == '\n'
}

/// The character is a quotation mark.
pub open spec fn quotation_mark(c: char) -> bool {
    c == '"' || c == '\''
}

/// A web address begins at `i`.
pub open spec fn address_at(s: Seq<char>, i: int) -> bool {
    text::occurs_at(s, i, "http://"@) || text::occurs_at(s, i, "https://"@)
}

/// The first position at or after `i` that does not belong to a web address.
/// Inline code does not, nor does the quotation mark that the address stands
/// behind, if it stands behind one.
pub open spec fn url_end(s: Seq<char>, mark: Option<char>, i: int) -> int
    decreases s.len() - i,
{
    if i < 0 || i >= s.len() || ends_url(s[i]) || mark == Some(s[i]) || spans::code_span(
        s,
        i,
    ) is Some {
        i
    } else if s[i] == '`' {
        proof {
            spans::lemma_code_span(s, i);
        }
        url_end(s, mark, spans::ticks_end(s, i))
    } else {
        url_end(s, mark, i + 1)
    }
}

/// The end of a web address lies within the text.
pub proof fn lemma_url_end(s: Seq<char>, mark: Option<char>, i: int)
    requires
        0 <= i <= s.len(),
    ensures
        i <= url_end(s, mark, i) <= s.len(),
        forall|j: int| i <= j < url_end(s, mark, i) ==> !ends_url(#[trigger] s[j]),
        i < s.len() && !ends_url(s[i]) && mark != Some(s[i]) && s[i] != '`' ==> i < url_end(
            s,
            mark,
            i,
        ),
    decreases s.len() - i,
{
    if i < s.len() && !ends_url(s[i]) && mark != Some(s[i]) && spans::code_span(s, i) is None {
        if s[i] == '`' {
            spans::lemma_code_span(s, i);
            spans::lemma_tick_run(s, i);
            lemma_url_end(s, mark, spans::ticks_end(s, i));
        } else {
            lemma_url_end(s, mark, i + 1);
        }
    }
}

/// A web address is not empty.
pub proof fn lemma_address(s: Seq<char>, mark: Option<char>, i: int)
    requires
        address_at(s, i),
        mark matches Some(c) ==> quotation_mark(c),
    ensures
        0 <= i < url_end(s, mark, i) <= s.len(),
        s[i] == 'h',
{
    reveal_strlit("http://");
    reveal_strlit("https://");
    if text::occurs_at(s, i, "http://"@) {
        assert(s.subrange(i, i + 7)[0] == s[i]);
    } else {
        assert(s.subrange(i, i + 8)[0] == s[i]);
    }
    lemma_url_end(s, mark, i);
}

/// What stands first at `i` of a line becomes, and where the text after it
/// begins. Inline code and Slack's syntax in angle brackets are kept; a web
/// address is wrapped, behind a quotation mark up to that mark.
pub open spec fn wrap_step(s: Seq<char>, i: int) -> (Seq<char>, int) {
    if s[i] == '`' {
        let e = spans::ticks_end(s, i);
        (s.subrange(i, e), e)
    } else if brackets::bracket_end(s, i) is Some {
        let e = brackets::bracket_end(s, i)->0;
        (s.subrange(i, e), e)
    } else if address_at(s, i) {
        let e = url_end(s, None, i);
        (seq!['<'] + s.subrange(i, e) + seq!['>'], e)
    } else if quotation_mark(s[i]) && address_at(s, i + 1) {
        let e = url_end(s, Some(s[i]), i + 1);
        (seq![s[i], '<'] + s.subrange(i + 1, e) + seq!['>'], e)
    } else {
        (seq![s[i]], i + 1)
    }
}

/// A step moves forward and stays within the line.
pub proof fn lemma_wrap_step(s: Seq<char>, i: int)
    requires
        0 <= i < s.len(),
    ensures
        i < wrap_step(s, i).1 <= s.len(),
{
    spans::lemma_code_span(s, i);
    brackets::lemma_bracket_end(s, i);
    if address_at(s, i) {
        lemma_address(s, None, i);
    }
    if quotation_mark(s[i]) && address_at(s, i + 1) {
        lemma_address(s, Some(s[i]), i + 1);
    }
}

/// The line from `i` on with its bare web addresses wrapped.
pub open spec fn wrap_from(s: Seq<char>, i: int) -> Seq<char>
    decreases s.len() - i,
{
    if i < 0 || i >= s.len() {
        Seq::empty()
    } else {
        proof {
            lemma_wrap_step(s, i);
        }
        wrap_step(s, i).0 + wrap_from(s, wrap_step(s, i).1)
    }
}

/// The line with its bare web addresses wrapped in angle brackets.
pub open spec fn wrap_line(s: Seq<char>) -> Seq<char> {
    wrap_from(s, 0)
}

/// The text with its bare web addresses wrapped in angle brackets.
pub open spec fn wrap_urls(s: Seq<char>) -> Seq<char> {
    fences::outside_fences(s, |l: Seq<char>| wrap_line(l))
}

/// Whether the character ends a web address.
fn is_url_end(c: char) -> (r: bool)
    ensures
        r == ends_url(c),
{
    c == ' ' || c == '\t' || c == '>' || c == ')' || c == ']' || c == '|' || c == '\n'
}

/// Finds the first position at or after `i` that does not belong to a web
/// address.
fn find_url_end(s: &[char], mark: Option<char>, i: usize) -> (r: usize)
    requires
        i <= s@.len(),
    ensures
        r == url_end(s@, mark, i as int),
        i <= r <= s@.len(),
{
    let mut e: usize = i;
    while e < s.len() && !is_url_end(s[e])
        invariant
            i <= e <= s.len(),
            url_end(s@, mark, e as int) == url_end(s@, mark, i as int),
        decreases s.len() - e,
    {
        let stops = match mark {
            Some(c) => s[e] == c,
            None => false,
        };
        if stops || spans::find_code_span(s, e).is_some() {
            return e;
        }
        if s[e] == '`' {
            e = spans::find_ticks_end(s, e);
        } else {
            e += 1;
        }
    }
    e
}

/// Whether a web address begins at `i`.
fn is_address_at(s: &[char], i: usize) -> (r: bool)
    requires
        i <= s@.len(),
    ensures
        r == address_at(s@, i as int),
{
    text::is_at(s, i, "http://") || text::is_at(s, i, "https://")
}

/// Wraps the bare web addresses of one line.
fn wrap_line_of(s: &[char]) -> (out: Vec<char>)
    ensures
        out@ == wrap_line(s@),
{
    let mut out: Vec<char> = Vec::new();
    let mut i: usize = 0;
    while i < s.len()
        invariant
            i <= s.len(),
            out@ + wrap_from(s@, i as int) == wrap_line(s@),
        decreases s.len() - i,
    {
        let ghost at = i as int;
        let ghost start = out@;
        proof {
            lemma_wrap_step(s@, at);
        }
        if s[i] == '`' {
            let e: usize = spans::find_ticks_end(s, i);
            text::extend(&mut out, vstd::slice::slice_subrange(s, i, e));
            i = e;
        } else if let Some(e) = brackets::find_bracket_end(s, i) {
            text::extend(&mut out, vstd::slice::slice_subrange(s, i, e));
            i = e;
        } else if is_address_at(s, i) {
            let e: usize = find_url_end(s, None, i);
            out.push('<');
            text::extend(&mut out, vstd::slice::slice_subrange(s, i, e));
            out.push('>');
            i = e;
        } else if (s[i] == '"' || s[i] == '\'') && is_address_at(s, i + 1) {
            let e: usize = find_url_end(s, Some(s[i]), i + 1);
            out.push(s[i]);
            out.push('<');
            text::extend(&mut out, vstd::slice::slice_subrange(s, i + 1, e));
            out.push('>');
            i = e;
        } else {
            out.push(s[i]);
            i += 1;
        }
        proof {
            assert(out@ == start + wrap_step(s@, at).0);
            assert(out@ + wrap_from(s@, i as int) == start + wrap_from(s@, at));
        }
    }
    proof {
        assert(out@ + wrap_from(s@, i as int) == out@);
    }
    out
}

/// Wraps bare `http://` and `https://` addresses in angle brackets (`<url>`)
/// unless they are already inside of a Slack link (`<url|text>` or `<url>`),
/// inside of inline code, or inside of a fenced code block.
pub fn wrap_bare_urls(s: &str) -> (r: String)
    ensures
        r@ == wrap_urls(s@),
{
    let chars = text::chars_of(s);
    let lines = text::split_on(chars.as_slice(), '\n');
    let ghost view = text::texts(lines@);
    let ghost f = |l: Seq<char>| wrap_line(l);
    let mut result: Vec<Vec<char>> = Vec::new();
    let mut open: usize = 0;
    let mut k: usize = 0;
    while k < lines.len()
        invariant
            k <= lines.len(),
            view == text::texts(lines@),
            f == (|l: Seq<char>| wrap_line(l)),
            open == fences::open_len(view, k as int),
            text::texts(result@) == fences::map_unfenced(view, f).take(k as int),
        decreases lines.len() - k,
    {
        let line = lines[k].as_slice();
        let ghost before = text::texts(result@);
        proof {
            assert(line@ == view[k as int]);
        }
        if open > 0 {
            if fences::count_fence(line) >= open {
                open = 0;
            }
            result.push(vstd::slice::slice_to_vec(line));
        } else if fences::is_opening_fence(line) {
            open = fences::count_fence(line);
            result.push(vstd::slice::slice_to_vec(line));
        } else {
            result.push(wrap_line_of(line));
        }
        proof {
            assert(text::texts(result@) == before.push(result@.last()@));
            assert(fences::map_unfenced(view, f).take(k + 1) == fences::map_unfenced(view, f).take(
                k as int,
            ).push(fences::map_unfenced(view, f)[k as int]));
        }
        k += 1;
    }
    proof {
        assert(fences::map_unfenced(view, f).take(k as int) == fences::map_unfenced(view, f));
    }
    text::string_of(text::join_with(&result, "\n").as_slice())
}

} // verus!
