//! Escaping of Slack's control characters.

use vstd::prelude::*;
use crate::mrkdwn::brackets;
use crate::mrkdwn::fences;
use crate::mrkdwn::spans;
use crate::text;

verus! {

/// The entity that stands for a control character of Slack's.
pub open spec fn entity(c: char) -> Seq<char> {
    if c == '&' {
        "&amp;"@
    } else if c == '<' {
        "&lt;"@
    } else if c == '>' {
        "&gt;"@
    } else {
        seq![c]
    }
}

/// What stands first at `i` of a line becomes, and where the text after it
/// begins. Inline code, Slack's syntax in angle brackets and the mark of a
/// quote are kept; other control characters are escaped.
pub open spec fn escape_step(s: Seq<char>, i: int) -> (Seq<char>, int) {
    if s[i] == '`' {
        let e = spans::ticks_end(s, i);
        (s.subrange(i, e), e)
    } else if brackets::bracket_end(s, i) is Some {
        let e = brackets::bracket_end(s, i)->0;
        (s.subrange(i, e), e)
    } else if s[i] == '>' && i == 0 {
        (seq!['>'], i + 1)
    } else {
        (entity(s[i]), i + 1)
    }
}

/// A step moves forward and stays within the line.
pub proof fn lemma_escape_step(s: Seq<char>, i: int)
    requires
        0 <= i < s.len(),
    ensures
        i < escape_step(s, i).1 <= s.len(),
{
    spans::lemma_code_span(s, i);
    brackets::lemma_bracket_end(s, i);
}

/// The line from `i` on with its control characters escaped.
pub open spec fn escape_from(s: Seq<char>, i: int) -> Seq<char>
    decreases s.len() - i,
{
    if i < 0 || i >= s.len() {
        Seq::empty()
    } else {
        proof {
            lemma_escape_step(s, i);
        }
        escape_step(s, i).0 + escape_from(s, escape_step(s, i).1)
    }
}

/// The line with its control characters escaped.
pub open spec fn escape_line(s: Seq<char>) -> Seq<char> {
    escape_from(s, 0)
}

/// The text with its control characters escaped.
pub open spec fn escape_entities(s: Seq<char>) -> Seq<char> {
    fences::outside_fences(s, |l: Seq<char>| escape_line(l))
}

/// Escapes the control characters of one line.
fn escape_line_of(s: &[char]) -> (out: Vec<char>)
    ensures
        out@ == escape_line(s@),
{
    let mut out: Vec<char> = Vec::new();
    let mut i: usize = 0;
    while i < s.len()
        invariant
            i <= s.len(),
            out@ + escape_from(s@, i as int) == escape_line(s@),
        decreases s.len() - i,
    {
        let ghost at = i as int;
        let ghost start = out@;
        proof {
            lemma_escape_step(s@, at);
        }
        let c: char = s[i];
        if c == '`' {
            let e: usize = spans::find_ticks_end(s, i);
            text::extend(&mut out, vstd::slice::slice_subrange(s, i, e));
            i = e;
        } else if let Some(e) = brackets::find_bracket_end(s, i) {
            text::extend(&mut out, vstd::slice::slice_subrange(s, i, e));
            i = e;
        } else {
            if c == '>' && i == 0 {
                out.push('>');
            } else if c == '&' {
                text::extend_str(&mut out, "&amp;");
            } else if c == '<' {
                text::extend_str(&mut out, "&lt;");
            } else if c == '>' {
                text::extend_str(&mut out, "&gt;");
            } else {
                out.push(c);
            }
            i += 1;
        }
        proof {
            assert(out@ == start + escape_step(s@, at).0);
            assert(out@ + escape_from(s@, i as int) == start + escape_from(s@, at));
        }
    }
    proof {
        assert(out@ + escape_from(s@, i as int) == out@);
    }
    out
}

/// Escapes `&`, `<`, and `>` to HTML entities for Slack.
///
/// Slack uses these characters as control characters for special parsing
/// (links, mentions, dates). Literal occurrences in normal text must be
/// encoded as `&amp;`, `&lt;`, `&gt;` respectively.
///
/// Preserved contexts (not escaped):
/// - inside of fenced code blocks
/// - inside of inline code spans
/// - inside of Slack link and mention syntax (`<…>`)
/// - the `>` at the start of a line (Slack blockquote)
pub fn escape_slack_entities(s: &str) -> (r: String)
    ensures
        r@ == escape_entities(s@),
{
    let chars = text::chars_of(s);
    let lines = text::split_on(chars.as_slice(), '\n');
    let ghost view = text::texts(lines@);
    let ghost f = |l: Seq<char>| escape_line(l);
    let mut result: Vec<Vec<char>> = Vec::new();
    let mut open: usize = 0;
    let mut k: usize = 0;
    while k < lines.len()
        invariant
            k <= lines.len(),
            view == text::texts(lines@),
            f == (|l: Seq<char>| escape_line(l)),
            open == fences::open_len(view, k as int),
            text::texts(result@) == fences::map_unfenced(view, f).take(k as int),
        decreases lines.len() - k,
    {
        let line = lines[k].as_slice();
        let ghost before = text::texts(result@);
        proof {
            assert(line@ == view[k as int]);
        }
        if open > 0 {
            if fences::count_fence(line) >= open {
                open = 0;
            }
            result.push(vstd::slice::slice_to_vec(line));
        } else if fences::is_opening_fence(line) {
            open = fences::count_fence(line);
            result.push(vstd::slice::slice_to_vec(line));
        } else {
            result.push(escape_line_of(line));
        }
        proof {
            assert(text::texts(result@) == before.push(result@.last()@));
            assert(fences::map_unfenced(view, f).take(k + 1) == fences::map_unfenced(view, f).take(
                k as int,
            ).push(fences::map_unfenced(view, f)[k as int]));
        }
        k += 1;
    }
    proof {
        assert(fences::map_unfenced(view, f).take(k as int) == fences::map_unfenced(view, f));
    }
    text::string_of(text::join_with(&result, "\n").as_slice())
}

} // verus!
