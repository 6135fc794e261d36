//! Constructs that take a whole line: horizontal rules, headers and list items.

use vstd::prelude::*;
use crate::mrkdwn::spans;
use crate::text;

verus! {

/// The text without its spaces.
pub open spec fn without_spaces(s: Seq<char>) -> Seq<char> {
    s.filter(|c: char| c != ' ')
}

/// The line is a horizontal rule: apart from spaces, three or more times the
/// same one of `-`, `*` and `_`.
pub open spec fn horizontal_rule(s: Seq<char>) -> bool {
    let t = without_spaces(s);
    &&& t.len() >= 3
    &&& t[0] == '-' || t[0] == '*' || t[0] == '_'
    &&& forall|i: int| 0 <= i < t.len() ==> #[trigger] t[i] == t[0]
}

/// Checks if a line is a Markdown horizontal rule: `---`, `***`, `___` (three
/// or more of the same character, optionally with spaces).
pub fn is_horizontal_rule(trimmed: &str) -> (r: bool)
    ensures
        r == horizontal_rule(trimmed@),
{
    let chars = text::chars_of(trimmed);
    let mut kept: Vec<char> = Vec::new();
    let mut i: usize = 0;
    let ghost solid = |c: char| c != ' ';
    while i < chars.len()
        invariant
            i <= chars.len(),
            chars@ == trimmed@,
            solid == (|c: char| c != ' '),
            kept@ == chars@.take(i as int).filter(solid),
        decreases chars.len() - i,
    {
        proof {
            assert(chars@.take(i + 1).drop_last() == chars@.take(i as int));
            reveal(Seq::filter);
        }
        if chars[i] != ' ' {
            kept.push(chars[i]);
        }
        i += 1;
    }
    proof {
        assert(chars@.take(i as int) == chars@);
    }
    if kept.len() < 3 {
        return false;
    }
    let first: char = kept[0];
    if first != '-' && first != '*' && first != '_' {
        return false;
    }
    let mut k: usize = 0;
    while k < kept.len()
        invariant
            k <= kept.len(),
            kept@.len() >= 3,
            first == kept@[0],
            kept@ == without_spaces(trimmed@),
            forall|j: int| 0 <= j < k ==> #[trigger] kept@[j] == first,
        decreases kept.len() - k,
    {
        if kept[k] != first {
            return false;
        }
        k += 1;
    }
    true
}

/// The text without the part from `from` up to `to`.
pub open spec fn cut(s: Seq<char>, from: int, to: int) -> Seq<char> {
    s.take(from) + s.skip(to)
}

/// The first position at or after `i` where `m` stands outside of inline code.
pub open spec fn first_outside(s: Seq<char>, m: Seq<char>, i: int) -> Option<int>
    decreases s.len() - i,
{
    if i < 0 || i >= s.len() {
        None
    } else if s[i] == '`' {
        proof {
            spans::lemma_code_span(s, i);
        }
        first_outside(s, m, spans::ticks_end(s, i))
    } else if text::occurs_at(s, i, m) {
        Some(i)
    } else {
        first_outside(s, m, i + 1)
    }
}

/// The last position at or after `i` where `m` stands outside of inline code.
pub open spec fn last_outside(s: Seq<char>, m: Seq<char>, i: int) -> Option<int>
    decreases s.len() - i,
{
    if i < 0 {
        None
    } else {
        match first_outside(s, m, i) {
            Some(k) => {
                proof {
                    lemma_first_outside(s, m, i);
                }
                match last_outside(s, m, k + 1) {
                    Some(later) => Some(later),
                    None => Some(k),
                }
            },
            None => None,
        }
    }
}

/// An occurrence outside of inline code is one, at or after the start of the
/// search.
pub proof fn lemma_first_outside(s: Seq<char>, m: Seq<char>, i: int)
    requires
        0 <= i,
    ensures
        first_outside(s, m, i) matches Some(k) ==> i <= k < s.len() && text::occurs_at(s, k, m),
    decreases s.len() - i,
{
    if i < s.len() {
        if s[i] == '`' {
            spans::lemma_code_span(s, i);
            lemma_first_outside(s, m, spans::ticks_end(s, i));
        } else if !text::occurs_at(s, i, m) {
            lemma_first_outside(s, m, i + 1);
        }
    }
}

/// The last occurrence outside of inline code is one.
pub proof fn lemma_last_outside(s: Seq<char>, m: Seq<char>, i: int)
    requires
        0 <= i,
    ensures
        last_outside(s, m, i) matches Some(k) ==> i <= k < s.len() && text::occurs_at(s, k, m),
        last_outside(s, m, i) is Some == first_outside(s, m, i) is Some,
    decreases s.len() - i,
{
    lemma_first_outside(s, m, i);
    if let Some(k) = first_outside(s, m, i) {
        lemma_last_outside(s, m, k + 1);
    }
}

/// The text without the last occurrence of `m` outside of inline code.
pub open spec fn cut_last(s: Seq<char>, m: Seq<char>) -> Seq<char> {
    match last_outside(s, m, 0) {
        Some(k) => cut(s, k, k + m.len()),
        None => s,
    }
}

/// The text once its outermost pairs of `m` are cut: as long as `m` stands at
/// two positions, the first occurrence goes, and then the last one. Inline code
/// is left alone.
pub open spec fn without_pairs(s: Seq<char>, m: Seq<char>) -> Seq<char>
    decreases s.len(),
{
    let first = first_outside(s, m, 0);
    let last = last_outside(s, m, 0);
    if m.len() > 0 && first is Some && last is Some && first != last {
        proof {
            lemma_cut_shrinks(s, m);
        }
        without_pairs(cut_last(cut(s, first->0, first->0 + m.len()), m), m)
    } else {
        s
    }
}

/// Cutting occurrences of a non-empty marker makes the text shorter.
pub proof fn lemma_cut_shrinks(s: Seq<char>, m: Seq<char>)
    requires
        m.len() > 0,
    ensures
        first_outside(s, m, 0) matches Some(k) ==> cut_last(cut(s, k, k + m.len()), m).len()
            < s.len(),
        cut_last(s, m).len() <= s.len(),
{
    lemma_first_outside(s, m, 0);
    lemma_last_outside(s, m, 0);
    if let Some(k) = first_outside(s, m, 0) {
        let t = cut(s, k, k + m.len());
        lemma_last_outside(t, m, 0);
    }
}

/// What each character of a text is, each character without pairs of a marker
/// is.
pub proof fn lemma_pairs_each(s: Seq<char>, m: Seq<char>, p: spec_fn(char) -> bool)
    requires
        text::each(s, p),
        m.len() > 0,
    ensures
        text::each(without_pairs(s, m), p),
    decreases s.len(),
{
    let first = first_outside(s, m, 0);
    let last = last_outside(s, m, 0);
    if first is Some && last is Some && first != last {
        lemma_cut_shrinks(s, m);
        lemma_first_outside(s, m, 0);
        let k = first->0;
        let t = cut(s, k, (k + m.len()) as int);
        assert(text::each(t, p));
        lemma_last_outside(t, m, 0);
        let u = cut_last(t, m);
        assert(text::each(u, p));
        lemma_pairs_each(u, m, p);
    }
}

/// The text without its bold markers.
pub open spec fn without_bold(s: Seq<char>) -> Seq<char> {
    without_pairs(without_pairs(s, "**"@), "__"@)
}

/// The text without the part from `from` up to `to`.
fn cut_of(s: &[char], from: usize, to: usize) -> (r: Vec<char>)
    requires
        from <= to <= s@.len(),
    ensures
        r@ == cut(s@, from as int, to as int),
{
    let mut out: Vec<char> = Vec::new();
    text::extend(&mut out, vstd::slice::slice_subrange(s, 0, from));
    text::extend(&mut out, vstd::slice::slice_subrange(s, to, s.len()));
    out
}

/// Finds the first position at or after `from` where a marker stands outside of
/// inline code.
fn find_outside(s: &[char], m: &str, from: usize) -> (r: Option<usize>)
    requires
        from <= s@.len(),
    ensures
        match r {
            Some(k) => first_outside(s@, m@, from as int) == Some(k as int) && from <= k && k
                + m@.len() <= s@.len() && k < s@.len(),
            None => first_outside(s@, m@, from as int) is None,
        },
{
    let mut i: usize = from;
    while i < s.len()
        invariant
            from <= i <= s.len(),
            first_outside(s@, m@, i as int) == first_outside(s@, m@, from as int),
        decreases s.len() - i,
    {
        if s[i] == '`' {
            i = spans::find_ticks_end(s, i);
        } else if text::is_at(s, i, m) {
            return Some(i);
        } else {
            i += 1;
        }
    }
    None
}

/// Finds the last position where a marker stands outside of inline code.
fn rfind_outside(s: &[char], m: &str) -> (r: Option<usize>)
    ensures
        match r {
            Some(k) => last_outside(s@, m@, 0) == Some(k as int) && k + m@.len() <= s@.len(),
            None => last_outside(s@, m@, 0) is None,
        },
{
    let n: usize = s.len();
    let mut last: Option<usize> = None;
    let mut from: usize = 0;
    loop
        invariant
            n == s@.len(),
            from <= n,
            last matches Some(k) ==> k + m@.len() <= n,
            match last {
                Some(k) => last_outside(s@, m@, 0) == match last_outside(s@, m@, from as int) {
                    Some(later) => Some(later),
                    None => Some(k as int),
                },
                None => last_outside(s@, m@, 0) == last_outside(s@, m@, from as int),
            },
        decreases n - from,
    {
        match find_outside(s, m, from) {
            Some(k) => {
                last = Some(k);
                from = k + 1;
            },
            None => {
                return last;
            },
        }
    }
}

/// Cuts the outermost pairs of a non-empty marker.
fn strip_pairs(s: Vec<char>, m: &str) -> (r: Vec<char>)
    requires
        m@.len() > 0,
    ensures
        r@ == without_pairs(s@, m@),
{
    let width: usize = text::chars_of(m).len();
    let mut cur: Vec<char> = s;
    loop
        invariant
            width == m@.len(),
            m@.len() > 0,
            without_pairs(cur@, m@) == without_pairs(s@, m@),
        ensures
            cur@ == without_pairs(s@, m@),
        decreases cur@.len(),
    {
        proof {
            assert(cur.len() == cur@.len());
        }
        let first = find_outside(cur.as_slice(), m, 0);
        let last = rfind_outside(cur.as_slice(), m);
        let (a, b): (usize, usize) = match (first, last) {
            (Some(x), Some(y)) => (x, y),
            _ => {
                break;
            },
        };
        if a == b {
            break;
        }
        proof {
            lemma_cut_shrinks(cur@, m@);
        }
        let shorter = cut_of(cur.as_slice(), a, a + width);
        proof {
            assert(shorter.len() == shorter@.len());
        }
        cur = match rfind_outside(shorter.as_slice(), m) {
            Some(k) => cut_of(shorter.as_slice(), k, k + width),
            None => shorter,
        };
    }
    cur
}

/// Strips bold markers from text: `**Title**` and `__Title__` become `Title`.
/// Used to clean up header text that contains inline bold markers. Inline code
/// is left alone.
pub fn strip_inline_bold(s: &str) -> (r: String)
    ensures
        r@ == without_bold(s@),
{
    proof {
        reveal_strlit("**");
        reveal_strlit("__");
    }
    let stars = strip_pairs(text::chars_of(s), "**");
    let done = strip_pairs(stars, "__");
    text::string_of(done.as_slice())
}

/// The line as a list item: `- item` and `* item` get a bullet, `1. item`
/// gets two spaces after its number, any other line is kept.
pub open spec fn list_item(line: Seq<char>) -> Seq<char> {
    let t = text::trim_start(line);
    let indent = line.take(line.len() - t.len());
    if text::starts_with(t, "- "@) || text::starts_with(t, "* "@) {
        indent + "• "@ + t.skip(2)
    } else {
        match text::find(t, ". "@, 0) {
            Some(k) => if k > 0 && text::all_digits(t.take(k)) {
                indent + t.take(k) + ".  "@ + t.skip(k + 2)
            } else {
                line
            },
            None => line,
        }
    }
}

/// Converts `- item` and `* item` to `• item`, and `1. item` to `1.  item`
/// (preserving ordered list numbers with consistent alignment).
pub fn convert_list_item(line: &str) -> (r: String)
    ensures
        r@ == list_item(line@),
{
    proof {
        reveal_strlit("- ");
        reveal_strlit("* ");
        reveal_strlit(". ");
    }
    let chars = text::chars_of(line);
    let s = chars.as_slice();
    let t = text::trim_start_of(s);
    let indent = vstd::slice::slice_subrange(s, 0, s.len() - t.len());
    let mut out = String::new();
    if text::is_at(t, 0, "- ") || text::is_at(t, 0, "* ") {
        text::push_chars(&mut out, indent);
        text::push_str(&mut out, "• ");
        text::push_chars(&mut out, vstd::slice::slice_subrange(t, 2, t.len()));
        proof {
            assert(out@ == list_item(line@));
        }
        return out;
    }
    if let Some(k) = text::find_in(t, ". ", 0) {
        let number = vstd::slice::slice_subrange(t, 0, k);
        if k > 0 && text::are_digits(number) {
            text::push_chars(&mut out, indent);
            text::push_chars(&mut out, number);
            text::push_str(&mut out, ".  ");
            text::push_chars(&mut out, vstd::slice::slice_subrange(t, k + 2, t.len()));
            proof {
                assert(out@ == list_item(line@));
            }
            return out;
        }
    }
    text::push_chars(&mut out, s);
    out
}

} // verus!
