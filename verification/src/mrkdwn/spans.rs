//! Inline constructs of one line: escapes, code spans, emphasis, images and
//! links.

use vstd::prelude::*;
use crate::outside;
use crate::text;

verus! {

/// The punctuation that a backslash turns into a literal character.
pub open spec fn escapable(c: char) -> bool {
    ||| c == '\\' || c == '`' || c == '*' || c == '_' || c == '{' || c == '}' || c == '['
    ||| c == ']' || c == '<' || c == '>' || c == '(' || c == ')' || c == '#' || c == '+'
    ||| c == '-' || c == '.' || c == '!' || c == '|' || c == '~'
}

/// A backslash escape stands at `i`.
pub open spec fn escape_at(s: Seq<char>, i: int) -> bool {
    s[i] == '\\' && i + 1 < s.len() && escapable(s[i + 1])
}

/// The number of backticks in a row from `i` on.
pub open spec fn tick_run(s: Seq<char>, i: int) -> int
    decreases s.len() - i,
{
    if 0 <= i < s.len() && s[i] == '`' {
        1 + tick_run(s, i + 1)
    } else {
        0
    }
}

/// The first position at or after `i` where a run of exactly `n` backticks
/// begins.
pub open spec fn find_run(s: Seq<char>, n: int, i: int) -> Option<int>
    decreases s.len() - i,
{
    if i < 0 || i >= s.len() {
        None
    } else if s[i] == '`' {
        proof {
            lemma_tick_run(s, i);
        }
        if tick_run(s, i) == n {
            Some(i)
        } else {
            find_run(s, n, i + tick_run(s, i))
        }
    } else {
        find_run(s, n, i + 1)
    }
}

/// The end of the code span that opens at `i`: a run of backticks opens it, and
/// the next run of as many backticks closes it.
pub open spec fn code_span(s: Seq<char>, i: int) -> Option<int> {
    let n = tick_run(s, i);
    if n > 0 {
        match find_run(s, n, i + n) {
            Some(k) => Some(k + n),
            None => None,
        }
    } else {
        None
    }
}

/// The end of what the backtick at `i` begins: a code span, or else a run of
/// backticks that opens none.
pub open spec fn ticks_end(s: Seq<char>, i: int) -> int {
    match code_span(s, i) {
        Some(e) => e,
        None => i + tick_run(s, i),
    }
}

/// A run of backticks is as long as it can be.
pub proof fn lemma_tick_run(s: Seq<char>, i: int)
    requires
        0 <= i <= s.len(),
    ensures
        0 <= tick_run(s, i),
        i + tick_run(s, i) <= s.len(),
        i < s.len() && s[i] == '`' ==> tick_run(s, i) > 0,
        forall|j: int| i <= j < i + tick_run(s, i) ==> #[trigger] s[j] == '`',
        i + tick_run(s, i) < s.len() ==> s[i + tick_run(s, i)] != '`',
    decreases s.len() - i,
{
    if i < s.len() && s[i] == '`' {
        lemma_tick_run(s, i + 1);
    }
}

/// A run that is found lies within the line.
pub proof fn lemma_find_run(s: Seq<char>, n: int, i: int)
    requires
        0 <= i,
    ensures
        find_run(s, n, i) matches Some(k) ==> {
            &&& i <= k < s.len()
            &&& s[k] == '`'
            &&& tick_run(s, k) == n
            &&& 0 < n <= s.len() - k
        },
    decreases s.len() - i,
{
    if i < s.len() {
        lemma_tick_run(s, i);
        if s[i] == '`' {
            lemma_find_run(s, n, i + tick_run(s, i));
        } else {
            lemma_find_run(s, n, i + 1);
        }
    }
}

/// A code span lies within the line, between two runs of backticks of the same
/// length, and is not empty.
pub proof fn lemma_code_span(s: Seq<char>, i: int)
    requires
        0 <= i < s.len(),
    ensures
        code_span(s, i) is Some ==> s[i] == '`',
        code_span(s, i) matches Some(e) ==> {
            let n = tick_run(s, i);
            &&& n > 0
            &&& i + n < e - n
            &&& e <= s.len()
            &&& tick_run(s, e - n) == n
            &&& s[e - 1] == '`'
            &&& e < s.len() ==> s[e] != '`'
        },
        s[i] == '`' ==> i < ticks_end(s, i) <= s.len(),
{
    let n = tick_run(s, i);
    lemma_tick_run(s, i);
    lemma_find_run(s, n, i + n);
    if let Some(k) = find_run(s, n, i + n) {
        lemma_tick_run(s, k);
        assert(s[k + n - 1] == '`');
    }
}

/// Counts the backticks in a row from `i` on.
pub fn count_ticks(s: &[char], i: usize) -> (r: usize)
    requires
        i <= s@.len(),
    ensures
        r == tick_run(s@, i as int),
        i + r <= s@.len(),
{
    let mut k: usize = i;
    while k < s.len() && s[k] == '`'
        invariant
            i <= k <= s.len(),
            (k - i) + tick_run(s@, k as int) == tick_run(s@, i as int),
        decreases s.len() - k,
    {
        k += 1;
    }
    k - i
}

/// Finds the end of the code span that opens at `i`.
pub fn find_code_span(s: &[char], i: usize) -> (r: Option<usize>)
    requires
        i < s@.len(),
    ensures
        match r {
            Some(e) => code_span(s@, i as int) == Some(e as int) && i + 1 < e <= s@.len(),
            None => code_span(s@, i as int) is None,
        },
{
    proof {
        lemma_code_span(s@, i as int);
    }
    let n: usize = count_ticks(s, i);
    if n == 0 {
        return None;
    }
    let len: usize = s.len();
    let mut k: usize = i + n;
    while k < len
        invariant
            len == s.len(),
            i + n <= k <= s.len(),
            find_run(s@, n as int, k as int) == find_run(s@, n as int, i + n),
            n == tick_run(s@, i as int),
            n > 0,
        decreases s.len() - k,
    {
        if s[k] == '`' {
            proof {
                lemma_tick_run(s@, k as int);
            }
            let m: usize = count_ticks(s, k);
            if m == n {
                return Some(k + n);
            }
            k += m;
        } else {
            k += 1;
        }
    }
    None
}

/// Finds the end of what the backtick at `i` begins.
pub fn find_ticks_end(s: &[char], i: usize) -> (r: usize)
    requires
        i < s@.len(),
        s@[i as int] == '`',
    ensures
        r == ticks_end(s@, i as int),
        i < r <= s@.len(),
{
    proof {
        lemma_code_span(s@, i as int);
    }
    let len: usize = s.len();
    match find_code_span(s, i) {
        Some(e) => e,
        None => {
            let n: usize = count_ticks(s, i);
            proof {
                assert(i + n <= len);
            }
            i + n
        },
    }
}

/// The first position at or after `i` where `marker` stands outside of the
/// code spans that open at or after `i`.
pub open spec fn closing(s: Seq<char>, marker: Seq<char>, i: int) -> Option<int>
    decreases s.len() - i,
{
    if i < 0 || i >= s.len() {
        None
    } else if s[i] == '`' {
        proof {
            lemma_code_span(s, i);
        }
        closing(s, marker, ticks_end(s, i))
    } else if text::occurs_at(s, i, marker) {
        Some(i)
    } else {
        closing(s, marker, i + 1)
    }
}

/// The closing position of the span that `marker` opens at `i`, if the span
/// is closed and holds at least one character.
pub open spec fn span_end(s: Seq<char>, marker: Seq<char>, i: int) -> Option<int> {
    if text::occurs_at(s, i, marker) {
        match closing(s, marker, i + marker.len()) {
            Some(e) => if e > i + marker.len() {
                Some(e)
            } else {
                None
            },
            None => None,
        }
    } else {
        None
    }
}

/// The closing position of the italic span `*text*` that opens at `i`: no
/// white space stands just inside of either asterisk.
pub open spec fn italic_end(s: Seq<char>, i: int) -> Option<int> {
    if i + 1 < s.len() && !text::white_space(s[i + 1]) {
        match span_end(s, seq!['*'], i) {
            Some(e) => if !text::white_space(s[e - 1]) {
                Some(e)
            } else {
                None
            },
            None => None,
        }
    } else {
        None
    }
}

/// The closing position of the bold span `__text__` that opens at `i`: the
/// character just before the opening marker and the one just after the closing
/// marker are not alphanumeric.
pub open spec fn underscore_end(s: Seq<char>, i: int) -> Option<int> {
    if i > 0 && outside::alphanumeric(s[i - 1]) {
        None
    } else {
        match span_end(s, seq!['_', '_'], i) {
            Some(e) => if e + 2 < s.len() && outside::alphanumeric(s[e + 2]) {
                None
            } else {
                Some(e)
            },
            None => None,
        }
    }
}

/// The positions of the `]` and the `)` of the link whose `[` stands at `open`.
/// Those in inline code do not count.
pub open spec fn link_at(s: Seq<char>, open: int) -> Option<(int, int)> {
    if 0 <= open < s.len() && s[open] == '[' {
        match closing(s, seq![']'], open + 1) {
            Some(b) => if b + 1 < s.len() && s[b + 1] == '(' {
                match closing(s, seq![')'], b + 2) {
                    Some(p) => Some((b, p)),
                    None => None,
                }
            } else {
                None
            },
            None => None,
        }
    } else {
        None
    }
}

/// The character that opens a link title which ends with `last`.
pub open spec fn title_opener(last: char) -> Option<char> {
    if last == '"' {
        Some('"')
    } else if last == '\'' {
        Some('\'')
    } else if last == ')' {
        Some('(')
    } else {
        None
    }
}

/// The destination inside of the parentheses of a link, without white space
/// at its ends and without the optional title: a title ends the text and its
/// opening mark, the last one in the text, follows white space.
pub open spec fn link_url(raw: Seq<char>) -> Seq<char> {
    let t = text::trim(raw);
    if t.len() > 0 && title_opener(t.last()) is Some {
        let w = t.drop_last();
        match text::rfind_char(w, title_opener(t.last())->0, w.len() as int) {
            Some(k) => if k > 0 && text::white_space(w[k - 1]) {
                text::trim_end(w.take(k - 1))
            } else {
                t
            },
            None => t,
        }
    } else {
        t
    }
}

/// The text is a web address.
pub open spec fn web_address(url: Seq<char>) -> bool {
    text::starts_with(url, "http://"@) || text::starts_with(url, "https://"@)
}

/// The markup of a link: web addresses are kept, of any other link only the
/// label is.
pub open spec fn link_markup(url: Seq<char>, label: Seq<char>) -> Seq<char> {
    if web_address(url) {
        seq!['<'] + url + seq!['|'] + label + seq!['>']
    } else {
        label
    }
}

/// What the first construct at `i` of the inside of a bold span becomes, and
/// where the text after it begins. Code spans are kept and `*text*` becomes
/// `_text_`.
pub open spec fn bold_step(s: Seq<char>, i: int) -> (Seq<char>, int) {
    if s[i] == '`' {
        (s.subrange(i, ticks_end(s, i)), ticks_end(s, i))
    } else if span_end(s, seq!['*'], i) is Some {
        let e = span_end(s, seq!['*'], i)->0;
        (seq!['_'] + s.subrange(i + 1, e) + seq!['_'], e + 1)
    } else {
        (seq![s[i]], i + 1)
    }
}

/// The inside of a bold span from `i` on, made safe for Slack's `*...*`.
pub open spec fn bold_from(s: Seq<char>, i: int) -> Seq<char>
    decreases s.len() - i,
{
    if i < 0 || i >= s.len() {
        Seq::empty()
    } else {
        proof {
            lemma_bold_step(s, i);
        }
        bold_step(s, i).0 + bold_from(s, bold_step(s, i).1)
    }
}

/// What the first construct at `i` of a line becomes, and where the text
/// after it begins.
///
/// In order of precedence: a backslash escape, a code span or a run of backticks
/// that opens none, `***bold italic***`, `**bold**`, `*italic*`, `__bold__`,
/// `~~strikethrough~~`, an image, a link, and a single character.
pub open spec fn inline_step(s: Seq<char>, i: int) -> (Seq<char>, int) {
    if escape_at(s, i) {
        (seq![s[i + 1]], i + 2)
    } else if s[i] == '`' {
        (s.subrange(i, ticks_end(s, i)), ticks_end(s, i))
    } else if span_end(s, seq!['*', '*', '*'], i) is Some {
        let e = span_end(s, seq!['*', '*', '*'], i)->0;
        (seq!['*', '_'] + s.subrange(i + 3, e) + seq!['_', '*'], e + 3)
    } else if span_end(s, seq!['*', '*'], i) is Some {
        let e = span_end(s, seq!['*', '*'], i)->0;
        (seq!['*'] + bold_from(s.subrange(i + 2, e), 0) + seq!['*'], e + 2)
    } else if italic_end(s, i) is Some {
        let e = italic_end(s, i)->0;
        (seq!['_'] + s.subrange(i + 1, e) + seq!['_'], e + 1)
    } else if underscore_end(s, i) is Some {
        let e = underscore_end(s, i)->0;
        (seq!['*'] + s.subrange(i + 2, e) + seq!['*'], e + 2)
    } else if span_end(s, seq!['~', '~'], i) is Some {
        let e = span_end(s, seq!['~', '~'], i)->0;
        (seq!['~'] + s.subrange(i + 2, e) + seq!['~'], e + 2)
    } else if s[i] == '!' && link_at(s, i + 1) is Some {
        let (b, p) = link_at(s, i + 1)->0;
        (seq!['<'] + link_url(s.subrange(b + 2, p)) + seq!['>'], p + 1)
    } else if link_at(s, i) is Some {
        let (b, p) = link_at(s, i)->0;
        (link_markup(link_url(s.subrange(b + 2, p)), s.subrange(i + 1, b)), p + 1)
    } else {
        (seq![s[i]], i + 1)
    }
}

/// The line from `i` on with its inline constructs converted.
pub open spec fn inline_from(s: Seq<char>, i: int) -> Seq<char>
    decreases s.len() - i,
{
    if i < 0 || i >= s.len() {
        Seq::empty()
    } else {
        proof {
            lemma_inline_step(s, i);
        }
        inline_step(s, i).0 + inline_from(s, inline_step(s, i).1)
    }
}

/// The line with its inline constructs converted.
pub open spec fn inline_line(s: Seq<char>) -> Seq<char> {
    inline_from(s, 0)
}

/// A closing marker stands where `closing` says, after the start of the search.
pub proof fn lemma_closing(s: Seq<char>, marker: Seq<char>, i: int)
    requires
        0 <= i,
    ensures
        closing(s, marker, i) matches Some(e) ==> i <= e && e < s.len() && text::occurs_at(s, e, marker),
    decreases s.len() - i,
{
    if i < s.len() {
        if s[i] == '`' {
            lemma_code_span(s, i);
            lemma_closing(s, marker, ticks_end(s, i));
        } else if !text::occurs_at(s, i, marker) {
            lemma_closing(s, marker, i + 1);
        }
    }
}

/// A span that is closed lies within the text and is not empty.
pub proof fn lemma_span_end(s: Seq<char>, marker: Seq<char>, i: int)
    requires
        0 <= i,
    ensures
        span_end(s, marker, i) matches Some(e) ==> i + marker.len() < e && e + marker.len()
            <= s.len(),
{
    lemma_closing(s, marker, (i + marker.len()) as int);
}

/// A step inside of a bold span moves forward and stays within the text.
pub proof fn lemma_bold_step(s: Seq<char>, i: int)
    requires
        0 <= i < s.len(),
    ensures
        i < bold_step(s, i).1 <= s.len(),
{
    lemma_code_span(s, i);
    lemma_span_end(s, seq!['*'], i);
}

/// A step on a line moves forward and stays within the line.
pub proof fn lemma_inline_step(s: Seq<char>, i: int)
    requires
        0 <= i < s.len(),
    ensures
        i < inline_step(s, i).1 <= s.len(),
{
    if escape_at(s, i) {
    } else if s[i] == '`' {
        lemma_code_span(s, i);
    } else {
        lemma_span_end(s, seq!['*', '*', '*'], i);
        lemma_span_end(s, seq!['*', '*'], i);
        lemma_span_end(s, seq!['*'], i);
        lemma_span_end(s, seq!['_', '_'], i);
        lemma_span_end(s, seq!['~', '~'], i);
        lemma_link_at(s, i);
        lemma_link_at(s, i + 1);
    }
}

/// The brackets of a link stand in order within the line.
pub proof fn lemma_link_at(s: Seq<char>, open: int)
    requires
        0 <= open,
    ensures
        link_at(s, open) matches Some((b, p)) ==> open < b && b + 2 <= p < s.len(),
{
    lemma_closing(s, seq![']'], open + 1);
    if let Some(b) = closing(s, seq![']'], open + 1) {
        lemma_closing(s, seq![')'], b + 2);
    }
}

/// Appends `inner` between two characters.
fn push_wrapped(out: &mut String, before: char, inner: &[char], after: char)
    ensures
        final(out)@ == old(out)@ + (seq![before] + inner@ + seq![after]),
{
    out.push(before);
    text::push_chars(out, inner);
    out.push(after);
    proof {
        assert(out@ == old(out)@ + (seq![before] + inner@ + seq![after]));
    }
}

/// Whether a backslash turns the character into a literal one.
fn is_escapable(c: char) -> (r: bool)
    ensures
        r == escapable(c),
{
    c == '\\' || c == '`' || c == '*' || c == '_' || c == '{' || c == '}' || c == '[' || c == ']'
        || c == '<' || c == '>' || c == '(' || c == ')' || c == '#' || c == '+' || c == '-' || c
        == '.' || c == '!' || c == '|' || c == '~'
}

/// Finds the position of a closing marker at or after `from`, skipping over
/// inline code spans, so that a marker inside of a code span closes nothing.
pub fn find_closing_marker(s: &[char], from: usize, marker: &str) -> (r: Option<usize>)
    requires
        from <= s@.len(),
    ensures
        match r {
            Some(e) => closing(s@, marker@, from as int) == Some(e as int) && from <= e < s@.len()
                && e + marker@.len() <= s@.len(),
            None => closing(s@, marker@, from as int) is None,
        },
{
    let mut i: usize = from;
    while i < s.len()
        invariant
            from <= i <= s.len(),
            closing(s@, marker@, i as int) == closing(s@, marker@, from as int),
        decreases s.len() - i,
    {
        if s[i] == '`' {
            i = find_ticks_end(s, i);
            continue;
        }
        if text::is_at(s, i, marker) {
            return Some(i);
        }
        i += 1;
    }
    None
}

/// The closing position of the non-empty span that `marker` opens at `i`.
fn find_span_end(s: &[char], marker: &str, i: usize) -> (r: Option<usize>)
    requires
        i <= s@.len(),
    ensures
        match r {
            Some(e) => span_end(s@, marker@, i as int) == Some(e as int) && i + marker@.len() < e
                && e + marker@.len() <= s@.len(),
            None => span_end(s@, marker@, i as int) is None,
        },
{
    let n: usize = s.len();
    if n == i || !text::is_at(s, i, marker) {
        return None;
    }
    let width: usize = text::chars_of(marker).len();
    match find_closing_marker(s, i + width, marker) {
        Some(e) => if e > i + width {
            Some(e)
        } else {
            None
        },
        None => None,
    }
}

/// The closing position of the italic span `*text*` that opens at `i`.
fn find_italic_end(s: &[char], i: usize) -> (r: Option<usize>)
    requires
        i < s@.len(),
    ensures
        match r {
            Some(e) => italic_end(s@, i as int) == Some(e as int) && i + 1 < e < s@.len(),
            None => italic_end(s@, i as int) is None,
        },
{
    proof {
        reveal_strlit("*");
        assert("*"@ == seq!['*']);
    }
    let n: usize = s.len();
    if i + 1 < n && !text::is_white_space(s[i + 1]) {
        if let Some(e) = find_span_end(s, "*", i) {
            if !text::is_white_space(s[e - 1]) {
                return Some(e);
            }
        }
    }
    None
}

/// The closing position of the bold span `__text__` that opens at `i`.
fn find_underscore_end(s: &[char], i: usize) -> (r: Option<usize>)
    requires
        i < s@.len(),
    ensures
        match r {
            Some(e) => underscore_end(s@, i as int) == Some(e as int) && i + 2 < e && e + 2
                <= s@.len(),
            None => underscore_end(s@, i as int) is None,
        },
{
    proof {
        reveal_strlit("__");
        assert("__"@ == seq!['_', '_']);
    }
    if i > 0 && outside::is_alphanumeric(s[i - 1]) {
        return None;
    }
    let n: usize = s.len();
    if let Some(e) = find_span_end(s, "__", i) {
        if e + 2 < n && outside::is_alphanumeric(s[e + 2]) {
            return None;
        }
        return Some(e);
    }
    None
}

/// The positions of the `]` and the `)` of the link whose `[` stands at `open`.
/// Those in inline code do not count.
fn find_link(s: &[char], open: usize) -> (r: Option<(usize, usize)>)
    ensures
        match r {
            Some((b, p)) => link_at(s@, open as int) == Some((b as int, p as int)) && open < b && b
                + 2 <= p < s@.len(),
            None => link_at(s@, open as int) is None,
        },
{
    proof {
        reveal_strlit("]");
        reveal_strlit(")");
        assert("]"@ == seq![']']);
        assert(")"@ == seq![')']);
    }
    if open < s.len() && s[open] == '[' {
        if let Some(b) = find_closing_marker(s, open + 1, "]") {
            if b + 1 < s.len() && s[b + 1] == '(' {
                if let Some(p) = find_closing_marker(s, b + 2, ")") {
                    return Some((b, p));
                }
            }
        }
    }
    None
}

/// Strips an optional Markdown link title from the parenthesised portion of a
/// link or image: `https://example.com "Title"` becomes `https://example.com`.
///
/// The title can be enclosed in double quotes, single quotes or parentheses
/// and appears after the address, separated by white space.
pub fn strip_link_title(raw: &[char]) -> (r: &[char])
    ensures
        r@ == link_url(raw@),
{
    let t = text::trim_of(raw);
    if t.len() == 0 {
        return t;
    }
    let last: char = t[t.len() - 1];
    let opener: char = if last == '"' {
        '"'
    } else if last == '\'' {
        '\''
    } else if last == ')' {
        '('
    } else {
        return t;
    };
    let w = vstd::slice::slice_subrange(t, 0, t.len() - 1);
    if let Some(k) = text::rfind_char_in(w, opener) {
        if k > 0 && text::is_white_space(w[k - 1]) {
            return text::trim_end_of(vstd::slice::slice_subrange(w, 0, k - 1));
        }
    }
    t
}

/// Whether the text is a web address.
fn is_web_address(url: &[char]) -> (r: bool)
    ensures
        r == web_address(url@),
{
    text::is_at(url, 0, "http://") || text::is_at(url, 0, "https://")
}

/// Converts the inner content of a `**bold**` span so that it is safe inside
/// of Slack's `*...*`, and appends it: nested `*text*` becomes `_text_` and
/// inline code is kept.
pub fn convert_bold_inner(out: &mut String, s: &[char])
    ensures
        final(out)@ == old(out)@ + bold_from(s@, 0),
{
    let mut i: usize = 0;
    proof {
        reveal_strlit("*");
        assert("*"@ == seq!['*']);
    }
    while i < s.len()
        invariant
            i <= s.len(),
            "*"@ == seq!['*'],
            out@ + bold_from(s@, i as int) == old(out)@ + bold_from(s@, 0),
        decreases s.len() - i,
    {
        let ghost at = i as int;
        let ghost before = out@;
        proof {
            lemma_bold_step(s@, at);
        }
        if s[i] == '`' {
            let e: usize = find_ticks_end(s, i);
            text::push_chars(out, vstd::slice::slice_subrange(s, i, e));
            i = e;
        } else if let Some(e) = find_span_end(s, "*", i) {
            push_wrapped(out, '_', vstd::slice::slice_subrange(s, i + 1, e), '_');
            i = e + 1;
        } else {
            out.push(s[i]);
            i += 1;
        }
        proof {
            assert(out@ == before + bold_step(s@, at).0);
            assert(before + bold_from(s@, at) == out@ + bold_from(s@, i as int));
        }
    }
    proof {
        assert(out@ + bold_from(s@, i as int) == out@);
    }
}

/// Converts the construct at `i`, appends what it becomes and returns where
/// the text after it begins.
fn push_construct(out: &mut String, s: &[char], i: usize) -> (next: usize)
    requires
        i < s@.len(),
    ensures
        final(out)@ == old(out)@ + inline_step(s@, i as int).0,
        next == inline_step(s@, i as int).1,
        i < next <= s@.len(),
{
    proof {
        lemma_inline_step(s@, i as int);
        reveal_strlit("***");
        assert("***"@ == seq!['*', '*', '*']);
        reveal_strlit("**");
        assert("**"@ == seq!['*', '*']);
        reveal_strlit("~~");
        assert("~~"@ == seq!['~', '~']);
    }
    if s[i] == '\\' && i + 1 < s.len() && is_escapable(s[i + 1]) {
        out.push(s[i + 1]);
        return i + 2;
    }
    if s[i] == '`' {
        let e: usize = find_ticks_end(s, i);
        text::push_chars(out, vstd::slice::slice_subrange(s, i, e));
        return e;
    }
    if let Some(e) = find_span_end(s, "***", i) {
        out.push('*');
        push_wrapped(out, '_', vstd::slice::slice_subrange(s, i + 3, e), '_');
        out.push('*');
        proof {
            assert(out@ == old(out)@ + inline_step(s@, i as int).0);
        }
        return e + 3;
    }
    if let Some(e) = find_span_end(s, "**", i) {
        out.push('*');
        convert_bold_inner(out, vstd::slice::slice_subrange(s, i + 2, e));
        out.push('*');
        proof {
            assert(out@ == old(out)@ + inline_step(s@, i as int).0);
        }
        return e + 2;
    }
    if let Some(e) = find_italic_end(s, i) {
        push_wrapped(out, '_', vstd::slice::slice_subrange(s, i + 1, e), '_');
        return e + 1;
    }
    if let Some(e) = find_underscore_end(s, i) {
        push_wrapped(out, '*', vstd::slice::slice_subrange(s, i + 2, e), '*');
        return e + 2;
    }
    if let Some(e) = find_span_end(s, "~~", i) {
        push_wrapped(out, '~', vstd::slice::slice_subrange(s, i + 2, e), '~');
        return e + 2;
    }
    if s[i] == '!' {
        if let Some((b, p)) = find_link(s, i + 1) {
            push_wrapped(out, '<', strip_link_title(vstd::slice::slice_subrange(s, b + 2, p)), '>');
            return p + 1;
        }
    }
    if let Some((b, p)) = find_link(s, i) {
        let url = strip_link_title(vstd::slice::slice_subrange(s, b + 2, p));
        let label = vstd::slice::slice_subrange(s, i + 1, b);
        if is_web_address(url) {
            push_wrapped(out, '<', url, '|');
            text::push_chars(out, label);
            out.push('>');
            proof {
                assert(out@ == old(out)@ + inline_step(s@, i as int).0);
            }
        } else {
            text::push_chars(out, label);
        }
        return p + 1;
    }
    out.push(s[i]);
    i + 1
}

/// Converts inline Markdown formatting in a single line to Slack mrkdwn.
///
/// Handles bold, italic, strikethrough, inline code, links, and images.
/// Inline code spans are detected first and preserved verbatim so that
/// formatting markers inside of backticks are not converted.
pub fn convert_inline_formatting(line: &str) -> (r: String)
    ensures
        r@ == inline_line(line@),
{
    let chars = text::chars_of(line);
    let mut out = String::new();
    let mut i: usize = 0;
    while i < chars.len()
        invariant
            i <= chars.len(),
            chars@ == line@,
            out@ + inline_from(line@, i as int) == inline_line(line@),
        decreases chars.len() - i,
    {
        let ghost at = i as int;
        let ghost before = out@;
        i = push_construct(&mut out, chars.as_slice(), i);
        proof {
            assert(before + inline_from(line@, at) == out@ + inline_from(line@, i as int));
        }
    }
    proof {
        assert(out@ + inline_from(line@, i as int) == out@);
    }
    out
}

} // verus!
