//! What each construct of Markdown becomes.

use vstd::prelude::*;
use crate::mrkdwn::brackets;
use crate::mrkdwn::document;
use crate::mrkdwn::document::Piece;
use crate::mrkdwn::entities;
use crate::mrkdwn::fences;
use crate::mrkdwn::laws;
use crate::mrkdwn::lines;
use crate::mrkdwn::spans;
use crate::mrkdwn::tables;
use crate::mrkdwn::urls;
use crate::outside;
use crate::text;

verus! {

/// The character has no meaning in markup.
pub open spec fn plain_char(c: char) -> bool {
    &&& c != '\\' && c != '`' && c != '*' && c != '_' && c != '~' && c != '[' && c != ']'
    &&& c != '(' && c != ')' && c != '!' && c != '#' && c != '|' && c != '&' && c != '<'
    &&& c != '>' && c != '\n'
}

/// No web address begins at `i`.
pub open spec fn no_address_at(s: Seq<char>, i: int) -> bool {
    !text::occurs_at(s, i, "http://"@) && !text::occurs_at(s, i, "https://"@)
}

/// The text has no markup and no web address, and no white space at its ends.
pub open spec fn plain_text(t: Seq<char>) -> bool {
    &&& t.len() > 0
    &&& !text::white_space(t[0]) && !text::white_space(t.last())
    &&& forall|i: int| 0 <= i < t.len() ==> plain_char(#[trigger] t[i])
    &&& forall|i: int| #[trigger] no_address_at(t, i)
}

/// A text has no web address if what stands around it has no part of one.
pub proof fn lemma_no_address(a: Seq<char>, t: Seq<char>, b: Seq<char>)
    requires
        forall|i: int| #[trigger] no_address_at(t, i),
        forall|i: int| 0 <= i < a.len() ==> address_free(#[trigger] a[i]),
        forall|i: int| 0 <= i < b.len() ==> address_free(#[trigger] b[i]),
    ensures
        forall|i: int| #[trigger] no_address_at(a + t + b, i),
{
    let s = a + t + b;
    reveal_strlit("http://");
    reveal_strlit("https://");
    assert forall|i: int| #[trigger] no_address_at(s, i) by {
        assert(no_address_at(t, i - a.len()));
        if text::occurs_at(s, i, "http://"@) {
            lemma_address_inside(a, t, b, i, "http://"@);
        }
        if text::occurs_at(s, i, "https://"@) {
            lemma_address_inside(a, t, b, i, "https://"@);
        }
    }
}

/// The character stands in no prefix of a web address.
pub open spec fn address_free(c: char) -> bool {
    c != 'h' && c != 't' && c != 'p' && c != 's' && c != ':' && c != '/'
}

/// A prefix of a web address lies within the text that may hold one.
pub proof fn lemma_address_inside(a: Seq<char>, t: Seq<char>, b: Seq<char>, i: int, p: Seq<char>)
    requires
        p.len() > 0,
        forall|k: int| 0 <= k < p.len() ==> !address_free(#[trigger] p[k]),
        forall|k: int| 0 <= k < a.len() ==> address_free(#[trigger] a[k]),
        forall|k: int| 0 <= k < b.len() ==> address_free(#[trigger] b[k]),
        text::occurs_at(a + t + b, i, p),
    ensures
        text::occurs_at(t, i - a.len(), p),
{
    let s = a + t + b;
    let sub = s.subrange(i, i + p.len());
    if i < a.len() {
        assert(sub[0] == p[0]);
        assert(address_free(a[i]));
    }
    let last = i + p.len() - 1;
    if last >= a.len() + t.len() {
        assert(sub[p.len() - 1] == p[p.len() - 1]);
        assert(address_free(b[last - a.len() - t.len()]));
    }
    assert(t.subrange(i - a.len(), i - a.len() + p.len()) == sub);
}

/// A text without backticks, control characters and web addresses is kept by
/// the later passes.
proof fn lemma_harmless(s: Seq<char>, i: int)
    requires
        0 <= i <= s.len(),
        forall|k: int|
            0 <= k < s.len() ==> #[trigger] s[k] != '`' && s[k] != '&' && s[k] != '<' && s[k] != '>',
        forall|k: int| #[trigger] no_address_at(s, k),
    ensures
        urls::wrap_from(s, i) == s.skip(i),
        entities::escape_from(s, i) == s.skip(i),
    decreases s.len() - i,
{
    if i < s.len() {
        lemma_harmless(s, i + 1);
        assert(no_address_at(s, i));
        if urls::address_at(s, i + 1) {
            urls::lemma_address(s, None, i + 1);
            assert(no_address_at(s, i + 1));
        }
        assert(entities::entity(s[i]) == seq![s[i]]);
        assert(seq![s[i]] + s.skip(i + 1) == s.skip(i));
    }
}

/// A message of one line: what the line becomes by itself, and what the pass on
/// web addresses makes of that.
proof fn lemma_one_line(line: Seq<char>, mid: Seq<char>, out: Seq<char>)
    requires
        line.len() > 0,
        !line.contains('\n'),
        document::fence_of(line) is None,
        document::plain_line(line) == mid,
        !mid.contains('\n'),
        !tables::table_row(mid),
        document::fence_of(mid) is None,
        urls::wrap_line(mid) == out,
        !out.contains('\n'),
        document::fence_of(out) is None,
        entities::escape_line(out) == out,
    ensures
        document::mrkdwn(line) == out,
{
    reveal_strlit("\n");
    assert("\n"@ == seq!['\n']);
    laws::law_split_undoes_join(seq![line], '\n');
    laws::law_split_undoes_join(seq![mid], '\n');
    laws::law_split_undoes_join(seq![out], '\n');
    assert(text::join(seq![line], seq!['\n']) == line);
    assert(text::join(seq![mid], seq!['\n']) == mid);
    assert(text::join(seq![out], seq!['\n']) == out);
    let ls = seq![line];
    let ps = document::convert_lines(ls);
    assert(document::block(ls, 0) is None);
    assert(ps == seq![Piece { chars: mid, code: false }]);
    let ms = seq![mid];
    document::lemma_plain_end(ps, 0);
    assert(document::plain_end(ps, 0) == 1);
    assert(document::chars_in(ps.subrange(0, 1)) == ms);
    assert(tables::convert_from(ms, 1) == Seq::<Seq<char>>::empty());
    assert(tables::convert_from(ms, 0) == ms);
    laws::lemma_fences(mid);
    laws::lemma_fences(out);
    let f = |l: Seq<char>| urls::wrap_line(l);
    let g = |l: Seq<char>| entities::escape_line(l);
    assert(!fences::fenced(ms, 0));
    assert(!fences::fenced(seq![out], 0));
    assert(fences::map_unfenced(ms, f) == seq![out]);
    assert(fences::map_unfenced(seq![out], g) == seq![out]);
    assert(document::polish(ms) == out);
    assert(document::parts_from(ps, 1) == Seq::<Seq<char>>::empty());
    assert(document::parts_from(ps, 0) == seq![out]);
    if out.len() > 0 && out.last() == '\n' {
        assert(out[out.len() - 1] == '\n');
    }
}

/// A line that begins with a character of markup, and holds plain text too, is
/// no rule and no fence.
proof fn lemma_marked_line(line: Seq<char>, k: int)
    requires
        0 < k < line.len(),
        !text::white_space(line[0]),
        line[0] != '#',
        !text::white_space(line[k]),
        line[k] != line[0],
    ensures
        text::trim_start(line) == line,
        !lines::horizontal_rule(text::trim_start(line)),
        !document::is_header(line),
{
    lemma_not_a_rule(line, k);
}

/// The marker that closes a span is found behind text without it.
pub proof fn lemma_closes(s: Seq<char>, marker: Seq<char>, i: int, e: int)
    requires
        0 <= i <= e < s.len(),
        marker.len() > 0,
        forall|k: int| i <= k < e ==> #[trigger] s[k] != '`' && s[k] != marker[0],
        s[e] != '`',
        text::occurs_at(s, e, marker),
    ensures
        spans::closing(s, marker, i) == Some(e),
    decreases e - i,
{
    if i < e {
        if text::occurs_at(s, i, marker) {
            assert(s.subrange(i, i + marker.len())[0] == marker[0]);
        }
        lemma_closes(s, marker, i + 1, e);
    }
}

/// The line that a marker, a text and a marker make.
pub open spec fn between(left: Seq<char>, t: Seq<char>, right: Seq<char>) -> Seq<char> {
    left + t + right
}

/// The span of a line that is one span ends at the end of the line.
proof fn lemma_whole_span(m: Seq<char>, t: Seq<char>)
    requires
        plain_text(t),
        m.len() > 0,
        forall|k: int| 0 <= k < m.len() ==> #[trigger] m[k] == m[0],
        m[0] != '`',
        !plain_char(m[0]),
    ensures
        spans::span_end(between(m, t, m), m, 0) == Some((m.len() + t.len()) as int),
        forall|w: Seq<char>|
            #![trigger text::occurs_at(between(m, t, m), 0, w)]
            w.len() > m.len() && w[m.len() as int] == m[0] ==> !text::occurs_at(
                between(m, t, m),
                0,
                w,
            ),
{
    let s = between(m, t, m);
    let e = (m.len() + t.len()) as int;
    assert(s.subrange(0, m.len() as int) == m);
    assert(s.subrange(e, e + m.len()) == m);
    assert forall|k: int| m.len() <= k < e implies #[trigger] s[k] != '`' && s[k] != m[0] by {
        assert(s[k] == t[k - m.len()]);
        assert(plain_char(t[k - m.len()]));
    }
    lemma_closes(s, m, m.len() as int, e);
    assert forall|w: Seq<char>|
        #![trigger text::occurs_at(s, 0, w)]
        w.len() > m.len() && w[m.len() as int] == m[0] implies !text::occurs_at(s, 0, w) by {
        if text::occurs_at(s, 0, w) {
            assert(s.subrange(0, w.len() as int)[m.len() as int] == s[m.len() as int]);
            assert(s[m.len() as int] == t[0]);
            assert(plain_char(t[0]));
        }
    }
}

/// The inside of a bold span without markup is kept.
proof fn lemma_bold_inside(t: Seq<char>, i: int)
    requires
        0 <= i <= t.len(),
        forall|k: int| 0 <= k < t.len() ==> plain_char(#[trigger] t[k]),
    ensures
        spans::bold_from(t, i) == t.skip(i),
    decreases t.len() - i,
{
    if i < t.len() {
        lemma_bold_inside(t, i + 1);
        assert(plain_char(t[i]));
        if text::occurs_at(t, i, seq!['*']) {
            assert(t.subrange(i, i + 1)[0] == '*');
        }
        assert(seq![t[i]] + t.skip(i + 1) == t.skip(i));
    }
}

/// A line of markers around plain text that becomes plain text with other
/// markers around it.
#[verifier::rlimit(30)]
proof fn lemma_emphasis(m: Seq<char>, t: Seq<char>, left: Seq<char>, right: Seq<char>)
    requires
        plain_text(t),
        0 < m.len(),
        0 < left.len() <= 2,
        0 < right.len() <= 2,
        forall|k: int| 0 <= k < m.len() ==> #[trigger] m[k] == m[0],
        m[0] == '*' || m[0] == '_' || m[0] == '~' && m.len() == 2,
        forall|k: int|
            0 <= k < left.len() ==> #[trigger] left[k] == '*' || left[k] == '_' || left[k] == '~',
        forall|k: int|
            0 <= k < right.len() ==> #[trigger] right[k] == '*' || right[k] == '_' || right[k]
                == '~',
        left.len() == 2 ==> left[0] != left[1],
        spans::inline_line(between(m, t, m)) == between(left, t, right),
    ensures
        document::mrkdwn(between(m, t, m)) == between(left, t, right),
{
    let line = between(m, t, m);
    let out = between(left, t, right);
    let n = m.len() as int;
    reveal_strlit("```");
    reveal_strlit("~~~");
    reveal_strlit("- ");
    reveal_strlit("* ");
    reveal_strlit(". ");
    assert(plain_char(t[0]));
    assert(line[n] == t[0]);
    lemma_marked_line(line, n);
    assert forall|k: int| 0 <= k < line.len() implies #[trigger] line[k] != '\n' by {
        if n <= k < n + t.len() {
            assert(plain_char(t[k - n]));
        }
    }
    let l = left.len() as int;
    assert(out[0] == left[0]);
    assert(out[l] == t[0]);
    assert forall|k: int| 0 <= k < out.len() implies #[trigger] out[k] != '\n' && out[k] != '`'
        && out[k] != '&' && out[k] != '<' && out[k] != '>' by {
        if l <= k < l + t.len() {
            assert(plain_char(t[k - l]));
            assert(out[k] == t[k - l]);
        } else if k < l {
            assert(out[k] == left[k]);
        } else {
            assert(out[k] == right[k - l - t.len()]);
        }
    }
    lemma_no_address(left, t, right);
    lemma_harmless(out, 0);
    assert(out.skip(0) == out);
    lemma_marked_line(out, l);
    assert(text::trim_start(line) == line);
    // Neither text is a fence.
    if document::fence_of(line) is Some {
        assert(line.subrange(0, 3)[0] == line[0]);
        assert(line.subrange(0, 3)[2] == line[2]);
        if n == 2 {
            assert(line[2] == t[0]);
        }
    }
    if document::fence_of(out) is Some {
        assert(out.subrange(0, 3)[0] == out[0]);
        assert(out.subrange(0, 3)[1] == out[1]);
        if l == 1 {
            assert(out[1] == t[0]);
        } else {
            assert(out[1] == left[1]);
        }
    }
    // The result is no item of a list, and no row of a table.
    if text::starts_with(out, "- "@) || text::starts_with(out, "* "@) {
        assert(out.subrange(0, 2)[1] == out[1]);
        assert(out.subrange(0, 2)[0] == out[0]);
        if l == 1 {
            assert(out[1] == t[0]);
        } else {
            assert(out[1] == left[1]);
        }
    }
    if let Some(k) = text::find(out, ". "@, 0) {
        text::lemma_find(out, ". "@, 0);
        if k > 0 && text::all_digits(out.take(k)) {
            assert(text::digit(out.take(k)[0]));
        }
    }
    crate::laws::lemma_trim_end(out);
    assert(text::trim(out).len() > 0 ==> text::trim(out)[0] == out[0]);
    assert(lines::list_item(out) == out);
    lemma_one_line(line, out, out);
}

/// What is left of a line after a step that takes all of it.
proof fn lemma_last_step(s: Seq<char>)
    requires
        s.len() > 0,
        spans::inline_step(s, 0).1 == s.len(),
    ensures
        spans::inline_line(s) == spans::inline_step(s, 0).0,
{
    spans::lemma_inline_step(s, 0);
    assert(spans::inline_from(s, s.len() as int) == Seq::<char>::empty());
    assert(spans::inline_step(s, 0).0 + Seq::<char>::empty() == spans::inline_step(s, 0).0);
}

/// `**text**` becomes `*text*`.
pub proof fn law_bold(t: Seq<char>)
    requires
        plain_text(t),
    ensures
        document::mrkdwn(between(seq!['*', '*'], t, seq!['*', '*'])) == between(
            seq!['*'],
            t,
            seq!['*'],
        ),
{
    let m = seq!['*', '*'];
    let s = between(m, t, m);
    lemma_whole_span(m, t);
    assert(!text::occurs_at(s, 0, seq!['*', '*', '*']));
    lemma_bold_inside(t, 0);
    assert(t.skip(0) == t);
    assert(s.subrange(2, 2int + t.len()) == t);
    lemma_last_step(s);
    lemma_emphasis(m, t, seq!['*'], seq!['*']);
}

/// `***text***` becomes `*_text_*`.
pub proof fn law_bold_italic(t: Seq<char>)
    requires
        plain_text(t),
    ensures
        document::mrkdwn(between(seq!['*', '*', '*'], t, seq!['*', '*', '*'])) == between(
            seq!['*', '_'],
            t,
            seq!['_', '*'],
        ),
{
    let m = seq!['*', '*', '*'];
    let s = between(m, t, m);
    lemma_whole_span(m, t);
    assert(s.subrange(3, 3int + t.len()) == t);
    lemma_last_step(s);
    lemma_emphasis(m, t, seq!['*', '_'], seq!['_', '*']);
}

/// `*text*` becomes `_text_`.
pub proof fn law_italic(t: Seq<char>)
    requires
        plain_text(t),
    ensures
        document::mrkdwn(between(seq!['*'], t, seq!['*'])) == between(seq!['_'], t, seq!['_']),
{
    let m = seq!['*'];
    let s = between(m, t, m);
    lemma_whole_span(m, t);
    assert(!text::occurs_at(s, 0, seq!['*', '*', '*']));
    assert(!text::occurs_at(s, 0, seq!['*', '*']));
    assert(s[1] == t[0]);
    assert(s[t.len() as int] == t.last());
    assert(s.subrange(1, 1int + t.len()) == t);
    lemma_last_step(s);
    lemma_emphasis(m, t, seq!['_'], seq!['_']);
}

/// `__text__` becomes `*text*`.
pub proof fn law_underscore_bold(t: Seq<char>)
    requires
        plain_text(t),
    ensures
        document::mrkdwn(between(seq!['_', '_'], t, seq!['_', '_'])) == between(
            seq!['*'],
            t,
            seq!['*'],
        ),
{
    let m = seq!['_', '_'];
    let s = between(m, t, m);
    lemma_whole_span(m, t);
    lemma_no_marker(s, 0, seq!['*', '*', '*']);
    lemma_no_marker(s, 0, seq!['*', '*']);
    lemma_no_marker(s, 0, seq!['*']);
    assert(s.subrange(2, 2int + t.len()) == t);
    lemma_last_step(s);
    lemma_emphasis(m, t, seq!['*'], seq!['*']);
}

/// `~~text~~` becomes `~text~`.
pub proof fn law_strikethrough(t: Seq<char>)
    requires
        plain_text(t),
    ensures
        document::mrkdwn(between(seq!['~', '~'], t, seq!['~', '~'])) == between(
            seq!['~'],
            t,
            seq!['~'],
        ),
{
    let m = seq!['~', '~'];
    let s = between(m, t, m);
    lemma_whole_span(m, t);
    lemma_no_marker(s, 0, seq!['*', '*', '*']);
    lemma_no_marker(s, 0, seq!['*', '*']);
    lemma_no_marker(s, 0, seq!['*']);
    lemma_no_marker(s, 0, seq!['_', '_']);
    assert(s.subrange(2, 2int + t.len()) == t);
    lemma_last_step(s);
    lemma_emphasis(m, t, seq!['~'], seq!['~']);
}

/// The text is a web address that stands in a link: without white space,
/// brackets, quotes and bars.
pub open spec fn address(u: Seq<char>) -> bool {
    &&& spans::web_address(u)
    &&& forall|i: int| 0 <= i < u.len() ==> address_char(#[trigger] u[i])
}

/// The character may stand in the address of a link.
pub open spec fn address_char(c: char) -> bool {
    &&& !text::white_space(c)
    &&& c != '(' && c != ')' && c != '[' && c != ']' && c != '<' && c != '>' && c != '|'
    &&& c != '"' && c != '\'' && c != '`'
}

/// Trimming keeps a text without white space at its ends.
pub proof fn lemma_trim_keeps(s: Seq<char>)
    requires
        s.len() > 0,
        !text::white_space(s[0]),
        !text::white_space(s.last()),
    ensures
        text::trim(s) == s,
        text::trim_start(s) == s,
{
}

/// The bracket that closes is the first one, behind others.
pub proof fn lemma_finds(s: Seq<char>, c: char, i: int, e: int)
    requires
        0 <= i <= e < s.len(),
        s[e] == c,
        c != '`',
        forall|k: int| i <= k < e ==> #[trigger] s[k] != c && s[k] != '`',
    ensures
        spans::closing(s, seq![c], i) == Some(e),
{
    assert(s.subrange(e, e + 1) == seq![c]);
    lemma_closes(s, seq![c], i, e);
}

/// A line that is Slack's syntax in angle brackets is kept.
proof fn lemma_bracket_kept(s: Seq<char>)
    requires
        s.len() > 1,
        s[0] == '<',
        s.last() == '>',
        brackets::slack_syntax_at(s, 1),
        forall|k: int| 0 < k < s.len() - 1 ==> #[trigger] s[k] != '>' && s[k] != '`',
    ensures
        urls::wrap_line(s) == s,
        entities::escape_line(s) == s,
{
    let n = s.len() as int;
    assert(s.subrange(n - 1, n) == seq!['>']);
    lemma_closes(s, seq!['>'], 1, n - 1);
    assert(brackets::bracket_end(s, 0) == Some(n));
    assert(s.subrange(0, n) == s);
    assert(urls::wrap_from(s, n) == Seq::<char>::empty());
    assert(entities::escape_from(s, n) == Seq::<char>::empty());
    assert(s + Seq::<char>::empty() == s);
}

/// The link `<url|text>`.
pub open spec fn slack_link(u: Seq<char>, t: Seq<char>) -> Seq<char> {
    seq!['<'] + u + seq!['|'] + t + seq!['>']
}

/// The later passes keep a link of Slack's.
#[verifier::rlimit(30)]
proof fn lemma_link_kept(u: Seq<char>, t: Seq<char>)
    requires
        address(u),
        plain_text(t),
    ensures
        urls::wrap_line(slack_link(u, t)) == slack_link(u, t),
        entities::escape_line(slack_link(u, t)) == slack_link(u, t),
        !slack_link(u, t).contains('\n'),
        !tables::table_row(slack_link(u, t)),
        document::fence_of(slack_link(u, t)) is None,
        lines::list_item(slack_link(u, t)) == slack_link(u, t),
{
    let out = slack_link(u, t);
    let a = u.len() as int;
    reveal_strlit("http://");
    reveal_strlit("https://");
    assert(u.len() >= 7);
    assert forall|k: int| 0 <= k < out.len() implies #[trigger] out[k] != '`' && out[k] != '\n'
        && (0 < k < out.len() - 1 ==> out[k] != '>') by {
        if 1 <= k < 1 + a {
            assert(out[k] == u[k - 1]);
            assert(address_char(u[k - 1]));
        } else if 2 + a <= k < 2 + a + t.len() {
            assert(out[k] == t[k - 2 - a]);
            assert(plain_char(t[k - 2 - a]));
        }
    }
    // The bracket opens Slack's syntax.
    assert(out[0] == '<');
    if text::starts_with(u, "http://"@) {
        assert(out.subrange(1, 8) == u.subrange(0, 7));
    } else {
        assert(out.subrange(1, 9) == u.subrange(0, 8));
    }
    assert(brackets::slack_syntax_at(out, 1));
    lemma_bracket_kept(out);
    lemma_bracket_line(out);
}

/// A line that begins with an angle bracket is no item, row or fence.
proof fn lemma_bracket_line(s: Seq<char>)
    requires
        s.len() > 0,
        s[0] == '<',
    ensures
        !tables::table_row(s),
        document::fence_of(s) is None,
        lines::list_item(s) == s,
{
    reveal_strlit("```");
    reveal_strlit("~~~");
    reveal_strlit("- ");
    reveal_strlit("* ");
    reveal_strlit(". ");
    assert(text::trim_start(s) == s);
    crate::laws::lemma_trim_end(s);
    assert(text::trim(s).len() > 0 ==> text::trim(s)[0] == s[0]);
    if document::fence_of(s) is Some {
        assert(s.subrange(0, 3)[0] == s[0]);
    }
    if text::starts_with(s, "- "@) || text::starts_with(s, "* "@) {
        assert(s.subrange(0, 2)[0] == s[0]);
    }
    if let Some(k) = text::find(s, ". "@, 0) {
        text::lemma_find(s, ". "@, 0);
        if k > 0 && text::all_digits(s.take(k)) {
            assert(text::digit(s.take(k)[0]));
        }
    }
}

/// `[text](url)` becomes `<url|text>`.
#[verifier::rlimit(30)]
pub proof fn law_link(t: Seq<char>, u: Seq<char>)
    requires
        plain_text(t),
        address(u),
    ensures
        document::mrkdwn(seq!['['] + t + seq![']', '('] + u + seq![')']) == slack_link(u, t),
{
    let s = seq!['['] + t + seq![']', '('] + u + seq![')'];
    let b = 1 + t.len() as int;
    let p = b + 2 + u.len();
    reveal_strlit("http://");
    reveal_strlit("https://");
    reveal_strlit("```");
    reveal_strlit("~~~");
    assert(s[b] == ']' && s[b + 1] == '(' && s[p] == ')');
    assert forall|k: int| 1 <= k < b implies #[trigger] s[k] != ']' && s[k] != '\n' by {
        assert(s[k] == t[k - 1]);
        assert(plain_char(t[k - 1]));
    }
    assert forall|k: int| b + 2 <= k < p implies #[trigger] s[k] != ')' && s[k] != '\n' by {
        assert(s[k] == u[k - b - 2]);
        assert(address_char(u[k - b - 2]));
    }
    lemma_finds(s, ']', 1, b);
    lemma_finds(s, ')', b + 2, p);
    lemma_no_marker(s, 0, seq!['*', '*', '*']);
    lemma_no_marker(s, 0, seq!['*', '*']);
    lemma_no_marker(s, 0, seq!['*']);
    lemma_no_marker(s, 0, seq!['_', '_']);
    lemma_no_marker(s, 0, seq!['~', '~']);
    assert(s.subrange(b + 2, p) == u);
    assert(s.subrange(1, b) == t);
    assert(address_char(u[0]) && address_char(u.last()));
    lemma_trim_keeps(u);
    assert(spans::link_url(u) == u);
    lemma_last_step(s);
    assert(plain_char(t[0]));
    assert(s[1] == t[0]);
    lemma_marked_line(s, 1);
    assert(s.subrange(0, 3)[0] == s[0]);
    lemma_link_kept(u, t);
    lemma_one_line(s, slack_link(u, t), slack_link(u, t));
}

/// `<url|text>` passes unchanged.
pub proof fn law_slack_link_is_kept(t: Seq<char>, u: Seq<char>)
    requires
        plain_text(t),
        address(u),
        forall|i: int| 0 <= i < u.len() ==> plain_char(#[trigger] u[i]),
    ensures
        document::mrkdwn(slack_link(u, t)) == slack_link(u, t),
{
    let s = slack_link(u, t);
    let a = u.len() as int;
    reveal_strlit("http://");
    reveal_strlit("https://");
    assert forall|k: int| 0 <= k < s.len() implies quiet_char(#[trigger] s[k]) by {
        if 1 <= k < 1 + a {
            assert(s[k] == u[k - 1]);
            assert(plain_char(u[k - 1]));
        } else if 2 + a <= k < 2 + a + t.len() {
            assert(s[k] == t[k - 2 - a]);
            assert(plain_char(t[k - 2 - a]));
        }
    }
    lemma_quiet(s, 0);
    assert(s.skip(0) == s);
    assert(s[1] == u[0]);
    assert(address_char(u[0]));
    lemma_marked_line(s, 1);
    lemma_link_kept(u, t);
    lemma_one_line(s, s, s);
}

/// The character begins no inline construct of Markdown.
pub open spec fn quiet_char(c: char) -> bool {
    c != '\\' && c != '`' && c != '*' && c != '_' && c != '~' && c != '[' && c != '\n'
}

/// A line without characters that begin inline constructs is kept.
proof fn lemma_quiet(s: Seq<char>, i: int)
    requires
        0 <= i <= s.len(),
        forall|k: int| i <= k < s.len() ==> quiet_char(#[trigger] s[k]),
    ensures
        spans::inline_from(s, i) == s.skip(i),
    decreases s.len() - i,
{
    if i < s.len() {
        lemma_quiet(s, i + 1);
        lemma_quiet_step(s, i);
        assert(seq![s[i]] + s.skip(i + 1) == s.skip(i));
    }
}

/// Where no construct begins, a character is kept.
proof fn lemma_quiet_step(s: Seq<char>, i: int)
    requires
        0 <= i < s.len(),
        quiet_char(s[i]),
        i + 1 < s.len() ==> quiet_char(s[i + 1]),
    ensures
        spans::inline_step(s, i) == (seq![s[i]], i + 1),
{
    lemma_no_marker(s, i, seq!['*', '*', '*']);
    lemma_no_marker(s, i, seq!['*', '*']);
    lemma_no_marker(s, i, seq!['*']);
    lemma_no_marker(s, i, seq!['_', '_']);
    lemma_no_marker(s, i, seq!['~', '~']);
}

/// A marker does not stand where another character does.
pub proof fn lemma_no_marker(s: Seq<char>, i: int, m: Seq<char>)
    requires
        0 <= i < s.len(),
        m.len() > 0,
        s[i] != m[0],
    ensures
        !text::occurs_at(s, i, m),
        spans::span_end(s, m, i) is None,
{
    if text::occurs_at(s, i, m) {
        assert(s.subrange(i, i + m.len())[0] == m[0]);
    }
}

/// `- text` and `* text` become a bullet and the text, unless the line is a
/// rule.
pub proof fn law_bullet(mark: char, t: Seq<char>)
    requires
        mark == '-' || mark == '*',
        plain_text(t),
        !lines::horizontal_rule(seq![mark, ' '] + t),
    ensures
        document::mrkdwn(seq![mark, ' '] + t) == "• "@ + t,
{
    let s = seq![mark, ' '] + t;
    let out = "• "@ + t;
    reveal_strlit("• ");
    reveal_strlit("- ");
    reveal_strlit("* ");
    reveal_strlit("```");
    reveal_strlit("~~~");
    assert forall|k: int| 1 <= k < s.len() implies quiet_char(#[trigger] s[k]) by {
        if k >= 2 {
            assert(s[k] == t[k - 2]);
            assert(plain_char(t[k - 2]));
        }
    }
    lemma_quiet(s, 1);
    lemma_bullet_step(s);
    assert(seq![s[0]] + s.skip(1) == s);
    assert(text::trim_start(s) == s);
    assert(s.subrange(0, 2) == seq![mark, ' ']);
    assert("- "@ == seq!['-', ' '] && "* "@ == seq!['*', ' ']);
    assert(s.take(0) + "• "@ + s.skip(2) == out);
    if document::fence_of(s) is Some {
        assert(s.subrange(0, 3)[0] == s[0]);
    }
    lemma_item_kept("• "@, t);
    lemma_one_line(s, out, out);
}

/// The mark of a list item is kept by itself.
proof fn lemma_bullet_step(s: Seq<char>)
    requires
        s.len() > 1,
        s[0] == '-' || s[0] == '*',
        s[1] == ' ',
    ensures
        spans::inline_step(s, 0) == (seq![s[0]], 1int),
{
    if s[0] == '*' {
        if text::occurs_at(s, 0, seq!['*', '*', '*']) {
            assert(s.subrange(0, 3)[1] == '*');
        }
        if text::occurs_at(s, 0, seq!['*', '*']) {
            assert(s.subrange(0, 2)[1] == '*');
        }
        lemma_no_marker(s, 0, seq!['_', '_']);
        lemma_no_marker(s, 0, seq!['~', '~']);
    } else {
        lemma_quiet_step(s, 0);
    }
}

/// The later passes keep a prefix without markup before plain text.
proof fn lemma_item_kept(head: Seq<char>, t: Seq<char>)
    requires
        plain_text(t),
        head.len() > 0,
        !text::white_space(head[0]),
        forall|k: int|
            0 <= k < head.len() ==> plain_char(#[trigger] head[k]) && address_free(head[k]),
    ensures
        urls::wrap_line(head + t) == head + t,
        entities::escape_line(head + t) == head + t,
        !(head + t).contains('\n'),
        !tables::table_row(head + t),
        document::fence_of(head + t) is None,
{
    let out = head + t;
    let n = head.len() as int;
    reveal_strlit("```");
    reveal_strlit("~~~");
    assert forall|k: int| 0 <= k < out.len() implies plain_char(#[trigger] out[k]) by {
        if k < n {
            assert(out[k] == head[k]);
        } else {
            assert(out[k] == t[k - n]);
            assert(plain_char(t[k - n]));
        }
    }
    lemma_no_address(head, t, Seq::empty());
    assert(head + t + Seq::<char>::empty() == out);
    lemma_harmless(out, 0);
    assert(out.skip(0) == out);
    assert(plain_char(out[0]));
    assert(text::trim_start(out) == out);
    crate::laws::lemma_trim_end(out);
    assert(text::trim(out).len() > 0 ==> text::trim(out)[0] == out[0]);
    if document::fence_of(out) is Some {
        assert(out.subrange(0, 3)[0] == out[0]);
    }
}

/// `1. text` becomes `1.  text`: the number is kept, with two spaces after its
/// dot.
#[verifier::rlimit(30)]
pub proof fn law_ordered_item(number: Seq<char>, t: Seq<char>)
    requires
        number.len() > 0,
        text::all_digits(number),
        plain_text(t),
    ensures
        document::mrkdwn(number + ". "@ + t) == number + ".  "@ + t,
{
    let s = number + ". "@ + t;
    let out = number + ".  "@ + t;
    let n = number.len() as int;
    reveal_strlit(". ");
    reveal_strlit(".  ");
    reveal_strlit("- ");
    reveal_strlit("* ");
    reveal_strlit("```");
    reveal_strlit("~~~");
    assert forall|k: int| 0 <= k < s.len() implies quiet_char(#[trigger] s[k]) by {
        if k < n {
            assert(s[k] == number[k]);
            assert(text::digit(number[k]));
        } else if k >= n + 2 {
            assert(s[k] == t[k - n - 2]);
            assert(plain_char(t[k - n - 2]));
        }
    }
    lemma_quiet(s, 0);
    assert(s.skip(0) == s);
    assert(text::digit(number[0]));
    assert(s[0] == number[0]);
    assert(s[n] == '.');
    lemma_marked_line(s, n);
    if document::fence_of(s) is Some {
        assert(s.subrange(0, 3)[0] == s[0]);
    }
    if text::starts_with(s, "- "@) || text::starts_with(s, "* "@) {
        assert(s.subrange(0, 2)[0] == s[0]);
    }
    // The dot after the number is the first one.
    assert(s.subrange(n, n + 2) == ". "@);
    lemma_first_dot(s, 0, n);
    assert(s.take(n) == number);
    assert(s.skip(n + 2) == t);
    assert(s.take(0) + number + ".  "@ + t == out);
    let head = number + ".  "@;
    assert forall|k: int| 0 <= k < head.len() implies plain_char(#[trigger] head[k])
        && address_free(head[k]) by {
        if k < n {
            assert(text::digit(number[k]));
            assert(head[k] == number[k]);
        }
    }
    assert(head[0] == number[0]);
    lemma_item_kept(head, t);
    lemma_one_line(s, out, out);
}

/// The dot and space behind digits is the first one.
proof fn lemma_first_dot(s: Seq<char>, i: int, n: int)
    requires
        0 <= i <= n,
        n + 2 <= s.len(),
        forall|k: int| i <= k < n ==> text::digit(#[trigger] s[k]),
        text::occurs_at(s, n, ". "@),
    ensures
        text::find(s, ". "@, i) == Some(n),
    decreases n - i,
{
    reveal_strlit(". ");
    if i < n {
        if text::occurs_at(s, i, ". "@) {
            assert(s.subrange(i, i + 2)[0] == '.');
            assert(text::digit(s[i]));
        }
        lemma_first_dot(s, i + 1, n);
    }
}

/// A header becomes a bold line of its own. The first two levels are written in
/// upper case, deeper ones keep their case.
pub proof fn law_header(level: nat, t: Seq<char>)
    requires
        level > 0,
        plain_text(t),
    ensures
        ({
            let line = hash_marks(level) + seq![' '] + t;
            &&& level <= 2 ==> document::plain_line(line) == seq!['*'] + outside::uppercase(t)
                + seq!['*']
            &&& level > 2 ==> document::mrkdwn(line) == seq!['*'] + t + seq!['*']
        }),
{
    let h = hash_marks(level);
    let line = h + seq![' '] + t;
    let n = level as int;
    reveal_strlit("**");
    reveal_strlit("__");
    reveal_strlit("```");
    reveal_strlit("~~~");
    lemma_hashes(line, 0, n);
    assert(line.skip(0) == line);
    assert(line[0] == h[0]);
    assert(plain_char(t[0]));
    assert(line[n + 1] == t[0]);
    lemma_not_a_rule(line, n + 1);
    let rest = line.skip(n);
    assert(rest == seq![' '] + t);
    assert(text::trim_start(rest) == t) by {
        assert(rest.skip(1) == t);
        assert(text::trim_start(t) == t);
    }
    lemma_trim_keeps(t);
    lemma_no_pairs(t, "**"@);
    lemma_no_pairs(t, "__"@);
    lemma_plain_title(t);
    if level > 2 {
        let out = between(seq!['*'], t, seq!['*']);
        if document::fence_of(line) is Some {
            assert(line.subrange(0, 3)[0] == line[0]);
        }
        assert forall|k: int| 0 <= k < line.len() implies #[trigger] line[k] != '\n' by {
            if k < n {
                assert(line[k] == h[k]);
            } else if k > n {
                assert(line[k] == t[k - n - 1]);
                assert(plain_char(t[k - n - 1]));
            }
        }
        lemma_starred_kept(t);
        lemma_one_line(line, out, out);
    }
}

/// A number of `#`.
pub open spec fn hash_marks(level: nat) -> Seq<char> {
    Seq::new(level, |i: int| '#')
}

/// The marks of a header are counted up to its first space.
pub proof fn lemma_hashes(line: Seq<char>, i: int, n: int)
    requires
        0 <= i <= n < line.len(),
        forall|k: int| i <= k < n ==> #[trigger] line[k] == '#',
        line[n] == ' ',
    ensures
        document::hashes(line.skip(i)) == n - i,
    decreases n - i,
{
    if i < n {
        assert(line.skip(i)[0] == line[i]);
        assert(line.skip(i).skip(1) == line.skip(i + 1));
        lemma_hashes(line, i + 1, n);
    } else {
        assert(line.skip(i)[0] == line[n]);
    }
}

/// A line with two different solid characters is no rule.
pub proof fn lemma_not_a_rule(line: Seq<char>, k: int)
    requires
        0 < k < line.len(),
        !text::white_space(line[0]),
        !text::white_space(line[k]),
        line[k] != line[0],
    ensures
        text::trim_start(line) == line,
        !lines::horizontal_rule(line),
{
    let solid = |c: char| c != ' ';
    let t = lines::without_spaces(line);
    assert(line[0] != ' ' && line[k] != ' ');
    line.lemma_filter_contains(solid, 0);
    line.lemma_filter_contains(solid, k);
    let i = choose|i: int| 0 <= i < t.len() && t[i] == line[0];
    let j = choose|j: int| 0 <= j < t.len() && t[j] == line[k];
    if lines::horizontal_rule(line) {
        assert(t[i] == t[0] && t[j] == t[0]);
    }
}

/// A text without a marker has no pairs of it to cut.
pub proof fn lemma_no_pairs(t: Seq<char>, m: Seq<char>)
    requires
        m == "**"@ || m == "__"@,
        forall|k: int| 0 <= k < t.len() ==> plain_char(#[trigger] t[k]),
    ensures
        lines::without_pairs(t, m) == t,
{
    reveal_strlit("**");
    reveal_strlit("__");
    lines::lemma_first_outside(t, m, 0);
    if let Some(k) = lines::first_outside(t, m, 0) {
        assert(t.subrange(k, k + 2)[0] == m[0]);
        assert(plain_char(t[k]));
    }
}

/// A title without inline code has one part.
pub proof fn lemma_plain_title(t: Seq<char>)
    requires
        plain_text(t),
    ensures
        document::title_parts(t, 0) == seq![Piece { chars: t, code: false }],
        document::spelled(document::title_parts(t, 0), seq![t]) == t,
        document::header_line(1, t) == seq!['*'] + outside::uppercase(t) + seq!['*'],
        document::chars_in(document::title_parts(t, 0)) == seq![t],
        document::upper_forms(document::title_parts(t, 0)) == seq![outside::uppercase(t)],
        document::spelled(document::title_parts(t, 0), seq![outside::uppercase(t)])
            == outside::uppercase(t),
{
    lemma_text_runs(t, 0);
    let n = t.len() as int;
    assert(plain_char(t[0]));
    assert(t.subrange(0, n) == t);
    assert(document::title_parts(t, n) == Seq::<Piece>::empty());
    let parts = document::title_parts(t, 0);
    assert(parts == seq![Piece { chars: t, code: false }]);
    assert(parts.drop_last() == Seq::<Piece>::empty());
    assert(document::chars_in(parts) == seq![t]);
    assert(document::upper_forms(parts) == seq![outside::uppercase(t)]);
    reveal_with_fuel(document::spelled, 2);
    assert(document::spelled(parts, seq![t]) == t);
    assert(document::spelled(parts, seq![outside::uppercase(t)]) == outside::uppercase(t));
}

/// Plain text runs to the end of a title.
proof fn lemma_text_runs(t: Seq<char>, i: int)
    requires
        0 <= i <= t.len(),
        forall|k: int| 0 <= k < t.len() ==> plain_char(#[trigger] t[k]),
    ensures
        document::text_end(t, i) == t.len(),
    decreases t.len() - i,
{
    if i < t.len() {
        assert(plain_char(t[i]));
        lemma_text_runs(t, i + 1);
    }
}

/// The later passes keep plain text in asterisks.
proof fn lemma_starred_kept(t: Seq<char>)
    requires
        plain_text(t),
    ensures
        ({
            let out = between(seq!['*'], t, seq!['*']);
            &&& urls::wrap_line(out) == out
            &&& entities::escape_line(out) == out
            &&& !out.contains('\n')
            &&& !tables::table_row(out)
            &&& document::fence_of(out) is None
        }),
{
    let out = between(seq!['*'], t, seq!['*']);
    reveal_strlit("```");
    reveal_strlit("~~~");
    assert forall|k: int| 0 <= k < out.len() implies #[trigger] out[k] != '\n' && out[k] != '`'
        && out[k] != '&' && out[k] != '<' && out[k] != '>' by {
        if 1 <= k < 1 + t.len() {
            assert(plain_char(t[k - 1]));
            assert(out[k] == t[k - 1]);
        }
    }
    lemma_no_address(seq!['*'], t, seq!['*']);
    lemma_harmless(out, 0);
    assert(out.skip(0) == out);
    assert(out[0] == '*');
    assert(text::trim_start(out) == out);
    crate::laws::lemma_trim_end(out);
    assert(text::trim(out).len() > 0 ==> text::trim(out)[0] == out[0]);
    if document::fence_of(out) is Some {
        assert(out.subrange(0, 3)[0] == out[0]);
    }
}

/// A horizontal rule becomes a line of box-drawing characters.
pub proof fn law_rule(line: Seq<char>)
    requires
        !line.contains('\n'),
        lines::horizontal_rule(text::trim_start(line)),
    ensures
        document::mrkdwn(line) == "───────────────────────"@,
{
    let out = "───────────────────────"@;
    reveal_strlit("───────────────────────");
    reveal_strlit("```");
    reveal_strlit("~~~");
    reveal_strlit("http://");
    reveal_strlit("https://");
    let t = text::trim_start(line);
    crate::laws::lemma_trim_start(line);
    t.lemma_filter_len(|c: char| c != ' ');
    assert(t.len() >= 3);
    assert(t[0] != ' ');
    t.lemma_filter_contains(|c: char| c != ' ', 0);
    let solid = lines::without_spaces(t);
    let j = choose|j: int| 0 <= j < solid.len() && solid[j] == t[0];
    assert(solid[j] == solid[0]);
    if document::fence_of(line) is Some {
        assert(t.subrange(0, 3)[0] == t[0]);
    }
    assert forall|i: int| #[trigger] no_address_at(out, i) by {
        if text::occurs_at(out, i, "http://"@) {
            assert(out.subrange(i, i + 7)[0] == 'h');
            assert(out[i] == 'h');
        }
        if text::occurs_at(out, i, "https://"@) {
            assert(out.subrange(i, i + 8)[0] == 'h');
            assert(out[i] == 'h');
        }
    }
    lemma_harmless(out, 0);
    assert(out.skip(0) == out);
    assert(text::trim_start(out) == out);
    crate::laws::lemma_trim_end(out);
    assert(text::trim(out).len() > 0 ==> text::trim(out)[0] == out[0]);
    if document::fence_of(out) is Some {
        assert(out.subrange(0, 3)[0] == out[0]);
    }
    lemma_one_line(line, out, out);
}

/// Up to the first web address and control character a line is kept.
proof fn lemma_kept_before(s: Seq<char>, i: int, n: int)
    requires
        0 <= i <= n <= s.len(),
        forall|k: int|
            i <= k < n ==> #[trigger] s[k] != '`' && s[k] != '&' && s[k] != '<' && s[k] != '>',
        forall|k: int| i <= k < n ==> #[trigger] no_address_at(s, k),
        no_address_at(s, n) || n > 0 && !urls::quotation_mark(s[n - 1]),
    ensures
        urls::wrap_from(s, i) == s.subrange(i, n) + urls::wrap_from(s, n),
    decreases n - i,
{
    if i < n {
        lemma_kept_before(s, i + 1, n);
        assert(no_address_at(s, i));
        if i + 1 < n {
            assert(no_address_at(s, i + 1));
        }
        assert(s.subrange(i, n) == seq![s[i]] + s.subrange(i + 1, n));
        assert(urls::wrap_from(s, i) == s.subrange(i, n) + urls::wrap_from(s, n));
    } else {
        assert(s.subrange(i, n) == Seq::<char>::empty());
        assert(urls::wrap_from(s, i) == s.subrange(i, n) + urls::wrap_from(s, n));
    }
}

/// Up to the first control character a line is kept.
pub proof fn lemma_escape_before(s: Seq<char>, i: int, n: int)
    requires
        0 <= i <= n <= s.len(),
        forall|k: int|
            i <= k < n ==> #[trigger] s[k] != '`' && s[k] != '&' && s[k] != '<' && s[k] != '>',
    ensures
        entities::escape_from(s, i) == s.subrange(i, n) + entities::escape_from(s, n),
    decreases n - i,
{
    if i < n {
        lemma_escape_before(s, i + 1, n);
        assert(s.subrange(i, n) == seq![s[i]] + s.subrange(i + 1, n));
        assert(entities::escape_from(s, i) == s.subrange(i, n) + entities::escape_from(s, n));
    } else {
        assert(s.subrange(i, n) == Seq::<char>::empty());
        assert(entities::escape_from(s, i) == s.subrange(i, n) + entities::escape_from(s, n));
    }
}

/// The end of a web address that a space ends.
proof fn lemma_address_end(s: Seq<char>, i: int, e: int)
    requires
        0 <= i <= e < s.len(),
        s[e] == ' ',
        forall|k: int| i <= k < e ==> address_char(#[trigger] s[k]),
    ensures
        urls::url_end(s, None, i) == e,
    decreases e - i,
{
    if i < e {
        assert(address_char(s[i]));
        lemma_address_end(s, i + 1, e);
    }
}

/// The line with a web address between two texts.
pub open spec fn address_line(a: Seq<char>, u: Seq<char>, b: Seq<char>) -> Seq<char> {
    a + seq![' '] + u + seq![' '] + b
}

/// The line with a wrapped web address between two texts.
pub open spec fn wrapped_line(a: Seq<char>, u: Seq<char>, b: Seq<char>) -> Seq<char> {
    a + seq![' ', '<'] + u + seq!['>', ' '] + b
}

/// In a line with a web address between two texts, none begins in the texts.
proof fn lemma_only_address(a: Seq<char>, u: Seq<char>, b: Seq<char>, k: int)
    requires
        plain_text(a),
        plain_text(b),
        0 <= k <= a.len() || a.len() + 1 + u.len() <= k,
    ensures
        no_address_at(address_line(a, u, b), k),
{
    let s = address_line(a, u, b);
    reveal_strlit("http://");
    reveal_strlit("https://");
    if text::occurs_at(s, k, "http://"@) {
        lemma_address_apart(a, u, b, k, "http://"@);
    }
    if text::occurs_at(s, k, "https://"@) {
        lemma_address_apart(a, u, b, k, "https://"@);
    }
}

/// A prefix of a web address does not begin in the texts around an address.
proof fn lemma_address_apart(a: Seq<char>, u: Seq<char>, b: Seq<char>, k: int, p: Seq<char>)
    requires
        plain_text(a),
        plain_text(b),
        p == "http://"@ || p == "https://"@,
        text::occurs_at(address_line(a, u, b), k, p),
    ensures
        a.len() < k < a.len() + 1 + u.len(),
{
    let s = address_line(a, u, b);
    let n = a.len() as int;
    let m = n + 1 + u.len();
    let w = p.len() as int;
    reveal_strlit("http://");
    reveal_strlit("https://");
    let sub = s.subrange(k, k + w);
    assert(forall|j: int| 0 <= j < w ==> !address_free(#[trigger] sub[j]));
    assert(s[n] == ' ' && s[m] == ' ');
    if k <= n < k + w {
        assert(sub[n - k] == ' ');
    }
    if k == m {
        assert(sub[0] == ' ');
    }
    if k + w <= n {
        assert(a.subrange(k, k + w) == sub);
        assert(no_address_at(a, k));
    } else if m < k {
        assert(b.subrange(k - m - 1, k - m - 1 + w) == sub);
        assert(no_address_at(b, k - m - 1));
    }
}

/// A bare web address between plain texts is put in angle brackets, unless the
/// line is an item of a list.
#[verifier::rlimit(30)]
pub proof fn law_bare_address(a: Seq<char>, u: Seq<char>, b: Seq<char>)
    requires
        plain_text(a),
        plain_text(b),
        address(u),
        forall|i: int| 0 <= i < u.len() ==> plain_char(#[trigger] u[i]),
        !laws::list_line(address_line(a, u, b)),
    ensures
        document::mrkdwn(address_line(a, u, b)) == wrapped_line(a, u, b),
{
    let s = address_line(a, u, b);
    let out = wrapped_line(a, u, b);
    let n = a.len() as int;
    let m = n + 1 + u.len();
    reveal_strlit("http://");
    reveal_strlit("https://");
    reveal_strlit("```");
    reveal_strlit("~~~");
    assert forall|k: int| 0 <= k < s.len() implies quiet_char(#[trigger] s[k]) && s[k] != '&'
        && s[k] != '<' && s[k] != '>' by {
        if k < n {
            assert(plain_char(a[k]));
        } else if n < k < m {
            assert(plain_char(u[k - n - 1]));
        } else if m < k {
            assert(plain_char(b[k - m - 1]));
        }
    }
    // The line by itself is kept.
    lemma_quiet(s, 0);
    assert(s.skip(0) == s);
    assert(plain_char(a[0]));
    assert(s[0] == a[0]);
    assert(text::trim_start(s) == s);
    let at = n + 1 + if text::starts_with(u, "http://"@) {
        4int
    } else {
        5int
    };
    if text::starts_with(u, "http://"@) {
        assert(u.subrange(0, 7)[4] == ':' && u.subrange(0, 7)[0] == 'h');
    } else {
        assert(u.subrange(0, 8)[5] == ':' && u.subrange(0, 8)[0] == 'h');
    }
    assert(s[at] == ':' && s[n + 1] == 'h');
    lemma_not_a_rule_with(s, n + 1);
    assert(document::hashes(s) == 0);
    assert(document::plain_line(s) == s);
    if document::fence_of(s) is Some {
        assert(s.subrange(0, 3)[0] == s[0]);
    }
    assert(text::trim(s).len() > 0 ==> text::trim(s)[0] == s[0]) by {
        crate::laws::lemma_trim_end(s);
    }
    assert(out[0] == a[0]);
    assert(text::trim_start(out) == out);
    if document::fence_of(out) is Some {
        assert(out.subrange(0, 3)[0] == out[0]);
    }
    lemma_wrapped(a, u, b);
    lemma_wrapped_kept(a, u, b);
    lemma_one_line(s, s, out);
}

/// A line with a letter is no rule.
proof fn lemma_not_a_rule_with(s: Seq<char>, k: int)
    requires
        0 <= k < s.len(),
        s[k] == 'h',
    ensures
        !lines::horizontal_rule(s),
{
    let solid = |c: char| c != ' ';
    let t = lines::without_spaces(s);
    s.lemma_filter_contains(solid, k);
    let j = choose|j: int| 0 <= j < t.len() && t[j] == 'h';
    if lines::horizontal_rule(s) {
        assert(t[j] == t[0]);
    }
}

/// What the pass on web addresses makes of a line with one of them.
#[verifier::rlimit(30)]
proof fn lemma_wrapped(a: Seq<char>, u: Seq<char>, b: Seq<char>)
    requires
        plain_text(a),
        plain_text(b),
        address(u),
        forall|i: int| 0 <= i < u.len() ==> plain_char(#[trigger] u[i]),
    ensures
        urls::wrap_line(address_line(a, u, b)) == wrapped_line(a, u, b),
{
    let s = address_line(a, u, b);
    let out = wrapped_line(a, u, b);
    let n = a.len() as int;
    let m = n + 1 + u.len();
    let len = s.len() as int;
    reveal_strlit("http://");
    reveal_strlit("https://");
    assert forall|k: int| 0 <= k < len implies #[trigger] s[k] != '`' && s[k] != '&' && s[k] != '<'
        && s[k] != '>' by {
        if k < n {
            assert(plain_char(a[k]));
        } else if n < k < m {
            assert(plain_char(u[k - n - 1]));
        } else if m < k {
            assert(plain_char(b[k - m - 1]));
        }
    }
    assert forall|k: int| 0 <= k < n + 1 implies #[trigger] no_address_at(s, k) by {
        lemma_only_address(a, u, b, k);
    }
    assert forall|k: int| m <= k < len implies #[trigger] no_address_at(s, k) by {
        lemma_only_address(a, u, b, k);
    }
    lemma_kept_before(s, 0, n + 1);
    assert(s.subrange(0, n + 1) == a + seq![' ']);
    if text::starts_with(u, "http://"@) {
        assert(s.subrange(n + 1, n + 8) == u.subrange(0, 7));
    } else {
        assert(s.subrange(n + 1, n + 9) == u.subrange(0, 8));
    }
    assert(urls::address_at(s, n + 1));
    assert forall|k: int| n + 1 <= k < m implies address_char(#[trigger] s[k]) by {
        assert(address_char(u[k - n - 1]));
    }
    assert(s[m] == ' ');
    lemma_address_end(s, n + 1, m);
    assert(s.subrange(n + 1, m) == u);
    lemma_kept_before(s, m, len);
    assert(s.subrange(m, len) == seq![' '] + b);
    assert(urls::wrap_from(s, len) == Seq::<char>::empty());
    assert(urls::wrap_step(s, n + 1) == (seq!['<'] + u + seq!['>'], m));
    assert(urls::wrap_line(s) == out);
}

/// The pass on control characters keeps a wrapped web address.
#[verifier::rlimit(30)]
proof fn lemma_wrapped_kept(a: Seq<char>, u: Seq<char>, b: Seq<char>)
    requires
        plain_text(a),
        plain_text(b),
        address(u),
        forall|i: int| 0 <= i < u.len() ==> plain_char(#[trigger] u[i]),
    ensures
        entities::escape_line(wrapped_line(a, u, b)) == wrapped_line(a, u, b),
{
    let out = wrapped_line(a, u, b);
    let n = a.len() as int;
    reveal_strlit("http://");
    reveal_strlit("https://");
    assert forall|k: int|
        0 <= k < out.len() && k != n + 1 && k != n + 2 + u.len() implies #[trigger] out[k] != '`'
        && out[k] != '&' && out[k] != '<' && out[k] != '>' by {
        if k < n {
            assert(plain_char(a[k]));
        } else if n + 1 < k < n + 2 + u.len() {
            assert(plain_char(u[k - n - 2]));
        } else if n + 3 + u.len() < k {
            assert(plain_char(b[k - n - 4 - u.len()]));
        }
    }
    let close = n + 2 + u.len();
    assert(out[n + 1] == '<' && out[close] == '>');
    lemma_escape_before(out, 0, n + 1);
    if text::starts_with(u, "http://"@) {
        assert(out.subrange(n + 2, n + 9) == u.subrange(0, 7));
    } else {
        assert(out.subrange(n + 2, n + 10) == u.subrange(0, 8));
    }
    assert(brackets::slack_syntax_at(out, n + 2));
    let len = out.len() as int;
    assert(out.subrange(close, close + 1) == seq!['>']);
    lemma_closes(out, seq!['>'], n + 2, close);
    assert(brackets::bracket_end(out, n + 1) == Some(close + 1));
    lemma_escape_before(out, close + 1, len);
    assert(entities::escape_from(out, len) == Seq::<char>::empty());
    assert(out.subrange(0, n + 1) + (out.subrange(n + 1, close + 1) + (out.subrange(close + 1, len)
        + Seq::<char>::empty())) == out);
    assert(entities::escape_line(out) == out);
}

/// The address `<url>`.
pub open spec fn slack_address(u: Seq<char>) -> Seq<char> {
    seq!['<'] + u + seq!['>']
}

/// The later passes keep an address in Slack's brackets.
proof fn lemma_address_kept(u: Seq<char>)
    requires
        address(u),
    ensures
        urls::wrap_line(slack_address(u)) == slack_address(u),
        entities::escape_line(slack_address(u)) == slack_address(u),
        !slack_address(u).contains('\n'),
{
    let out = slack_address(u);
    let a = u.len() as int;
    reveal_strlit("http://");
    reveal_strlit("https://");
    assert(u.len() >= 7);
    assert forall|k: int| 0 <= k < out.len() implies #[trigger] out[k] != '`' && out[k] != '\n'
        && (0 < k < out.len() - 1 ==> out[k] != '>') by {
        if 1 <= k < 1 + a {
            assert(out[k] == u[k - 1]);
            assert(address_char(u[k - 1]));
        }
    }
    if text::starts_with(u, "http://"@) {
        assert(out.subrange(1, 8) == u.subrange(0, 7));
    } else {
        assert(out.subrange(1, 9) == u.subrange(0, 8));
    }
    assert(brackets::slack_syntax_at(out, 1));
    lemma_bracket_kept(out);
}

/// The line of an image.
pub open spec fn image_line(t: Seq<char>, u: Seq<char>) -> Seq<char> {
    seq!['!', '['] + t + seq![']', '('] + u + seq![')']
}

/// `![text](url)` becomes `<url>`.
#[verifier::rlimit(30)]
pub proof fn law_image(t: Seq<char>, u: Seq<char>)
    requires
        plain_text(t),
        address(u),
    ensures
        document::mrkdwn(image_line(t, u)) == slack_address(u),
{
    let s = image_line(t, u);
    let b = 2 + t.len() as int;
    let p = b + 2 + u.len();
    reveal_strlit("http://");
    reveal_strlit("https://");
    reveal_strlit("```");
    reveal_strlit("~~~");
    assert(s[1] == '[' && s[b] == ']' && s[b + 1] == '(' && s[p] == ')');
    assert forall|k: int| 2 <= k < b implies #[trigger] s[k] != ']' && s[k] != '\n' by {
        assert(s[k] == t[k - 2]);
        assert(plain_char(t[k - 2]));
    }
    assert forall|k: int| b + 2 <= k < p implies #[trigger] s[k] != ')' && s[k] != '\n' by {
        assert(s[k] == u[k - b - 2]);
        assert(address_char(u[k - b - 2]));
    }
    lemma_finds(s, ']', 2, b);
    lemma_finds(s, ')', b + 2, p);
    lemma_no_marker(s, 0, seq!['*', '*', '*']);
    lemma_no_marker(s, 0, seq!['*', '*']);
    lemma_no_marker(s, 0, seq!['*']);
    lemma_no_marker(s, 0, seq!['_', '_']);
    lemma_no_marker(s, 0, seq!['~', '~']);
    assert(s.subrange(b + 2, p) == u);
    assert(address_char(u[0]) && address_char(u.last()));
    lemma_trim_keeps(u);
    assert(spans::link_url(u) == u);
    lemma_last_step(s);
    lemma_marked_line(s, 1);
    assert(s.subrange(0, 3)[0] == s[0]);
    lemma_address_kept(u);
    lemma_bracket_line(slack_address(u));
    lemma_one_line(s, slack_address(u), slack_address(u));
}

} // verus!
