//! What holds of inline code: it is kept verbatim.

use vstd::prelude::*;
use crate::mrkdwn::brackets;
use crate::mrkdwn::document;
use crate::mrkdwn::document::Piece;
use crate::mrkdwn::entities;
use crate::mrkdwn::laws;
use crate::mrkdwn::lines;
use crate::mrkdwn::spans;
use crate::mrkdwn::tables;
use crate::mrkdwn::ticks;
use crate::mrkdwn::urls;
use crate::outside;
use crate::text;

verus! {

/// Slack's syntax in angle brackets is a part of a line.
proof fn lemma_bracket_break(s: Seq<char>, i: int)
    requires
        0 <= i < s.len(),
        brackets::bracket_end(s, i) is Some,
    ensures
        ticks::breaks(s, i, brackets::bracket_end(s, i)->0),
{
    brackets::lemma_bracket_end(s, i);
    let e = brackets::bracket_end(s, i)->0;
    ticks::lemma_char_break(s, i);
    ticks::lemma_closing_break(s, seq!['>'], i + 1);
    ticks::lemma_then(s, i, i + 1, e - 1);
    ticks::lemma_char_break(s, e - 1);
    ticks::lemma_then(s, i, e - 1, e);
}

/// A web address is a part of a line, and has no inline code.
pub proof fn lemma_url_break(s: Seq<char>, mark: Option<char>, i: int)
    requires
        0 <= i <= s.len(),
    ensures
        ticks::breaks(s, i, urls::url_end(s, mark, i)),
        ticks::inline_code(s.subrange(i, urls::url_end(s, mark, i))).len() == 0,
    decreases s.len() - i,
{
    urls::lemma_url_end(s, mark, i);
    let e = urls::url_end(s, mark, i);
    let x = s.subrange(i, e);
    if i == e {
        assert(x == Seq::<char>::empty());
        ticks::lemma_plain_break(s, i, i);
    } else if s[i] == '`' {
        ticks::lemma_ticks_break(s, i);
        let k = spans::ticks_end(s, i);
        lemma_url_break(s, mark, k);
        urls::lemma_url_end(s, mark, k);
        ticks::lemma_then(s, i, k, e);
        lemma_prefix_run(s, i, e);
        assert(x.skip(k - i) == s.subrange(k, e));
    } else {
        ticks::lemma_char_break(s, i);
        lemma_url_break(s, mark, i + 1);
        urls::lemma_url_end(s, mark, i + 1);
        ticks::lemma_then(s, i, i + 1, e);
        assert(x.skip(1) == s.subrange(i + 1, e));
    }
}

/// Wrapping web addresses keeps inline code.
#[verifier::rlimit(30)]
pub proof fn lemma_wrap_keeps_code(s: Seq<char>, i: int)
    requires
        0 <= i <= s.len(),
    ensures
        ticks::same_code(s.skip(i), urls::wrap_from(s, i)),
        ticks::tick_first(urls::wrap_from(s, i)) == ticks::tick_first(s.skip(i)),
    decreases s.len() - i,
{
    if i < s.len() {
        urls::lemma_wrap_step(s, i);
        let (out, e) = urls::wrap_step(s, i);
        let part = s.subrange(i, e);
        let none = Seq::<char>::empty();
        lemma_wrap_keeps_code(s, e);
        assert(s.skip(i)[0] == s[i]);
        if s[i] == '`' {
            ticks::lemma_ticks_break(s, i);
        } else if brackets::bracket_end(s, i) is Some {
            lemma_bracket_break(s, i);
            brackets::lemma_bracket_end(s, i);
        } else if urls::address_at(s, i) {
            lemma_url_break(s, None, i);
            ticks::lemma_new_ends(none, part, none, seq!['<'], part, seq!['>']);
            assert(none + part + none == part);
        } else if urls::quotation_mark(s[i]) && urls::address_at(s, i + 1) {
            let url = s.subrange(i + 1, e);
            let mark = seq![s[i]];
            ticks::lemma_char_break(s, i);
            lemma_url_break(s, Some(s[i]), i + 1);
            ticks::lemma_then(s, i, i + 1, e);
            ticks::lemma_new_ends(mark, url, none, seq![s[i], '<'], url, seq!['>']);
            assert(mark + url + none == part);
        } else {
            ticks::lemma_char_break(s, i);
            assert(part == out);
        }
        ticks::lemma_step_and_rest(s, i, e, out, urls::wrap_from(s, e));
    } else {
        assert(s.skip(i) == Seq::<char>::empty());
    }
}

/// Escaping control characters keeps inline code.
pub proof fn lemma_escape_keeps_code(s: Seq<char>, i: int)
    requires
        0 <= i <= s.len(),
    ensures
        ticks::same_code(s.skip(i), entities::escape_from(s, i)),
        ticks::tick_first(entities::escape_from(s, i)) == ticks::tick_first(s.skip(i)),
    decreases s.len() - i,
{
    if i < s.len() {
        entities::lemma_escape_step(s, i);
        let (out, e) = entities::escape_step(s, i);
        let part = s.subrange(i, e);
        lemma_escape_keeps_code(s, e);
        assert(s.skip(i)[0] == s[i]);
        if s[i] == '`' {
            ticks::lemma_ticks_break(s, i);
        } else if brackets::bracket_end(s, i) is Some {
            lemma_bracket_break(s, i);
            brackets::lemma_bracket_end(s, i);
        } else {
            reveal_strlit("&amp;");
            reveal_strlit("&lt;");
            reveal_strlit("&gt;");
            ticks::lemma_char_break(s, i);
            assert(part == seq![s[i]]);
            ticks::lemma_no_ticks(part);
            ticks::lemma_no_ticks(out);
        }
        ticks::lemma_step_and_rest(s, i, e, out, entities::escape_from(s, e));
    } else {
        assert(s.skip(i) == Seq::<char>::empty());
    }
}

/// A converted line keeps its inline code when web addresses are wrapped and
/// control characters are escaped.
pub proof fn law_later_passes_keep_inline_code(s: Seq<char>)
    ensures
        ticks::same_code(s, urls::wrap_line(s)),
        ticks::same_code(s, entities::escape_line(urls::wrap_line(s))),
{
    let t = urls::wrap_line(s);
    lemma_wrap_keeps_code(s, 0);
    assert(s.skip(0) == s);
    lemma_escape_keeps_code(t, 0);
    assert(t.skip(0) == t);
}

/// A span between two markers, as a step: what stands around the inside may
/// change.
proof fn lemma_span_step(
    s: Seq<char>,
    m: Seq<char>,
    i: int,
    before: Seq<char>,
    inside: Seq<char>,
    after: Seq<char>,
)
    requires
        0 <= i < s.len(),
        m.len() > 0,
        ticks::no_ticks(m),
        ticks::no_ticks(before),
        ticks::no_ticks(after),
        spans::span_end(s, m, i) is Some,
        ticks::same_code(s.subrange((i + m.len()) as int, spans::span_end(s, m, i)->0), inside),
    ensures
        ({
            let e = spans::span_end(s, m, i)->0 + m.len();
            &&& ticks::same_code(s.subrange(i, e), before + inside + after)
            &&& ticks::breaks(s, i, e)
        }),
{
    let a = (i + m.len()) as int;
    spans::lemma_closing(s, m, a);
    spans::lemma_span_end(s, m, i);
    let b = spans::span_end(s, m, i)->0;
    let e = b + m.len();
    let inner = s.subrange(a, b);
    assert(s.subrange(i, a) == m);
    assert(s.subrange(b, e) == m);
    ticks::lemma_plain_break(s, i, a);
    ticks::lemma_closing_break(s, m, a);
    ticks::lemma_then(s, i, a, b);
    ticks::lemma_plain_break(s, b, e);
    ticks::lemma_then(s, i, b, e);
    assert(s.subrange(i, e) == m + inner + m);
    ticks::lemma_new_ends(m, inner, m, before, inside, after);
}

/// Converting the inside of a bold span keeps inline code.
proof fn lemma_bold_keeps_code(s: Seq<char>, i: int)
    requires
        0 <= i <= s.len(),
    ensures
        ticks::same_code(s.skip(i), spans::bold_from(s, i)),
        ticks::tick_first(spans::bold_from(s, i)) == ticks::tick_first(s.skip(i)),
    decreases s.len() - i,
{
    if i < s.len() {
        spans::lemma_bold_step(s, i);
        let (out, e) = spans::bold_step(s, i);
        lemma_bold_keeps_code(s, e);
        assert(s.skip(i)[0] == s[i]);
        if s[i] == '`' {
            ticks::lemma_ticks_break(s, i);
        } else if spans::span_end(s, seq!['*'], i) is Some {
            let b = spans::span_end(s, seq!['*'], i)->0;
            lemma_span_step(s, seq!['*'], i, seq!['_'], s.subrange(i + 1, b), seq!['_']);
        } else {
            ticks::lemma_char_break(s, i);
            assert(s.subrange(i, e) == out);
        }
        ticks::lemma_step_and_rest(s, i, e, out, spans::bold_from(s, e));
    } else {
        assert(s.skip(i) == Seq::<char>::empty());
    }
}

/// What trimming leaves of a text without backticks has none.
proof fn lemma_plain_trim(s: Seq<char>)
    requires
        ticks::no_ticks(s),
    ensures
        ticks::no_ticks(text::trim_start(s)),
        ticks::no_ticks(text::trim_end(s)),
        ticks::no_ticks(text::trim(s)),
{
    crate::laws::lemma_trim_start(s);
    crate::laws::lemma_trim_end(s);
    crate::laws::lemma_trim_end(text::trim_start(s));
}

/// The last position of a character lies before the end of the search.
pub proof fn lemma_rfind_char(s: Seq<char>, c: char, upto: int)
    ensures
        text::rfind_char(s, c, upto) matches Some(k) ==> 0 <= k < upto <= s.len(),
    decreases upto,
{
    if 0 < upto {
        lemma_rfind_char(s, c, upto - 1);
    }
}

/// The destination of a link whose parentheses hold no backtick has none.
proof fn lemma_plain_url(raw: Seq<char>)
    requires
        ticks::no_ticks(raw),
    ensures
        ticks::no_ticks(spans::link_url(raw)),
{
    let t = text::trim(raw);
    lemma_plain_trim(raw);
    if t.len() > 0 && spans::title_opener(t.last()) is Some {
        let w = t.drop_last();
        let c = spans::title_opener(t.last())->0;
        lemma_rfind_char(w, c, w.len() as int);
        if let Some(k) = text::rfind_char(w, c, w.len() as int) {
            if k > 0 {
                assert(w.take(k - 1) == t.subrange(0, k - 1));
                ticks::lemma_plain_part(t, 0, k - 1);
                lemma_plain_trim(w.take(k - 1));
            }
        }
    }
}

/// The construct at `i` of a line takes no inline code in: a backslash stands
/// before no backtick, an image holds none, and the destination of a link holds
/// none.
pub open spec fn tame_construct(s: Seq<char>, i: int) -> bool {
    &&& spans::escape_at(s, i) ==> s[i + 1] != '`'
    &&& s[i] == '!' ==> (spans::link_at(s, i + 1) matches Some((_, p)) ==> ticks::no_ticks(
        s.subrange(i, p + 1),
    ))
    &&& spans::link_at(s, i) matches Some((b, p)) ==> ticks::no_ticks(s.subrange(b + 2, p))
}

/// What the construct at `i` of a line becomes does not lengthen a run of
/// backticks.
pub open spec fn tame_end(s: Seq<char>, i: int) -> bool {
    ticks::meets(
        spans::inline_step(s, i).0,
        spans::inline_from(s, spans::inline_step(s, i).1),
    )
}

/// Each construct of the line from `i` on leaves inline code alone.
pub open spec fn tame_from(s: Seq<char>, i: int) -> bool
    decreases s.len() - i,
{
    if i < 0 || i >= s.len() {
        true
    } else {
        proof {
            spans::lemma_inline_step(s, i);
        }
        &&& tame_construct(s, i)
        &&& tame_end(s, i)
        &&& tame_from(s, spans::inline_step(s, i).1)
    }
}

/// A link is a part of a line.
#[verifier::rlimit(30)]
proof fn lemma_link_break(s: Seq<char>, i: int, b: int, p: int)
    requires
        0 <= i < s.len(),
        spans::link_at(s, i) == Some((b, p)),
        ticks::no_ticks(s.subrange(b + 2, p)),
    ensures
        ticks::breaks(s, i, p + 1),
        ticks::no_ticks(s.subrange(b, p + 1)),
{
    spans::lemma_link_at(s, i);
    spans::lemma_closing(s, seq![']'], i + 1);
    spans::lemma_closing(s, seq![')'], b + 2);
    assert(s.subrange(b, b + 1)[0] == s[b]);
    assert(s.subrange(p, p + 1)[0] == s[p]);
    let raw = s.subrange(b + 2, p);
    let close = s.subrange(b, p + 1);
    assert forall|k: int| 0 <= k < close.len() implies #[trigger] close[k] != '`' by {
        if 2 <= k < close.len() - 1 {
            assert(close[k] == raw[k - 2]);
        }
    }
    ticks::lemma_char_break(s, i);
    ticks::lemma_closing_break(s, seq![']'], i + 1);
    ticks::lemma_then(s, i, i + 1, b);
    ticks::lemma_plain_break(s, b, p + 1);
    ticks::lemma_then(s, i, b, p + 1);
}

/// The markup of a link keeps the inline code of its label.
proof fn lemma_markup_keeps_code(url: Seq<char>, label: Seq<char>)
    requires
        ticks::no_ticks(url),
    ensures
        ticks::same_code(label, spans::link_markup(url, label)),
{
    if spans::web_address(url) {
        let before = seq!['<'] + url + seq!['|'];
        let after = seq!['>'];
        ticks::lemma_plain_both(seq!['<'], url);
        ticks::lemma_plain_both(seq!['<'] + url, seq!['|']);
        ticks::lemma_new_ends(before, label, after, before, label, after);
        assert(before + label + after == spans::link_markup(url, label));
    }
}

/// A link, as a step.
#[verifier::rlimit(30)]
proof fn lemma_link_step(s: Seq<char>, i: int, b: int, p: int)
    requires
        0 <= i < s.len(),
        spans::link_at(s, i) == Some((b, p)),
        ticks::no_ticks(s.subrange(b + 2, p)),
    ensures
        ticks::same_code(
            s.subrange(i, p + 1),
            spans::link_markup(spans::link_url(s.subrange(b + 2, p)), s.subrange(i + 1, b)),
        ),
        ticks::breaks(s, i, p + 1),
{
    spans::lemma_link_at(s, i);
    lemma_link_break(s, i, b, p);
    let raw = s.subrange(b + 2, p);
    let label = s.subrange(i + 1, b);
    lemma_plain_url(raw);
    lemma_markup_keeps_code(spans::link_url(raw), label);
    let open = seq![s[i]];
    let close = s.subrange(b, p + 1);
    ticks::lemma_new_ends(open, label, close, open, label, close);
    assert(open + label + close == s.subrange(i, p + 1));
}

/// An image, as a step.
proof fn lemma_image_step(s: Seq<char>, i: int, b: int, p: int)
    requires
        0 <= i < s.len(),
        spans::link_at(s, i + 1) == Some((b, p)),
        ticks::no_ticks(s.subrange(i, p + 1)),
    ensures
        ticks::same_code(
            s.subrange(i, p + 1),
            seq!['<'] + spans::link_url(s.subrange(b + 2, p)) + seq!['>'],
        ),
        ticks::breaks(s, i, p + 1),
{
    spans::lemma_link_at(s, i + 1);
    let t = s.subrange(i, p + 1);
    let raw = s.subrange(b + 2, p);
    let url = spans::link_url(raw);
    assert(raw == t.subrange(b + 2 - i, p - i));
    ticks::lemma_plain_part(t, b + 2 - i, p - i);
    lemma_plain_url(raw);
    ticks::lemma_plain_both(seq!['<'], url);
    ticks::lemma_plain_both(seq!['<'] + url, seq!['>']);
    ticks::lemma_no_ticks(t);
    ticks::lemma_no_ticks(seq!['<'] + url + seq!['>']);
    ticks::lemma_plain_break(s, i, p + 1);
}

/// A bold span, as a step.
proof fn lemma_bold_span_step(s: Seq<char>, i: int, b: int)
    requires
        0 <= i < s.len(),
        spans::span_end(s, seq!['*', '*'], i) == Some(b),
    ensures
        ticks::same_code(
            s.subrange(i, b + 2),
            seq!['*'] + spans::bold_from(s.subrange(i + 2, b), 0) + seq!['*'],
        ),
        ticks::breaks(s, i, b + 2),
{
    let inner = s.subrange(i + 2, b);
    lemma_bold_keeps_code(inner, 0);
    assert(inner.skip(0) == inner);
    let m = seq!['*', '*'];
    lemma_span_step(s, m, i, seq!['*'], spans::bold_from(inner, 0), seq!['*']);
}

/// Each step of the inline pass keeps inline code.
#[verifier::rlimit(30)]
proof fn lemma_inline_step(s: Seq<char>, i: int)
    requires
        0 <= i < s.len(),
        tame_construct(s, i),
    ensures
        ticks::same_code(
            s.subrange(i, spans::inline_step(s, i).1),
            spans::inline_step(s, i).0,
        ),
        ticks::breaks(s, i, spans::inline_step(s, i).1),
{
    spans::lemma_inline_step(s, i);
    let (out, e) = spans::inline_step(s, i);
    let t = s.subrange(i, e);
    if spans::escape_at(s, i) {
        assert(t == seq![s[i], s[i + 1]]);
        ticks::lemma_no_ticks(t);
        ticks::lemma_no_ticks(out);
        ticks::lemma_plain_break(s, i, e);
    } else if s[i] == '`' {
        ticks::lemma_ticks_break(s, i);
    } else if spans::span_end(s, seq!['*', '*', '*'], i) is Some {
        let b = spans::span_end(s, seq!['*', '*', '*'], i)->0;
        let inner = s.subrange(i + 3, b);
        lemma_span_step(s, seq!['*', '*', '*'], i, seq!['*', '_'], inner, seq!['_', '*']);
    } else if spans::span_end(s, seq!['*', '*'], i) is Some {
        lemma_bold_span_step(s, i, spans::span_end(s, seq!['*', '*'], i)->0);
    } else if spans::italic_end(s, i) is Some {
        let b = spans::italic_end(s, i)->0;
        lemma_span_step(s, seq!['*'], i, seq!['_'], s.subrange(i + 1, b), seq!['_']);
    } else if spans::underscore_end(s, i) is Some {
        let b = spans::underscore_end(s, i)->0;
        lemma_span_step(s, seq!['_', '_'], i, seq!['*'], s.subrange(i + 2, b), seq!['*']);
    } else if spans::span_end(s, seq!['~', '~'], i) is Some {
        let b = spans::span_end(s, seq!['~', '~'], i)->0;
        lemma_span_step(s, seq!['~', '~'], i, seq!['~'], s.subrange(i + 2, b), seq!['~']);
    } else if s[i] == '!' && spans::link_at(s, i + 1) is Some {
        let (b, p) = spans::link_at(s, i + 1)->0;
        lemma_image_step(s, i, b, p);
    } else if spans::link_at(s, i) is Some {
        let (b, p) = spans::link_at(s, i)->0;
        lemma_link_step(s, i, b, p);
    } else {
        ticks::lemma_char_break(s, i);
        assert(t == out);
    }
}

/// Converting inline constructs keeps inline code.
proof fn lemma_inline_keeps_code(s: Seq<char>, i: int)
    requires
        0 <= i <= s.len(),
        tame_from(s, i),
    ensures
        ticks::same_code(s.skip(i), spans::inline_from(s, i)),
    decreases s.len() - i,
{
    if i < s.len() {
        spans::lemma_inline_step(s, i);
        let (out, e) = spans::inline_step(s, i);
        lemma_inline_keeps_code(s, e);
        lemma_inline_step(s, i);
        ticks::lemma_step_and_rest(s, i, e, out, spans::inline_from(s, e));
    } else {
        assert(s.skip(i) == Seq::<char>::empty());
    }
}

/// White space holds no backtick.
proof fn lemma_trim_keeps_code(s: Seq<char>)
    ensures
        ticks::same_code(s, text::trim_start(s)),
        ticks::same_code(s, text::trim_end(s)),
        ticks::same_code(s, text::trim(s)),
        ticks::no_ticks(s.take(s.len() - text::trim_start(s).len())),
{
    lemma_start_keeps_code(s);
    lemma_end_keeps_code(s);
    lemma_end_keeps_code(text::trim_start(s));
}

/// What trimming the start takes away holds no backtick.
proof fn lemma_start_keeps_code(s: Seq<char>)
    ensures
        ticks::same_code(s, text::trim_start(s)),
        text::trim_start(s).len() <= s.len(),
        ticks::no_ticks(s.take(s.len() - text::trim_start(s).len())),
    decreases s.len(),
{
    let n = s.len() - text::trim_start(s).len();
    if s.len() > 0 && text::white_space(s[0]) {
        let t = s.skip(1);
        lemma_start_keeps_code(t);
        let one = seq![s[0]];
        ticks::lemma_plain_both(one, t.take(n - 1));
        assert(one + t.take(n - 1) == s.take(n));
    } else {
        assert(s.take(n) == Seq::<char>::empty());
    }
}

/// What trimming the end takes away holds no backtick.
proof fn lemma_end_keeps_code(s: Seq<char>)
    ensures
        ticks::same_code(s, text::trim_end(s)),
    decreases s.len(),
{
    if s.len() > 0 && text::white_space(s[s.len() - 1]) {
        let t = s.take(s.len() - 1);
        lemma_end_keeps_code(t);
        let one = seq![s.last()];
        ticks::lemma_new_end(t, one, one);
        assert(t + one == s);
    }
}

/// A list item keeps inline code.
proof fn lemma_item_keeps_code(line: Seq<char>)
    ensures
        ticks::same_code(line, lines::list_item(line)),
{
    reveal_strlit("- ");
    reveal_strlit("* ");
    reveal_strlit("• ");
    reveal_strlit(". ");
    reveal_strlit(".  ");
    let t = text::trim_start(line);
    crate::laws::lemma_trim_start(line);
    lemma_trim_keeps_code(line);
    let indent = line.take(line.len() - t.len());
    assert(line == indent + t);
    if text::starts_with(t, "- "@) || text::starts_with(t, "* "@) {
        let mark = t.take(2);
        assert(t.subrange(0, 2) == mark);
        assert(ticks::no_ticks(mark)) by {
            assert(mark[0] == '-' || mark[0] == '*');
            assert(mark[1] == ' ');
        }
        ticks::lemma_plain_both(indent, mark);
        ticks::lemma_plain_both(indent, "• "@);
        ticks::lemma_new_start(indent + mark, indent + "• "@, t.skip(2));
        assert(indent + mark + t.skip(2) == line);
    } else if let Some(k) = text::find(t, ". "@, 0) {
        text::lemma_find(t, ". "@, 0);
        if k > 0 && text::all_digits(t.take(k)) {
            let number = t.take(k);
            assert(ticks::no_ticks(number));
            ticks::lemma_plain_both(indent, number);
            ticks::lemma_plain_both(indent + number, ". "@);
            ticks::lemma_plain_both(indent + number, ".  "@);
            ticks::lemma_new_start(
                indent + number + ". "@,
                indent + number + ".  "@,
                t.skip(k + 2),
            );
            assert(t.subrange(k, k + 2) == ". "@);
            assert(t == number + t.subrange(k, k + 2) + t.skip(k + 2));
            assert(indent + number + ". "@ + t.skip(k + 2) == line);
        }
    }
}

/// What stands before a marker outside of inline code is a part of the line.
proof fn lemma_first_break(s: Seq<char>, m: Seq<char>, i: int)
    requires
        0 <= i <= s.len(),
    ensures
        lines::first_outside(s, m, i) matches Some(k) ==> ticks::breaks(s, i, k),
    decreases s.len() - i,
{
    lines::lemma_first_outside(s, m, i);
    if i < s.len() {
        if s[i] == '`' {
            ticks::lemma_ticks_break(s, i);
            let e = spans::ticks_end(s, i);
            lemma_first_break(s, m, e);
            if let Some(k) = lines::first_outside(s, m, e) {
                ticks::lemma_then(s, i, e, k);
            }
        } else if text::occurs_at(s, i, m) {
            assert(s.subrange(i, i) == Seq::<char>::empty());
            ticks::lemma_plain_break(s, i, i);
        } else {
            ticks::lemma_char_break(s, i);
            lemma_first_break(s, m, i + 1);
            if let Some(k) = lines::first_outside(s, m, i + 1) {
                ticks::lemma_then(s, i, i + 1, k);
            }
        }
    }
}

/// What stands before the last marker outside of inline code is a part of the
/// line.
proof fn lemma_last_break(s: Seq<char>, m: Seq<char>, i: int)
    requires
        0 <= i <= s.len(),
        m.len() > 0,
        m[0] != '`',
    ensures
        lines::last_outside(s, m, i) matches Some(k) ==> ticks::breaks(s, i, k),
    decreases s.len() - i,
{
    lines::lemma_first_outside(s, m, i);
    lemma_first_break(s, m, i);
    if let Some(k) = lines::first_outside(s, m, i) {
        lines::lemma_last_outside(s, m, k + 1);
        lemma_last_break(s, m, k + 1);
        if let Some(later) = lines::last_outside(s, m, k + 1) {
            assert(s[k] == s.subrange(k, k + m.len())[0]);
            ticks::lemma_char_break(s, k);
            ticks::lemma_then(s, i, k, k + 1);
            ticks::lemma_then(s, i, k + 1, later);
        }
    }
}

/// Cutting a marker does not lengthen a run of backticks.
pub open spec fn smooth_cut(s: Seq<char>, m: Seq<char>, at: Option<int>) -> bool {
    at matches Some(k) ==> ticks::meets(s.take(k), s.skip((k + m.len()) as int))
}

/// Stripping pairs of a marker does not lengthen a run of backticks.
pub open spec fn smooth_pairs(s: Seq<char>, m: Seq<char>) -> bool
    decreases s.len(),
{
    let first = lines::first_outside(s, m, 0);
    let last = lines::last_outside(s, m, 0);
    if m.len() > 0 && first is Some && last is Some && first != last {
        proof {
            lines::lemma_cut_shrinks(s, m);
        }
        let t = lines::cut(s, first->0, (first->0 + m.len()) as int);
        &&& smooth_cut(s, m, first)
        &&& smooth_cut(t, m, lines::last_outside(t, m, 0))
        &&& smooth_pairs(lines::cut_last(t, m), m)
    } else {
        true
    }
}

/// Cutting a marker outside of inline code keeps inline code.
proof fn lemma_cut_keeps_code(s: Seq<char>, m: Seq<char>, k: int)
    requires
        ticks::no_ticks(m),
        text::occurs_at(s, k, m),
        ticks::breaks(s, 0, k),
        smooth_cut(s, m, Some(k)),
    ensures
        ticks::same_code(s, lines::cut(s, k, (k + m.len()) as int)),
{
    let e = (k + m.len()) as int;
    let a = s.take(k);
    let b = s.skip(e);
    assert(s.subrange(0, k) == a);
    assert(s.skip(k) == s.subrange(k, e) + b);
    assert(s == a + s.skip(k));
    ticks::lemma_new_start(m, m, b);
    ticks::lemma_same_both(a, a, s.skip(k), b);
}

/// Stripping pairs of a marker keeps inline code.
#[verifier::rlimit(30)]
proof fn lemma_pairs_keep_code(s: Seq<char>, m: Seq<char>)
    requires
        m.len() > 0,
        ticks::no_ticks(m),
        smooth_pairs(s, m),
    ensures
        ticks::same_code(s, lines::without_pairs(s, m)),
    decreases s.len(),
{
    let first = lines::first_outside(s, m, 0);
    let last = lines::last_outside(s, m, 0);
    if first is Some && last is Some && first != last {
        lines::lemma_cut_shrinks(s, m);
        lines::lemma_first_outside(s, m, 0);
        lemma_first_break(s, m, 0);
        let k = first->0;
        let t = lines::cut(s, k, (k + m.len()) as int);
        lemma_cut_keeps_code(s, m, k);
        let u = lines::cut_last(t, m);
        lines::lemma_last_outside(t, m, 0);
        assert(m[0] != '`');
        lemma_last_break(t, m, 0);
        if let Some(j) = lines::last_outside(t, m, 0) {
            lemma_cut_keeps_code(t, m, j);
        }
        lemma_pairs_keep_code(u, m);
    }
}

/// Stripping bold markers does not lengthen a run of backticks.
pub open spec fn smooth_bold(s: Seq<char>) -> bool {
    smooth_pairs(s, "**"@) && smooth_pairs(lines::without_pairs(s, "**"@), "__"@)
}

/// Stripping bold markers keeps inline code, where no marker that goes stands
/// between two backticks.
pub proof fn law_stripping_bold_keeps_inline_code(s: Seq<char>)
    requires
        smooth_bold(s),
    ensures
        ticks::same_code(s, lines::without_bold(s)),
{
    reveal_strlit("**");
    reveal_strlit("__");
    lemma_pairs_keep_code(s, "**"@);
    lemma_pairs_keep_code(lines::without_pairs(s, "**"@), "__"@);
}

/// The text of a title up to inline code is a part of it, and has none.
proof fn lemma_text_break(t: Seq<char>, i: int)
    requires
        0 <= i <= t.len(),
    ensures
        ticks::breaks(t, i, document::text_end(t, i)),
        ticks::inline_code(t.subrange(i, document::text_end(t, i))).len() == 0,
    decreases t.len() - i,
{
    document::lemma_text_end(t, i);
    let e = document::text_end(t, i);
    let x = t.subrange(i, e);
    if i < t.len() && spans::code_span(t, i) is None {
        let k = if t[i] == '`' {
            spans::ticks_end(t, i)
        } else {
            i + 1
        };
        if t[i] == '`' {
            ticks::lemma_ticks_break(t, i);
        } else {
            ticks::lemma_char_break(t, i);
        }
        document::lemma_text_end(t, k);
        lemma_text_break(t, k);
        ticks::lemma_then(t, i, k, e);
        let rest = t.subrange(k, e);
        assert(x.skip(k - i) == rest);
        if t[i] == '`' {
            lemma_prefix_run(t, i, e);
        }
    } else {
        assert(x == Seq::<char>::empty());
        ticks::lemma_plain_break(t, i, e);
    }
}

/// A run of backticks that opens no inline code in a line opens none in a part
/// of it.
proof fn lemma_prefix_run(t: Seq<char>, i: int, e: int)
    requires
        0 <= i < e <= t.len(),
        t[i] == '`',
        spans::code_span(t, i) is None,
        i + spans::tick_run(t, i) <= e,
        ticks::meets(t.subrange(i, e), t.skip(e)),
    ensures
        spans::code_span(t.subrange(i, e), 0) is None,
        spans::tick_run(t.subrange(i, e), 0) == spans::tick_run(t, i),
{
    let x = t.subrange(i, e);
    let y = t.skip(e);
    assert(t.skip(i) == x + y);
    ticks::lemma_run_later(t, i, 0);
    ticks::lemma_run_both(x, y, 0);
    spans::lemma_tick_run(x, 0);
    let n = spans::tick_run(x, 0);
    ticks::lemma_code_later(t, i, 0);
    ticks::lemma_find_both(x, y, n, n);
}

/// Spelling out parts begins with the first of them.
proof fn lemma_spelled_first(p: Piece, rest: Seq<Piece>, texts: Seq<Seq<char>>)
    requires
        texts.len() == rest.len() + 1,
    ensures
        document::spelled(seq![p] + rest, texts) == (if p.code {
            p.chars
        } else {
            texts[0]
        }) + document::spelled(rest, texts.skip(1)),
    decreases rest.len(),
{
    let all = seq![p] + rest;
    let first = if p.code {
        p.chars
    } else {
        texts[0]
    };
    if rest.len() == 0 {
        assert(all.drop_last() == Seq::<Piece>::empty());
        assert(document::spelled(all.drop_last(), texts) == Seq::<char>::empty());
        assert(document::spelled(all, texts) == first);
        assert(first + document::spelled(rest, texts.skip(1)) == first);
    } else {
        let n = rest.len() - 1;
        let front = rest.drop_last();
        assert(all.drop_last() == seq![p] + front);
        lemma_spelled_first(p, front, texts.drop_last());
        lemma_spelled_fewer(seq![p] + front, texts);
        lemma_spelled_fewer(front, texts.skip(1));
        assert(texts.drop_last().skip(1) == texts.skip(1).drop_last());
        assert(texts.drop_last()[0] == texts[0]);
        assert(all[n + 1] == rest[n]);
        assert(texts.skip(1)[n] == texts[n + 1]);
        let tail = if rest[n].code {
            rest[n].chars
        } else {
            texts[n + 1]
        };
        assert(document::spelled(all, texts) == document::spelled(all.drop_last(), texts) + tail);
        assert(first + document::spelled(front, texts.skip(1)) + tail == first + (
        document::spelled(front, texts.skip(1)) + tail));
    }
}

/// A text beyond those of the parts does not matter.
pub proof fn lemma_spelled_fewer(parts: Seq<Piece>, texts: Seq<Seq<char>>)
    requires
        texts.len() > parts.len(),
    ensures
        document::spelled(parts, texts) == document::spelled(parts, texts.drop_last()),
    decreases parts.len(),
{
    if parts.len() > 0 {
        lemma_spelled_fewer(parts.drop_last(), texts);
    }
}

/// The other text has the same backticks as a text: the same runs, the same
/// inline code, and at its ends a backtick where the text has one.
pub open spec fn same_ticks(x: Seq<char>, y: Seq<char>) -> bool {
    &&& ticks::same_code(x, y)
    &&& (x.len() == 0) == (y.len() == 0)
    &&& ticks::tick_first(x) == ticks::tick_first(y)
    &&& ticks::tick_last(x) == ticks::tick_last(y)
}

/// Each text has the backticks of its part of a title.
pub open spec fn same_texts(parts: Seq<Piece>, texts: Seq<Seq<char>>) -> bool {
    &&& texts.len() == parts.len()
    &&& forall|k: int|
        0 <= k < parts.len() && !(#[trigger] parts[k]).code ==> same_ticks(
            parts[k].chars,
            texts[k],
        )
}

/// Spelling out the parts of a title keeps inline code.
#[verifier::rlimit(30)]
proof fn lemma_spelled_keeps_code(t: Seq<char>, i: int, texts: Seq<Seq<char>>)
    requires
        0 <= i <= t.len(),
        same_texts(document::title_parts(t, i), texts),
    ensures
        ticks::same_code(t.skip(i), document::spelled(document::title_parts(t, i), texts)),
        ticks::tick_first(document::spelled(document::title_parts(t, i), texts))
            == ticks::tick_first(t.skip(i)),
    decreases t.len() - i,
{
    let parts = document::title_parts(t, i);
    if i < t.len() {
        spans::lemma_code_span(t, i);
        document::lemma_text_end(t, i);
        let code = spans::code_span(t, i) is Some;
        let e = if code {
            spans::code_span(t, i)->0
        } else {
            document::text_end(t, i)
        };
        let p = Piece { chars: t.subrange(i, e), code };
        let rest = document::title_parts(t, e);
        let later = texts.skip(1);
        assert(parts == seq![p] + rest);
        assert(parts[0] == p);
        assert(same_texts(rest, later)) by {
            assert forall|k: int| 0 <= k < rest.len() && !(#[trigger] rest[k]).code implies same_ticks(
                rest[k].chars,
                later[k],
            ) by {
                assert(parts[k + 1] == rest[k]);
            }
        }
        lemma_spelled_keeps_code(t, e, later);
        lemma_spelled_first(p, rest, texts);
        let out = if code {
            p.chars
        } else {
            texts[0]
        };
        if code {
            ticks::lemma_ticks_break(t, i);
        } else {
            lemma_text_break(t, i);
        }
        assert(same_ticks(p.chars, out));
        assert(p.chars[0] == t[i] && t.skip(i)[0] == t[i]);
        ticks::lemma_step_and_rest(t, i, e, out, document::spelled(rest, later));
    } else {
        assert(t.skip(i) == Seq::<char>::empty());
    }
}

/// The `#` at the start of a line are no backticks.
proof fn lemma_hashes_plain(line: Seq<char>)
    ensures
        0 <= document::hashes(line) <= line.len(),
        ticks::no_ticks(line.take(document::hashes(line))),
    decreases line.len(),
{
    if line.len() > 0 && line[0] == '#' {
        let rest = line.skip(1);
        lemma_hashes_plain(rest);
        let n = document::hashes(rest);
        assert(line.take(n + 1) == seq!['#'] + rest.take(n));
        ticks::lemma_plain_both(seq!['#'], rest.take(n));
    }
}

/// No bold marker that is stripped from the header stands between two backticks.
pub open spec fn smooth_header(line: Seq<char>) -> bool {
    smooth_bold(text::trim(line.skip(document::hashes(line))))
}

/// The title of a header keeps the inline code of its line.
proof fn lemma_title_keeps_code(line: Seq<char>)
    requires
        smooth_header(line),
    ensures
        ticks::same_code(line, document::header_title(line)),
{
    let h = document::hashes(line);
    let rest = line.skip(h);
    let bare = text::trim(rest);
    lemma_hashes_plain(line);
    ticks::lemma_new_start(line.take(h), line.take(h), rest);
    assert(line.take(h) + rest == line);
    lemma_trim_keeps_code(rest);
    law_stripping_bold_keeps_inline_code(bare);
}

/// A header keeps the inline code of its line, whatever the upper case forms
/// are that its text gets, as long as these have the same backticks.
proof fn lemma_header_keeps_code(line: Seq<char>, uppers: Seq<Seq<char>>)
    requires
        smooth_header(line),
        document::hashes(line) <= 2 ==> same_texts(
            document::title_parts(document::header_title(line), 0),
            uppers,
        ),
    ensures
        ticks::same_code(
            line,
            document::header_markup(
                document::hashes(line),
                document::title_parts(document::header_title(line), 0),
                uppers,
            ),
        ),
{
    let h = document::hashes(line);
    let title = document::header_title(line);
    let parts = document::title_parts(title, 0);
    lemma_title_keeps_code(line);
    let texts = if h <= 2 {
        uppers
    } else {
        document::chars_in(parts)
    };
    assert(same_texts(parts, texts));
    lemma_spelled_keeps_code(title, 0, texts);
    assert(title.skip(0) == title);
    let inner = document::spelled(parts, texts);
    let star = seq!['*'];
    ticks::lemma_new_ends(star, inner, star, star, inner, star);
}

/// Inline code in a header is kept verbatim, whatever the upper case forms of
/// the text around it are, as long as they have the backticks of the text. Left
/// out are headers with a bold marker, to be stripped, between two backticks.
pub proof fn law_header_keeps_inline_code(line: Seq<char>, uppers: Seq<Seq<char>>)
    requires
        document::is_header(line),
        smooth_header(line),
        same_texts(document::title_parts(document::header_title(line), 0), uppers),
    ensures
        ({
            let bold = document::header_markup(
                document::hashes(line),
                document::title_parts(document::header_title(line), 0),
                uppers,
            );
            &&& ticks::inline_code(bold) == ticks::inline_code(line)
            &&& ticks::inline_code(entities::escape_line(urls::wrap_line(bold)))
                == ticks::inline_code(line)
        }),
{
    let bold = document::header_markup(
        document::hashes(line),
        document::title_parts(document::header_title(line), 0),
        uppers,
    );
    lemma_header_keeps_code(line, uppers);
    law_later_passes_keep_inline_code(bold);
}

/// A text of a title has no inline code of its own.
proof fn lemma_parts_text(t: Seq<char>, i: int, k: int)
    requires
        0 <= i <= t.len(),
        0 <= k < document::title_parts(t, i).len(),
        !document::title_parts(t, i)[k].code,
    ensures
        ticks::inline_code(document::title_parts(t, i)[k].chars).len() == 0,
    decreases t.len() - i,
{
    if i < t.len() {
        spans::lemma_code_span(t, i);
        document::lemma_text_end(t, i);
        lemma_text_break(t, i);
        let e = if spans::code_span(t, i) is Some {
            spans::code_span(t, i)->0
        } else {
            document::text_end(t, i)
        };
        if k > 0 {
            lemma_parts_text(t, e, k - 1);
        }
    }
}

/// Texts with backticks at the same positions.
spec fn aligned(x: Seq<char>, y: Seq<char>) -> bool {
    &&& x.len() == y.len()
    &&& forall|k: int| 0 <= k < x.len() ==> (#[trigger] x[k] == '`') == (y[k] == '`')
}

/// Texts with backticks at the same positions have the same runs.
proof fn lemma_aligned_run(x: Seq<char>, y: Seq<char>, i: int)
    requires
        aligned(x, y),
        0 <= i <= x.len(),
    ensures
        spans::tick_run(x, i) == spans::tick_run(y, i),
    decreases x.len() - i,
{
    if i < x.len() {
        assert((x[i] == '`') == (y[i] == '`'));
        lemma_aligned_run(x, y, i + 1);
    }
}

/// In texts with backticks at the same positions, runs are found alike.
proof fn lemma_aligned_find(x: Seq<char>, y: Seq<char>, n: int, i: int)
    requires
        aligned(x, y),
        0 <= i <= x.len(),
    ensures
        spans::find_run(x, n, i) == spans::find_run(y, n, i),
    decreases x.len() - i,
{
    if i < x.len() {
        assert((x[i] == '`') == (y[i] == '`'));
        lemma_aligned_run(x, y, i);
        spans::lemma_tick_run(x, i);
        if x[i] == '`' {
            lemma_aligned_find(x, y, n, i + spans::tick_run(x, i));
        } else {
            lemma_aligned_find(x, y, n, i + 1);
        }
    }
}

/// Texts with backticks at the same positions have the same runs, and as much
/// inline code.
proof fn lemma_aligned(x: Seq<char>, y: Seq<char>)
    requires
        aligned(x, y),
    ensures
        ticks::runs(x) == ticks::runs(y),
        ticks::inline_code(x).len() == ticks::inline_code(y).len(),
    decreases x.len(),
{
    if x.len() > 0 {
        assert((x[0] == '`') == (y[0] == '`'));
        spans::lemma_tick_run(x, 0);
        spans::lemma_code_span(x, 0);
        let n = spans::tick_run(x, 0);
        lemma_aligned_run(x, y, 0);
        lemma_aligned_find(x, y, n, n);
        let e = if x[0] == '`' {
            spans::ticks_end(x, 0)
        } else {
            1
        };
        lemma_aligned_skip(x, y, e);
        lemma_aligned(x.skip(e), y.skip(e));
        lemma_aligned_skip(x, y, n);
        if x[0] == '`' {
            lemma_aligned(x.skip(n), y.skip(n));
        }
    }
}

/// The ends of texts with backticks at the same positions.
proof fn lemma_aligned_skip(x: Seq<char>, y: Seq<char>, i: int)
    requires
        aligned(x, y),
        0 <= i <= x.len(),
    ensures
        aligned(x.skip(i), y.skip(i)),
{
    let a = x.skip(i);
    let b = y.skip(i);
    assert forall|k: int| 0 <= k < a.len() implies (#[trigger] a[k] == '`') == (b[k] == '`') by {
        assert(a[k] == x[i + k]);
        assert(b[k] == y[i + k]);
    }
}

/// Inline code in a header is kept verbatim, where the text around it gets the
/// upper case form of ASCII text. Left out are headers with a bold marker, to be
/// stripped, between two backticks.
pub proof fn law_ascii_header_keeps_inline_code(line: Seq<char>)
    requires
        document::is_header(line),
        smooth_header(line),
    ensures
        ({
            let bold = document::ascii_header(
                document::hashes(line),
                document::header_title(line),
            );
            &&& ticks::inline_code(bold) == ticks::inline_code(line)
            &&& ticks::inline_code(entities::escape_line(urls::wrap_line(bold)))
                == ticks::inline_code(line)
        }),
{
    let title = document::header_title(line);
    let parts = document::title_parts(title, 0);
    let uppers = document::ascii_forms(parts);
    assert forall|k: int| 0 <= k < parts.len() && !(#[trigger] parts[k]).code implies same_ticks(
        parts[k].chars,
        uppers[k],
    ) by {
        let x = parts[k].chars;
        let y = outside::ascii_uppercase(x);
        assert(uppers[k] == y);
        lemma_parts_text(title, 0, k);
        assert(aligned(x, y));
        lemma_aligned(x, y);
        assert(ticks::inline_code(x) == ticks::inline_code(y));
        if x.len() > 0 {
            assert((x[0] == '`') == (y[0] == '`'));
            assert((x[x.len() - 1] == '`') == (y[x.len() - 1] == '`'));
        }
    }
    law_header_keeps_inline_code(line, uppers);
}

/// A horizontal rule holds no backtick.
proof fn lemma_rule_plain(line: Seq<char>)
    requires
        lines::horizontal_rule(text::trim_start(line)),
    ensures
        ticks::no_ticks(line),
{
    let t = text::trim_start(line);
    let kept = lines::without_spaces(t);
    let f = |c: char| c != ' ';
    lemma_trim_keeps_code(line);
    crate::laws::lemma_trim_start(line);
    assert(ticks::no_ticks(t)) by {
        assert forall|k: int| 0 <= k < t.len() implies #[trigger] t[k] != '`' by {
            if t[k] == '`' {
                t.lemma_filter_contains(f, k);
                assert(t.filter(f).contains(t[k]));
                let j = choose|j: int| 0 <= j < kept.len() && kept[j] == '`';
                assert(kept[j] == kept[0]);
            }
        }
    }
    let n = line.len() - t.len();
    ticks::lemma_plain_both(line.take(n), t);
    assert(line.take(n) + t == line);
}

/// The line is a header of a level whose text is written in upper case.
pub open spec fn upper_header(line: Seq<char>) -> bool {
    !lines::horizontal_rule(text::trim_start(line)) && document::is_header(line)
        && document::hashes(line) <= 2
}

/// No construct of the line outside of code blocks takes inline code in, or
/// brings backticks together that stood apart.
pub open spec fn clear_code(line: Seq<char>) -> bool {
    if document::is_header(line) {
        smooth_header(line)
    } else {
        tame_from(line, 0)
    }
}

/// What becomes of a line outside of code blocks and tables.
pub open spec fn finished_line(line: Seq<char>) -> Seq<char> {
    entities::escape_line(urls::wrap_line(document::plain_line(line)))
}

/// A line converted by itself keeps its inline code.
proof fn lemma_line_keeps_code(line: Seq<char>)
    requires
        clear_code(line),
        !upper_header(line),
    ensures
        ticks::same_code(line, document::plain_line(line)),
        ticks::same_code(line, finished_line(line)),
{
    let t = document::plain_line(line);
    if lines::horizontal_rule(text::trim_start(line)) {
        reveal_strlit("───────────────────────");
        lemma_rule_plain(line);
        ticks::lemma_no_ticks(line);
        ticks::lemma_no_ticks(t);
    } else if document::is_header(line) {
        let parts = document::title_parts(document::header_title(line), 0);
        lemma_header_keeps_code(line, document::upper_forms(parts));
    } else {
        let u = spans::inline_line(line);
        lemma_inline_keeps_code(line, 0);
        assert(line.skip(0) == line);
        lemma_item_keeps_code(u);
    }
    law_later_passes_keep_inline_code(t);
}

/// Inline code is kept verbatim on every line outside of code blocks and
/// tables: the code spans are the same, in the same order, before and after. Left
/// out are escaped backticks, code in an image or in the destination of a link,
/// and links and bold markers that go from between two backticks; headers whose
/// text becomes upper case have a law of their own.
pub proof fn law_inline_code_is_kept(line: Seq<char>)
    requires
        clear_code(line),
        !upper_header(line),
    ensures
        ticks::inline_code(document::plain_line(line)) == ticks::inline_code(line),
        ticks::inline_code(finished_line(line)) == ticks::inline_code(line),
{
    lemma_line_keeps_code(line);
}

/// Bars at the ends of a row hold no backtick.
proof fn lemma_bars_keep_code(s: Seq<char>)
    ensures
        ticks::same_code(s, tables::trim_start_bars(s)),
        ticks::same_code(s, tables::trim_end_bars(s)),
    decreases s.len(),
{
    let bar = seq!['|'];
    if s.len() > 0 && s[0] == '|' {
        lemma_bars_keep_code(s.skip(1));
    }
    if s.len() > 0 && s[s.len() - 1] == '|' {
        let t = s.take(s.len() - 1);
        lemma_bars_keep_code(t);
        ticks::lemma_new_end(t, bar, bar);
        assert(t + bar == s);
    }
}

/// A cell is a part of a row, and a bar stands where it ends.
proof fn lemma_cell_break(s: Seq<char>, i: int)
    requires
        0 <= i <= s.len(),
    ensures
        ticks::breaks(s, i, tables::next_bar(s, i)),
        tables::next_bar(s, i) < s.len() ==> s[tables::next_bar(s, i)] == '|',
    decreases s.len() - i,
{
    tables::lemma_next_bar(s, i);
    let k = tables::next_bar(s, i);
    if i < s.len() && s[i] == '`' {
        ticks::lemma_ticks_break(s, i);
        let e = spans::ticks_end(s, i);
        lemma_cell_break(s, e);
        ticks::lemma_then(s, i, e, k);
    } else if i < s.len() && s[i] != '|' {
        ticks::lemma_char_break(s, i);
        lemma_cell_break(s, i + 1);
        ticks::lemma_then(s, i, i + 1, k);
    } else {
        assert(s.subrange(i, k) == Seq::<char>::empty());
        ticks::lemma_plain_break(s, i, k);
    }
}

/// A cell without the white space around it and between two other texts.
pub open spec fn dressed(cell: Seq<char>, around: Seq<char>) -> Seq<char> {
    around + text::trim(cell) + around
}

/// Dressing a cell keeps its inline code.
proof fn lemma_dressed(cell: Seq<char>, around: Seq<char>)
    requires
        ticks::no_ticks(around),
    ensures
        ticks::same_code(cell, dressed(cell, around)),
{
    let t = text::trim(cell);
    lemma_trim_keeps_code(cell);
    ticks::lemma_new_ends(around, t, around, around, t, around);
}

/// The cells from `i` on, dressed and joined, keep inline code.
#[verifier::rlimit(30)]
proof fn lemma_cells_keep_code(s: Seq<char>, i: int, around: Seq<char>)
    requires
        0 <= i <= s.len(),
        ticks::no_ticks(around),
    ensures
        ticks::same_code(
            s.skip(i),
            text::join(
                tables::split_from(s, i).map_values(|c: Seq<char>| dressed(c, around)),
                " | "@,
            ),
        ),
        tables::split_from(s, i).len() > 0,
    decreases s.len() - i,
{
    reveal_strlit(" | ");
    let f = |c: Seq<char>| dressed(c, around);
    let sep = " | "@;
    let all = tables::split_from(s, i).map_values(f);
    tables::lemma_next_bar(s, i);
    lemma_cell_break(s, i);
    let k = tables::next_bar(s, i);
    if k < s.len() {
        let cell = s.subrange(i, k);
        let rest = tables::split_from(s, k + 1).map_values(f);
        lemma_dressed(cell, around);
        lemma_cells_keep_code(s, k + 1, around);
        let one = seq![dressed(cell, around)];
        assert(all == one + rest);
        laws::lemma_join_runs(one, rest, sep);
        reveal_with_fuel(text::join, 2);
        assert(text::join(one, sep) == dressed(cell, around));
        let later = text::join(rest, sep);
        let bar = s.subrange(k, k + 1);
        assert(bar == seq!['|']);
        ticks::lemma_new_start(bar, sep, s.skip(k + 1));
        ticks::lemma_new_start(sep, sep, s.skip(k + 1));
        ticks::lemma_new_start(sep, sep, later);
        assert(bar + s.skip(k + 1) == s.skip(k));
        ticks::lemma_step_and_rest(s, i, k, dressed(cell, around), sep + later);
        assert(text::join(all, sep) == dressed(cell, around) + (sep + later));
    } else {
        assert(all == seq![dressed(s.skip(i), around)]);
        reveal_with_fuel(text::join, 2);
        assert(text::join(all, sep) == dressed(s.skip(i), around));
        lemma_dressed(s.skip(i), around);
    }
}

/// Inline code in the rows of a table is kept verbatim, in the line of the
/// header row as in the line of a data row.
pub proof fn law_table_row_keeps_inline_code(row: Seq<char>)
    ensures
        ticks::inline_code(tables::header_line(row)) == ticks::inline_code(row),
        ticks::inline_code(tables::data_line(row)) == ticks::inline_code(row),
{
    let a = text::trim(row);
    let b = tables::trim_start_bars(a);
    let c = tables::trim_end_bars(b);
    let none = Seq::<char>::empty();
    let star = seq!['*'];
    let sep = " | "@;
    lemma_trim_keeps_code(row);
    lemma_bars_keep_code(a);
    lemma_bars_keep_code(b);
    lemma_cells_keep_code(c, 0, star);
    lemma_cells_keep_code(c, 0, none);
    assert(c.skip(0) == c);
    let raw = tables::raw_cells(row);
    let stars = raw.map_values(|x: Seq<char>| dressed(x, star));
    let bare = raw.map_values(|x: Seq<char>| dressed(x, none));
    assert(tables::cells(row).map_values(|x: Seq<char>| seq!['*'] + x + seq!['*']) == stars);
    assert(tables::cells(row) == bare) by {
        assert forall|k: int| 0 <= k < raw.len() implies tables::cells(row)[k] == bare[k] by {
            assert(text::trim(raw[k]) == none + text::trim(raw[k]) + none);
        }
    }
    let joined = text::join(tables::cells(row), sep);
    reveal_strlit("• ");
    ticks::lemma_new_start("• "@, "• "@, joined);
}

} // verus!
