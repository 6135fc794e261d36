//! Messages made of lines of several kinds and of code blocks.

use vstd::prelude::*;
use crate::mrkdwn::constructs;
use crate::mrkdwn::document;
use crate::mrkdwn::document::Fence;
use crate::mrkdwn::entities;
use crate::mrkdwn::fences;
use crate::mrkdwn::laws;
use crate::mrkdwn::lines;
use crate::mrkdwn::messages;
use crate::mrkdwn::phrases;
use crate::mrkdwn::phrases::Part;
use crate::mrkdwn::spans;
use crate::mrkdwn::tables;
use crate::mrkdwn::urls;
use crate::outside;
use crate::text;

verus! {

/// A number of spaces.
pub open spec fn spaces(n: nat) -> Seq<char> {
    Seq::new(n, |i: int| ' ')
}

/// The text is made of spaces and tabs.
pub open spec fn indent(s: Seq<char>) -> bool {
    forall|k: int| 0 <= k < s.len() ==> #[trigger] s[k] == ' ' || s[k] == '\t'
}

/// A line of a message.
pub enum Line {
    /// Words and constructs.
    Text(Seq<Part>),
    /// An item of a list, indented, behind `-` or `*`.
    Bullet(Seq<char>, char, Seq<Part>),
    /// An item of a list, indented, behind a number.
    Numbered(Seq<char>, Seq<char>, Seq<Part>),
    /// A quote.
    Quote(Seq<Part>),
    /// A header of the third level or below.
    Header(nat, Seq<char>),
    /// A horizontal rule: a mark three times, with spaces between, and then more
    /// marks and spaces.
    Rule(char, nat, nat, Seq<char>),
    /// Nothing.
    Empty,
}

/// The line in Markdown.
pub open spec fn raw(l: Line) -> Seq<char> {
    match l {
        Line::Text(ps) => phrases::line(ps, 0),
        Line::Bullet(n, mark, ps) => n + seq![mark, ' '] + phrases::line(ps, 0),
        Line::Numbered(n, d, ps) => n + d + seq!['.', ' '] + phrases::line(ps, 0),
        Line::Quote(ps) => seq!['>', ' '] + phrases::line(ps, 0),
        Line::Header(level, t) => constructs::hash_marks(level) + seq![' '] + t,
        Line::Rule(c, a, b, rest) => seq![c] + spaces(a) + seq![c] + spaces(b) + seq![c] + rest,
        Line::Empty => Seq::empty(),
    }
}

/// The line in Slack's markup.
pub open spec fn done(l: Line) -> Seq<char> {
    match l {
        Line::Text(ps) => phrases::line(ps, 3),
        Line::Bullet(n, mark, ps) => n + seq!['•', ' '] + phrases::line(ps, 3),
        Line::Numbered(n, d, ps) => n + d + seq!['.', ' ', ' '] + phrases::line(ps, 3),
        Line::Quote(ps) => seq!['>', ' '] + phrases::line(ps, 3),
        Line::Header(level, t) => seq!['*'] + t + seq!['*'],
        Line::Rule(c, a, b, rest) => "───────────────────────"@,
        Line::Empty => Seq::empty(),
    }
}

/// The character can begin the text of a line.
pub open spec fn opener(c: char) -> bool {
    !text::white_space(c) && c != '-' && !('0' <= c <= '9')
}

/// The parts can begin a line: not like a list, a quote or an escape.
pub open spec fn begins(ps: Seq<Part>) -> bool {
    ps.len() > 0 && match ps[0] {
        Part::Words(w) => opener(w[0]),
        Part::Relative(t, _) => opener(t[0]),
        Part::Sign(c) => c != '>',
        Part::Bracketed(o, _, _) => o != '|',
        Part::Bold(t) => !text::white_space(t[0]),
        Part::BoldItalic(t) => !text::white_space(t[0]),
        Part::Underscored(t) => !text::white_space(t[0]),
        Part::Struck(t) => !text::white_space(t[0]),
        Part::Nested(x, _, _) => !text::white_space(x[0]),
        Part::BoldCode(x, _, _, _) => !text::white_space(x[0]),
        Part::Lone(c) => c != '_' && c != '~' && c != '#' && c != '|',
        Part::Escaped(_) => false,
        Part::Star => false,
        _ => true,
    }
}

/// The parts make the text of a line.
pub open spec fn lettering(ps: Seq<Part>) -> bool {
    phrases::valid(ps) && begins(ps)
}

/// The line is one of its kind.
pub open spec fn proper(l: Line) -> bool {
    match l {
        Line::Text(ps) => lettering(ps),
        Line::Bullet(n, mark, ps) => indent(n) && (mark == '-' || mark == '*') && lettering(ps),
        Line::Numbered(n, d, ps) => indent(n) && d.len() > 0 && (forall|k: int|
            0 <= k < d.len() ==> '0' <= #[trigger] d[k] <= '9') && lettering(ps),
        Line::Quote(ps) => lettering(ps),
        Line::Header(level, t) => level > 2 && constructs::plain_text(t),
        Line::Rule(c, a, b, rest) => (c == '-' || c == '*' || c == '_') && (forall|k: int|
            0 <= k < rest.len() ==> #[trigger] rest[k] == c || rest[k] == ' '),
        Line::Empty => true,
    }
}

/// No letter and no digit stands right next to an underscored part.
pub open spec fn spaced(l: Line) -> bool {
    match l {
        Line::Text(ps) => phrases::all_apart(ps),
        Line::Bullet(_, _, ps) => phrases::all_apart(ps) && !outside::alphanumeric(' '),
        Line::Numbered(_, _, ps) => phrases::all_apart(ps) && !outside::alphanumeric(' '),
        Line::Quote(ps) => phrases::all_apart(ps) && !outside::alphanumeric(' '),
        _ => true,
    }
}

/// What becomes of a line by itself: it opens no code block, and after each pass
/// it is a line that is neither a row of a table nor a fence.
pub open spec fn becomes(line: Seq<char>, out: Seq<char>) -> bool {
    let mid = document::plain_line(line);
    &&& messages::single(line)
    &&& document::opening(line) is None
    &&& messages::single(mid)
    &&& !tables::table_row(mid)
    &&& !fences::opening_fence(mid)
    &&& entities::escape_line(urls::wrap_line(mid)) == out
}

/// A line of parts begins with the first of them.
proof fn lemma_first_part(p: Part, ps: Seq<Part>, k: int)
    ensures
        phrases::line(seq![p] + ps, k) == phrases::form(p, k) + phrases::line(ps, k),
    decreases ps.len(),
{
    let all = seq![p] + ps;
    if ps.len() == 0 {
        assert(all.drop_last() == Seq::<Part>::empty());
        assert(phrases::line(all.drop_last(), k) == Seq::<char>::empty());
        assert(phrases::line(all, k) == phrases::form(p, k) + phrases::line(ps, k));
    } else {
        lemma_first_part(p, ps.drop_last(), k);
        assert(all.drop_last() == seq![p] + ps.drop_last());
        assert(all.last() == ps.last());
        assert(phrases::form(p, k) + phrases::line(ps.drop_last(), k) + phrases::form(ps.last(), k)
            == phrases::form(p, k) + phrases::line(ps, k));
    }
}

/// Characters that can stand in front of the text of a line.
pub open spec fn leading_char(c: char) -> bool {
    c == ' ' || c == '\t' || c == '-' || c == '.' || c == '•' || ('0' <= c <= '9')
}

/// The parts with other characters in front of them.
pub open spec fn with_front(front: Seq<char>, ps: Seq<Part>) -> Seq<Part> {
    match ps[0] {
        Part::Words(w) => seq![Part::Words(front + w)] + ps.skip(1),
        _ => seq![Part::Words(front)] + ps,
    }
}

/// Characters without a meaning, with words behind them, are words.
proof fn lemma_front_words(front: Seq<char>, w: Seq<char>)
    requires
        front.len() > 0,
        forall|k: int| 0 <= k < front.len() ==> leading_char(#[trigger] front[k]),
        phrases::wordy(w) || w.len() == 0,
    ensures
        phrases::wordy(front + w),
{
    let x = front + w;
    let none = Seq::<char>::empty();
    assert forall|i: int| 0 <= i < x.len() implies constructs::plain_char(#[trigger] x[i]) by {
        if i < front.len() {
            assert(leading_char(front[i]));
        } else {
            assert(x[i] == w[i - front.len()]);
        }
    }
    assert forall|i: int| 0 <= i < front.len() implies constructs::address_free(
        #[trigger] front[i],
    ) by {
        assert(leading_char(front[i]));
    }
    if w.len() == 0 {
        reveal_strlit("http://");
        reveal_strlit("https://");
    }
    assert forall|i: int| #[trigger] constructs::no_address_at(w, i) by {}
    constructs::lemma_no_address(front, w, none);
    assert(front + w + none == x);
}

/// Parts with characters in front of them make a line.
proof fn lemma_with_front(front: Seq<char>, ps: Seq<Part>)
    requires
        lettering(ps),
        front.len() > 0,
        front.last() == ' ',
        forall|k: int| 0 <= k < front.len() ==> leading_char(#[trigger] front[k]),
    ensures
        phrases::valid(with_front(front, ps)),
        forall|k: int| #[trigger]
            phrases::line(with_front(front, ps), k) == front + phrases::line(ps, k),
        with_front(front, ps)[0] is Words,
        with_front(front, ps).len() > 0,
        phrases::all_apart(ps) && !outside::alphanumeric(' ') ==> phrases::all_apart(
            with_front(front, ps),
        ),
{
    let all = with_front(front, ps);
    assert(phrases::sound(ps[0]));
    assert forall|k: int| #[trigger] phrases::line(all, k) == front + phrases::line(ps, k) by {
        if let Part::Words(w) = ps[0] {
            assert(ps == seq![ps[0]] + ps.skip(1));
            lemma_first_part(ps[0], ps.skip(1), k);
            lemma_first_part(Part::Words(front + w), ps.skip(1), k);
            assert((front + w) + phrases::line(ps.skip(1), k) == front + (w + phrases::line(
                ps.skip(1),
                k,
            )));
        } else {
            lemma_first_part(Part::Words(front), ps, k);
        }
    }
    if let Part::Words(w) = ps[0] {
        lemma_front_words(front, w);
        assert((front + w).last() == w.last());
        assert forall|j: int| 0 <= j < all.len() implies phrases::sound(#[trigger] all[j]) by {
            if j > 0 {
                assert(all[j] == ps[j]);
                assert(phrases::sound(ps[j]));
            }
        }
        assert forall|j: int| 0 <= j < all.len() - 1 implies phrases::fits(
            #[trigger] all[j],
            all[j + 1],
        ) by {
            assert(all[j + 1] == ps[j + 1]);
            assert(phrases::fits(ps[j], ps[j + 1]));
            if j > 0 {
                assert(all[j] == ps[j]);
            }
        }
        if phrases::all_apart(ps) && !outside::alphanumeric(' ') {
            assert forall|j: int| 0 <= j < all.len() implies #[trigger] phrases::apart(all, j) by {
                assert(phrases::apart(ps, j));
                if j > 0 {
                    assert(all[j] == ps[j]);
                }
                if j > 1 {
                    assert(all[j - 1] == ps[j - 1]);
                }
                if j + 1 < all.len() {
                    assert(all[j + 1] == ps[j + 1]);
                }
            }
        }
    } else {
        let none = Seq::<char>::empty();
        lemma_front_words(front, none);
        assert(front + none == front);
        assert forall|j: int| 0 <= j < all.len() implies phrases::sound(#[trigger] all[j]) by {
            if j > 0 {
                assert(all[j] == ps[j - 1]);
                assert(phrases::sound(ps[j - 1]));
            }
        }
        assert forall|j: int| 0 <= j < all.len() - 1 implies phrases::fits(
            #[trigger] all[j],
            all[j + 1],
        ) by {
            assert(all[j + 1] == ps[j]);
            if j > 0 {
                assert(all[j] == ps[j - 1]);
                assert(phrases::fits(ps[j - 1], ps[j]));
            }
        }
        if phrases::all_apart(ps) && !outside::alphanumeric(' ') {
            assert forall|j: int| 0 <= j < all.len() implies #[trigger] phrases::apart(all, j) by {
                if j > 0 {
                    assert(phrases::apart(ps, j - 1));
                    assert(all[j] == ps[j - 1]);
                    if j > 1 {
                        assert(all[j - 1] == ps[j - 2]);
                    }
                    if j + 1 < all.len() {
                        assert(all[j + 1] == ps[j]);
                    }
                }
            }
        }
    }
}

/// No part holds a line feed.
proof fn lemma_part_single(p: Part, k: int)
    requires
        phrases::sound(p),
    ensures
        messages::single(phrases::form(p, k)),
{
    match p {
        Part::Words(t) => {
            lemma_plain_single(t);
        },
        Part::Bold(t) => {
            lemma_held_single(t);
        },
        Part::BoldItalic(t) => {
            lemma_held_single(t);
        },
        Part::Italic(t) => {
            lemma_held_single(t);
        },
        Part::Underscored(t) => {
            lemma_held_single(t);
        },
        Part::Struck(t) => {
            lemma_held_single(t);
        },
        Part::Link(t, u) => {
            lemma_label_single(t);
            lemma_address_single(u);
        },
        Part::Relative(t, u) => {
            lemma_plain_single(t);
            lemma_address_single(u);
        },
        Part::Image(t, u) => {
            lemma_label_single(t);
            lemma_address_single(u);
        },
        Part::Code(n, t) => {
            assert forall|i: int| 0 <= i < t.len() implies #[trigger] t[i] != '\n' by {
                assert(t.contains(t[i]));
            }
            assert(messages::single(t));
        },
        Part::Address(u) => {
            lemma_address_single(u);
        },
        Part::Quoted(_, u) => {
            lemma_address_single(u);
        },
        Part::Bracketed(_, u, _) => {
            lemma_address_single(u);
        },
        Part::Mention(_, id) => {
            assert forall|i: int| 0 <= i < id.len() implies #[trigger] id[i] != '\n' by {
                assert(constructs::plain_char(id[i]) || id[i] == '|');
            }
            assert(messages::single(id));
        },
        Part::Ready(u, t) => {
            lemma_plain_single(t);
            lemma_address_single(u);
        },
        Part::Titled(t, u, _, title) => {
            lemma_label_single(t);
            lemma_address_single(u);
            lemma_plain_single(title);
        },
        Part::Square(t) => {
            lemma_plain_single(t);
        },
        Part::Mail(t) => {
            assert forall|i: int| 0 <= i < t.len() implies #[trigger] t[i] != '\n' by {
                assert(constructs::plain_char(t[i]) || t[i] == '|');
            }
            assert(messages::single(t));
        },
        Part::Nested(x, t, y) => {
            lemma_plain_single(x);
            lemma_plain_single(t);
            lemma_plain_single(y);
        },
        Part::BoldCode(x, n, t, y) => {
            lemma_plain_single(x);
            lemma_plain_single(y);
            assert forall|i: int| 0 <= i < t.len() implies #[trigger] t[i] != '\n' by {
                assert(t.contains(t[i]));
            }
            assert(messages::single(t));
        },
        _ => {},
    }
}

proof fn lemma_held_single(t: Seq<char>)
    requires
        forall|i: int| 0 <= i < t.len() ==> phrases::inner_char(#[trigger] t[i]),
    ensures
        messages::single(t),
{
    assert forall|i: int| 0 <= i < t.len() implies #[trigger] t[i] != '\n' by {
        assert(phrases::inner_char(t[i]));
    }
}

proof fn lemma_label_single(t: Seq<char>)
    requires
        phrases::label(t),
    ensures
        messages::single(t),
{
    assert forall|i: int| 0 <= i < t.len() implies #[trigger] t[i] != '\n' by {
        assert(phrases::label_char(t[i]));
    }
}

proof fn lemma_plain_single(t: Seq<char>)
    requires
        forall|i: int| 0 <= i < t.len() ==> constructs::plain_char(#[trigger] t[i]),
    ensures
        messages::single(t),
{
    assert forall|i: int| 0 <= i < t.len() implies #[trigger] t[i] != '\n' by {
        assert(constructs::plain_char(t[i]));
    }
}

proof fn lemma_address_single(u: Seq<char>)
    requires
        forall|i: int| 0 <= i < u.len() ==> constructs::address_char(#[trigger] u[i]),
    ensures
        messages::single(u),
{
    assert forall|i: int| 0 <= i < u.len() implies #[trigger] u[i] != '\n' by {
        assert(constructs::address_char(u[i]));
    }
}

/// A line of parts holds no line feed.
proof fn lemma_parts_single(ps: Seq<Part>, k: int)
    requires
        phrases::valid(ps),
    ensures
        messages::single(phrases::line(ps, k)),
    decreases ps.len(),
{
    if ps.len() > 0 {
        let front = ps.drop_last();
        assert forall|j: int| 0 <= j < front.len() implies phrases::sound(#[trigger] front[j]) by {
            assert(phrases::sound(ps[j]));
        }
        assert forall|j: int| 0 <= j < front.len() - 1 implies phrases::fits(
            #[trigger] front[j],
            front[j + 1],
        ) by {
            assert(phrases::fits(ps[j], ps[j + 1]));
        }
        lemma_parts_single(front, k);
        assert(phrases::sound(ps[ps.len() - 1]));
        lemma_part_single(ps.last(), k);
        let a = phrases::line(front, k);
        let b = phrases::form(ps.last(), k);
        assert forall|i: int| 0 <= i < (a + b).len() implies #[trigger] (a + b)[i] != '\n' by {
            if i < a.len() {
                assert((a + b)[i] == a[i]);
            } else {
                assert((a + b)[i] == b[i - a.len()]);
            }
        }
    }
}

/// How a line of parts begins.
proof fn lemma_beginning(ps: Seq<Part>, k: int)
    requires
        lettering(ps),
        0 <= k <= 2,
    ensures
        ({
            let s = phrases::line(ps, k);
            &&& s.len() > 0
            &&& opener(s[0]) && s[0] != '#' && s[0] != '|' && s[0] != '>'
            &&& s[0] == '*' || s[0] == '_' ==> s.len() > 1 && (!text::white_space(s[1]) && (s[1]
                != s[0] || (s.len() > 2 && !text::white_space(s[2]) && (s[2] != s[0] || (s.len() > 3
                && !text::white_space(s[3]) && s[3] != s[0])))))
            &&& s[0] == '~' ==> s.len() > 2 && (s[1] != '~' || s[2] != '~')
            &&& s[0] == '`' ==> !fences::single_run(s)
        }),
{
    let s = phrases::line(ps, k);
    let p = ps[0];
    assert(phrases::sound(p));
    phrases::lemma_neighbours(ps, k, 0);
    phrases::lemma_part_at(ps, k, 0);
    phrases::lemma_form_not_empty(p, k);
    let x = phrases::form(p, k);
    assert(s[0] == x[0]);
    match p {
        Part::Words(w) => {
            assert(constructs::plain_char(w[0]));
        },
        Part::Bold(t) => {
            assert(constructs::plain_char(t[0]));
            assert(s[1] == x[1] && s[2] == x[2]);
        },
        Part::BoldItalic(t) => {
            assert(constructs::plain_char(t[0]));
            assert(s[1] == x[1] && s[2] == x[2] && s[3] == x[3]);
        },
        Part::Nested(y, _, _) => {
            assert(constructs::plain_char(y[0]));
            assert(s[1] == x[1] && s[2] == x[2]);
        },
        Part::BoldCode(y, _, _, _) => {
            assert(constructs::plain_char(y[0]));
            assert(s[1] == x[1] && s[2] == x[2]);
        },
        Part::Italic(t) => {
            assert(constructs::plain_char(t[0]));
            assert(s[1] == x[1]);
        },
        Part::Underscored(t) => {
            assert(constructs::plain_char(t[0]));
            assert(s[1] == x[1] && s[2] == x[2]);
        },
        Part::Struck(t) => {
            assert(constructs::plain_char(t[0]));
            assert(s[1] == x[1] && s[2] == x[2]);
        },
        Part::Relative(t, u) => {
            assert(constructs::plain_char(t[0]));
        },
        Part::Address(u) => {
            phrases::lemma_web(u);
        },
        Part::Code(n, t) => {
            lemma_two_runs(s, n, t, x);
        },
        _ => {},
    }
}

/// A line that begins with code has more backticks than those at its start.
proof fn lemma_two_runs(s: Seq<char>, n: nat, t: Seq<char>, x: Seq<char>)
    requires
        n > 0,
        t.len() > 0,
        !t.contains('`'),
        x == phrases::around(phrases::ticks(n), t, phrases::ticks(n)),
        x.len() <= s.len(),
        forall|i: int| 0 <= i < x.len() ==> #[trigger] s[i] == x[i],
    ensures
        !fences::single_run(s),
{
    assert forall|j: int| 0 <= j < n implies #[trigger] s[j] == '`' by {
        assert(s[j] == x[j]);
    }
    assert(s[n as int] == x[n as int]);
    assert(t.contains(t[0]));
    crate::mrkdwn::ticks::lemma_run_is(s, 0, n as int);
    let k = (n + t.len()) as int;
    assert(s[k] == x[k]);
    text::lemma_find_char(s, '`', n as int);
    if text::find_char(s, '`', n as int) is None {
        assert(s[k] != '`');
    }
}

/// A line that begins with text opens no block.
pub proof fn lemma_no_opening(s: Seq<char>)
    requires
        s.len() > 0,
        !text::white_space(s[0]),
        s[0] == '~' ==> s.len() > 2 && (s[1] != '~' || s[2] != '~'),
        s[0] == '`' ==> !fences::single_run(s),
    ensures
        document::opening(s) is None,
        !fences::opening_fence(s),
        text::trim_start(s) == s,
{
    reveal_strlit("```");
    reveal_strlit("~~~");
    assert(text::trim_start(s) == s);
    if text::starts_with(s, "~~~"@) {
        let run = s.subrange(0, 3);
        assert(run[0] == s[0] && run[1] == s[1] && run[2] == s[2]);
    }
    if text::starts_with(s, "```"@) {
        assert(s.subrange(0, 3)[0] == s[0]);
    }
    crate::laws::lemma_trim_end(s);
    if fences::backtick_fence(s) {
        let t = text::trim_end(s);
        assert(t.subrange(0, 3)[0] == t[0]);
        assert(t[0] == s[0]);
    }
}

/// A line that begins with text is no row of a table.
pub proof fn lemma_no_row(s: Seq<char>)
    requires
        s.len() > 0,
        !text::white_space(s[0]),
        s[0] != '|',
    ensures
        !tables::table_row(s),
{
    crate::laws::lemma_trim_end(s);
    assert(text::trim_start(s) == s);
    let t = text::trim_end(s);
    if t.len() > 0 {
        assert(t[0] == s[0]);
    }
}

/// A line that begins with text is no item of a list.
pub proof fn lemma_no_item(s: Seq<char>)
    requires
        s.len() > 0,
        opener(s[0]),
        s[0] == '*' ==> s.len() > 1 && !text::white_space(s[1]),
    ensures
        lines::list_item(s) == s,
{
    reveal_strlit("- ");
    reveal_strlit("* ");
    reveal_strlit(". ");
    assert(text::trim_start(s) == s);
    if text::starts_with(s, "- "@) {
        assert(s.subrange(0, 2)[0] == s[0]);
    }
    if text::starts_with(s, "* "@) {
        assert(s.subrange(0, 2)[0] == s[0] && s.subrange(0, 2)[1] == s[1]);
    }
    text::lemma_find(s, ". "@, 0);
    if let Some(k) = text::find(s, ". "@, 0) {
        if k > 0 && text::all_digits(s.take(k)) {
            assert(text::digit(s.take(k)[0]));
        }
    }
}

/// A line of words and constructs.
proof fn lemma_text(ps: Seq<Part>)
    requires
        lettering(ps),
        phrases::all_apart(ps),
    ensures
        becomes(phrases::line(ps, 0), phrases::line(ps, 3)),
{
    let s = phrases::line(ps, 0);
    let m = phrases::line(ps, 1);
    lemma_beginning(ps, 0);
    lemma_beginning(ps, 1);
    lemma_parts_single(ps, 0);
    lemma_parts_single(ps, 1);
    lemma_no_opening(s);
    lemma_no_opening(m);
    lemma_no_row(m);
    lemma_no_item(m);
    lemma_no_rule(s);
    assert(!document::is_header(s));
    phrases::lemma_inline_line(ps);
    phrases::lemma_wrap_line(ps);
    phrases::lemma_escape_line(ps);
}

/// A line that begins with text is no rule.
pub proof fn lemma_no_rule(s: Seq<char>)
    requires
        s.len() > 0,
        opener(s[0]),
        s[0] == '*' || s[0] == '_' ==> s.len() > 1 && (!text::white_space(s[1]) && (s[1] != s[0]
            || (s.len() > 2 && !text::white_space(s[2]) && (s[2] != s[0] || (s.len() > 3
            && !text::white_space(s[3]) && s[3] != s[0]))))),
    ensures
        !lines::horizontal_rule(text::trim_start(s)),
{
    assert(text::trim_start(s) == s);
    if s[0] == '*' || s[0] == '_' {
        if s[1] != s[0] {
            constructs::lemma_not_a_rule(s, 1);
        } else if s[2] != s[0] {
            constructs::lemma_not_a_rule(s, 2);
        } else {
            constructs::lemma_not_a_rule(s, 3);
        }
    } else {
        lemma_other_first(s);
    }
}

/// A line that begins with a character that makes no rule is none.
pub proof fn lemma_other_first(s: Seq<char>)
    requires
        s.len() > 0,
        s[0] != ' ',
        s[0] != '-' && s[0] != '*' && s[0] != '_',
    ensures
        !lines::horizontal_rule(s),
{
    let solid = |c: char| c != ' ';
    let t = lines::without_spaces(s);
    s.lemma_filter_contains(solid, 0);
    let i = choose|i: int| 0 <= i < t.len() && t[i] == s[0];
    if lines::horizontal_rule(s) {
        assert(t[i] == t[0]);
    }
}

/// An indented line, trimmed.
proof fn lemma_indented(n: Seq<char>, s: Seq<char>)
    requires
        indent(n),
        s.len() > 0,
        !text::white_space(s[0]),
    ensures
        text::trim_start(n + s) == s,
    decreases n.len(),
{
    let x = n + s;
    if n.len() > 0 {
        let rest = n.skip(1);
        assert forall|k: int| 0 <= k < rest.len() implies #[trigger] rest[k] == ' ' || rest[k]
            == '\t' by {
            assert(rest[k] == n[k + 1]);
        }
        lemma_indented(rest, s);
        assert(x[0] == n[0]);
        assert(x.skip(1) == rest + s);
    } else {
        assert(x == s);
    }
}

/// Characters in front of the text of a line, and the text, after the later
/// passes.
proof fn lemma_front_passes(front: Seq<char>, ps: Seq<Part>)
    requires
        lettering(ps),
        front.len() > 0,
        front.last() == ' ',
        forall|k: int| 0 <= k < front.len() ==> leading_char(#[trigger] front[k]),
    ensures
        entities::escape_line(urls::wrap_line(front + phrases::line(ps, 1))) == front
            + phrases::line(ps, 3),
        messages::single(front + phrases::line(ps, 1)),
{
    let all = with_front(front, ps);
    lemma_with_front(front, ps);
    assert(phrases::line(all, 1) == front + phrases::line(ps, 1));
    assert(phrases::line(all, 3) == front + phrases::line(ps, 3));
    phrases::lemma_wrap_line(all);
    phrases::lemma_escape_line(all);
    lemma_parts_single(all, 1);
}

/// Characters in front of the text of a line, and the text, after the pass on
/// inline constructs.
proof fn lemma_front_inline(front: Seq<char>, ps: Seq<Part>)
    requires
        lettering(ps),
        phrases::all_apart(ps),
        !outside::alphanumeric(' '),
        front.len() > 0,
        front.last() == ' ',
        forall|k: int| 0 <= k < front.len() ==> leading_char(#[trigger] front[k]),
    ensures
        spans::inline_line(front + phrases::line(ps, 0)) == front + phrases::line(ps, 1),
        messages::single(front + phrases::line(ps, 0)),
{
    let all = with_front(front, ps);
    lemma_with_front(front, ps);
    assert(phrases::line(all, 0) == front + phrases::line(ps, 0));
    assert(phrases::line(all, 1) == front + phrases::line(ps, 1));
    phrases::lemma_inline_line(all);
    lemma_parts_single(all, 0);
}

/// The same behind a star.
proof fn lemma_star_inline(n: Seq<char>, ps: Seq<Part>)
    requires
        indent(n),
        lettering(ps),
        phrases::all_apart(ps),
        !outside::alphanumeric(' '),
    ensures
        spans::inline_line(n + seq!['*', ' '] + phrases::line(ps, 0)) == n
            + seq!['*', ' '] + phrases::line(ps, 1),
        messages::single(n + seq!['*', ' '] + phrases::line(ps, 0)),
{
    let front = seq![' '];
    let some = with_front(front, ps);
    lemma_with_front(front, ps);
    let starred = seq![Part::Star] + some;
    lemma_star_valid(some, ps, front);
    let all = if n.len() > 0 {
        seq![Part::Words(n)] + starred
    } else {
        starred
    };
    if n.len() > 0 {
        lemma_spaces_valid(n, starred);
    }
    assert forall|k: int| 0 <= k <= 1 implies #[trigger] phrases::line(all, k) == n + seq![
        '*',
        ' ',
    ] + phrases::line(ps, k) by {
        lemma_first_part(Part::Star, some, k);
        assert(phrases::line(some, k) == front + phrases::line(ps, k));
        if n.len() > 0 {
            lemma_first_part(Part::Words(n), starred, k);
        }
        assert(phrases::line(all, k) == n + seq!['*', ' '] + phrases::line(ps, k));
    }
    phrases::lemma_inline_line(all);
    lemma_parts_single(all, 0);
    assert(phrases::line(all, 0) == n + seq!['*', ' '] + phrases::line(ps, 0));
    assert(phrases::line(all, 1) == n + seq!['*', ' '] + phrases::line(ps, 1));
}

/// A star before words with a space in front.
proof fn lemma_star_valid(some: Seq<Part>, ps: Seq<Part>, front: Seq<char>)
    requires
        front == seq![' '],
        lettering(ps),
        some == with_front(front, ps),
        phrases::valid(some),
        phrases::all_apart(some),
    ensures
        phrases::valid(seq![Part::Star] + some),
        phrases::all_apart(seq![Part::Star] + some),
{
    let all = seq![Part::Star] + some;
    assert(some[0] matches Part::Words(w) && w[0] == ' ');
    lemma_prepend(Part::Star, some);
}

/// Spaces before a star.
proof fn lemma_spaces_valid(n: Seq<char>, ps: Seq<Part>)
    requires
        indent(n),
        n.len() > 0,
        ps.len() > 0,
        ps[0] is Star,
        phrases::valid(ps),
        phrases::all_apart(ps),
    ensures
        phrases::valid(seq![Part::Words(n)] + ps),
        phrases::all_apart(seq![Part::Words(n)] + ps),
{
    let none = Seq::<char>::empty();
    lemma_front_words(n, none);
    assert(n + none == n);
    lemma_prepend(Part::Words(n), ps);
}

/// A part before others that make a line.
proof fn lemma_prepend(p: Part, ps: Seq<Part>)
    requires
        ps.len() > 0,
        phrases::valid(ps),
        phrases::sound(p),
        phrases::fits(p, ps[0]),
        !(p is Underscored),
        !(ps[0] is Underscored),
    ensures
        phrases::valid(seq![p] + ps),
        phrases::all_apart(ps) ==> phrases::all_apart(seq![p] + ps),
{
    let all = seq![p] + ps;
    assert forall|j: int| 0 <= j < all.len() implies phrases::sound(#[trigger] all[j]) by {
        if j > 0 {
            assert(all[j] == ps[j - 1]);
            assert(phrases::sound(ps[j - 1]));
        }
    }
    assert forall|j: int| 0 <= j < all.len() - 1 implies phrases::fits(
        #[trigger] all[j],
        all[j + 1],
    ) by {
        assert(all[j + 1] == ps[j]);
        if j > 0 {
            assert(all[j] == ps[j - 1]);
            assert(phrases::fits(ps[j - 1], ps[j]));
        }
    }
    if phrases::all_apart(ps) {
        assert forall|j: int| 0 <= j < all.len() implies #[trigger] phrases::apart(all, j) by {
            if j > 0 {
                assert(phrases::apart(ps, j - 1));
                assert(all[j] == ps[j - 1]);
                if j > 1 {
                    assert(all[j - 1] == ps[j - 2]);
                }
                if j + 1 < all.len() {
                    assert(all[j + 1] == ps[j]);
                }
            }
        }
    }
}

/// An item of a list, as contracts speak of it.
proof fn lemma_item_of(n: Seq<char>, mark: char, rest: Seq<char>)
    requires
        indent(n),
        mark == '-' || mark == '*',
    ensures
        lines::list_item(n + seq![mark, ' '] + rest) == n + seq!['•', ' '] + rest,
{
    reveal_strlit("- ");
    reveal_strlit("* ");
    reveal_strlit("• ");
    assert("• "@ == seq!['•', ' ']);
    let t = seq![mark, ' '] + rest;
    let s = n + seq![mark, ' '] + rest;
    assert(s == n + t);
    lemma_indented(n, t);
    assert(s.take(s.len() - t.len()) == n);
    assert(t.skip(2) == rest);
    assert(t.subrange(0, 2) == seq![mark, ' ']);
    assert("- "@ == seq!['-', ' ']);
    assert("* "@ == seq!['*', ' ']);
    assert(text::starts_with(t, "- "@) || text::starts_with(t, "* "@));
}

/// An item of a list behind a bullet is a line of its own.
proof fn lemma_bullet(n: Seq<char>, mark: char, ps: Seq<Part>)
    requires
        proper(Line::Bullet(n, mark, ps)),
        spaced(Line::Bullet(n, mark, ps)),
    ensures
        becomes(raw(Line::Bullet(n, mark, ps)), done(Line::Bullet(n, mark, ps))),
{
    let line = raw(Line::Bullet(n, mark, ps));
    let t = seq![mark, ' '] + phrases::line(ps, 0);
    let mid = n + seq!['•', ' '] + phrases::line(ps, 1);
    assert(line == n + t);
    lemma_indented(n, t);
    if mark == '-' {
        let front = n + seq!['-', ' '];
        lemma_front_inline(front, ps);
    } else {
        lemma_star_inline(n, ps);
    }
    lemma_item_of(n, mark, phrases::line(ps, 1));
    lemma_bullet_no_rule(mark, ps);
    lemma_indent_opens_nothing(n, t);
    assert(!document::is_header(line)) by {
        if n.len() > 0 {
            assert(line[0] == n[0]);
        }
        assert(line[0] != '#');
    }
    assert(document::plain_line(line) == mid);
    let front = n + seq!['•', ' '];
    lemma_front_passes(front, ps);
    lemma_bulleted(n, seq!['•', ' '] + phrases::line(ps, 1));
    assert(mid == n + (seq!['•', ' '] + phrases::line(ps, 1)));
}

/// An indented line that begins with a mark of a list or a number opens no block.
proof fn lemma_indent_opens_nothing(n: Seq<char>, t: Seq<char>)
    requires
        indent(n),
        t.len() > 0,
        t[0] != '`' && t[0] != '~' && !text::white_space(t[0]),
    ensures
        document::opening(n + t) is None,
{
    reveal_strlit("```");
    reveal_strlit("~~~");
    lemma_indented(n, t);
    if text::starts_with(t, "```"@) {
        assert(t.subrange(0, 3)[0] == t[0]);
    }
    if text::starts_with(t, "~~~"@) {
        assert(t.subrange(0, 3)[0] == t[0]);
    }
}

/// An indented line that begins with a bullet or a number is no row and no fence.
proof fn lemma_bulleted(n: Seq<char>, t: Seq<char>)
    requires
        indent(n),
        t.len() > 0,
        t[0] != '`' && t[0] != '|' && !text::white_space(t[0]),
    ensures
        !tables::table_row(n + t),
        !fences::opening_fence(n + t),
{
    reveal_strlit("```");
    lemma_indented(n, t);
    crate::laws::lemma_trim_end(t);
    let u = text::trim_end(t);
    if u.len() > 0 {
        assert(u[0] == t[0]);
    }
    if fences::backtick_fence(n + t) {
        assert(u.subrange(0, 3)[0] == u[0]);
    }
}

/// An item of a list is no rule.
proof fn lemma_bullet_no_rule(mark: char, ps: Seq<Part>)
    requires
        mark == '-' || mark == '*',
        lettering(ps),
    ensures
        !lines::horizontal_rule(seq![mark, ' '] + phrases::line(ps, 0)),
{
    let x = phrases::line(ps, 0);
    let t = seq![mark, ' '] + x;
    lemma_beginning(ps, 0);
    assert(t[2] == x[0]);
    if x[0] != mark {
        constructs::lemma_not_a_rule(t, 2);
    } else {
        assert(t[3] == x[1]);
        if x[1] != mark {
            constructs::lemma_not_a_rule(t, 3);
        } else {
            assert(t[4] == x[2]);
            if x[2] != mark {
                constructs::lemma_not_a_rule(t, 4);
            } else {
                assert(t[5] == x[3]);
                constructs::lemma_not_a_rule(t, 5);
            }
        }
    }
}

/// An item of a list behind a number is a line of its own.
proof fn lemma_numbered(n: Seq<char>, d: Seq<char>, ps: Seq<Part>)
    requires
        proper(Line::Numbered(n, d, ps)),
        spaced(Line::Numbered(n, d, ps)),
    ensures
        becomes(raw(Line::Numbered(n, d, ps)), done(Line::Numbered(n, d, ps))),
{
    let line = raw(Line::Numbered(n, d, ps));
    let t = d + seq!['.', ' '] + phrases::line(ps, 0);
    let m = phrases::line(ps, 1);
    let mid = n + d + seq!['.', ' ', ' '] + m;
    assert(line == n + t);
    assert(t[0] == d[0]);
    assert('0' <= d[0] <= '9');
    lemma_indented(n, t);
    let front = n + d + seq!['.', ' '];
    assert forall|k: int| 0 <= k < front.len() implies leading_char(#[trigger] front[k]) by {
        if n.len() <= k < n.len() + d.len() {
            assert(front[k] == d[k - n.len()]);
        }
    }
    lemma_front_inline(front, ps);
    lemma_number_of(n, d, m);
    lemma_other_first(t);
    lemma_indent_opens_nothing(n, t);
    assert(!document::is_header(line)) by {
        if n.len() > 0 {
            assert(line[0] == n[0]);
        }
        assert(line[0] != '#');
    }
    assert(document::plain_line(line) == mid);
    let wide = n + d + seq!['.', ' ', ' '];
    assert forall|k: int| 0 <= k < wide.len() implies leading_char(#[trigger] wide[k]) by {
        if n.len() <= k < n.len() + d.len() {
            assert(wide[k] == d[k - n.len()]);
        }
    }
    lemma_front_passes(wide, ps);
    let u = d + seq!['.', ' ', ' '] + m;
    assert(u[0] == d[0]);
    lemma_bulleted(n, u);
    assert(mid == n + u);
}

/// An item behind a number, as contracts speak of it.
proof fn lemma_number_of(n: Seq<char>, d: Seq<char>, rest: Seq<char>)
    requires
        indent(n),
        d.len() > 0,
        forall|k: int| 0 <= k < d.len() ==> '0' <= #[trigger] d[k] <= '9',
    ensures
        lines::list_item(n + d + seq!['.', ' '] + rest) == n + d + seq![
            '.',
            ' ',
            ' ',
        ] + rest,
{
    reveal_strlit("- ");
    reveal_strlit("* ");
    reveal_strlit(". ");
    reveal_strlit(".  ");
    assert(". "@ == seq!['.', ' ']);
    assert(".  "@ == seq!['.', ' ', ' ']);
    let t = d + seq!['.', ' '] + rest;
    let s = n + d + seq!['.', ' '] + rest;
    assert(s == n + t);
    assert(t[0] == d[0]);
    lemma_indented(n, t);
    assert(s.take(s.len() - t.len()) == n);
    if text::starts_with(t, "- "@) {
        assert(t.subrange(0, 2)[0] == t[0]);
    }
    if text::starts_with(t, "* "@) {
        assert(t.subrange(0, 2)[0] == t[0]);
    }
    let k = d.len() as int;
    assert(t.subrange(k, k + 2) == seq!['.', ' ']);
    text::lemma_find(t, ". "@, 0);
    assert(text::occurs_at(t, k, ". "@));
    if let Some(f) = text::find(t, ". "@, 0) {
        if f < k {
            assert(t.subrange(f, f + 2)[0] == t[f]);
            assert(t[f] == d[f]);
        } else if k < f {
            assert(!text::occurs_at(t, k, ". "@));
        }
    }
    assert(text::find(t, ". "@, 0) == Some(k));
    assert(t.take(k) == d);
    assert(text::all_digits(d));
    assert(t.skip(k + 2) == rest);
}

/// A quote is a line of its own.
proof fn lemma_quote(ps: Seq<Part>)
    requires
        proper(Line::Quote(ps)),
        spaced(Line::Quote(ps)),
    ensures
        becomes(raw(Line::Quote(ps)), done(Line::Quote(ps))),
{
    let front = seq![' '];
    let some = with_front(front, ps);
    lemma_with_front(front, ps);
    let all = seq![Part::Sign('>')] + some;
    lemma_prepend(Part::Sign('>'), some);
    let line = raw(Line::Quote(ps));
    assert forall|k: int| 0 <= k <= 2 implies #[trigger] phrases::line(all, k) == seq!['>', ' ']
        + phrases::line(ps, k) by {
        lemma_first_part(Part::Sign('>'), some, k);
        assert(phrases::line(some, k) == front + phrases::line(ps, k));
        assert(phrases::line(all, k) == seq!['>', ' '] + phrases::line(ps, k));
    }
    assert(phrases::line(all, 0) == line);
    let mid = phrases::line(all, 1);
    assert(mid == seq!['>', ' '] + phrases::line(ps, 1));
    phrases::lemma_inline_line(all);
    phrases::lemma_wrap_line(all);
    lemma_parts_single(all, 0);
    lemma_parts_single(all, 1);
    lemma_no_opening(line);
    lemma_no_opening(mid);
    lemma_no_row(mid);
    lemma_no_item(mid);
    lemma_other_first(line);
    assert(text::trim_start(line) == line);
    assert(!document::is_header(line));
    let w = phrases::line(all, 2);
    assert(w == seq!['>', ' '] + phrases::line(ps, 2));
    phrases::lemma_escape_parts(all, 1);
    assert(all.take(1) == seq![Part::Sign('>')]);
    lemma_first_part(Part::Sign('>'), Seq::empty(), 2);
    lemma_first_part(Part::Sign('>'), Seq::empty(), 3);
    assert(seq![Part::Sign('>')] + Seq::<Part>::empty() == seq![Part::Sign('>')]);
    lemma_first_part(Part::Sign('>'), some, 3);
    assert(phrases::line(some, 3) == front + phrases::line(ps, 3));
    let shown = phrases::line(all, 3);
    let at = phrases::offset(all, 3, 1);
    assert(phrases::offset(all, 2, 1) == 1);
    assert(shown.skip(at) == front + phrases::line(ps, 3));
    assert(entities::escape_step(w, 0) == (seq!['>'], 1int));
    assert(entities::escape_line(w) == seq!['>'] + (front + phrases::line(ps, 3)));
    assert(seq!['>'] + (front + phrases::line(ps, 3)) == done(Line::Quote(ps)));
}

/// A header of the third level or below is a line of its own.
proof fn lemma_header(level: nat, t: Seq<char>)
    requires
        proper(Line::Header(level, t)),
    ensures
        becomes(raw(Line::Header(level, t)), done(Line::Header(level, t))),
{
    let h = constructs::hash_marks(level);
    let line = raw(Line::Header(level, t));
    let n = level as int;
    let out = seq!['*'] + t + seq!['*'];
    reveal_strlit("**");
    reveal_strlit("__");
    constructs::lemma_hashes(line, 0, n);
    assert(line.skip(0) == line);
    assert(line[0] == h[0]);
    assert(constructs::plain_char(t[0]));
    assert(line[n + 1] == t[0]);
    constructs::lemma_not_a_rule(line, n + 1);
    let rest = line.skip(n);
    assert(rest == seq![' '] + t);
    assert(text::trim_start(rest) == t) by {
        assert(rest.skip(1) == t);
        assert(text::trim_start(t) == t);
    }
    constructs::lemma_trim_keeps(t);
    constructs::lemma_no_pairs(t, "**"@);
    constructs::lemma_no_pairs(t, "__"@);
    constructs::lemma_plain_title(t);
    assert(document::plain_line(line) == out);
    assert forall|k: int| 0 <= k < line.len() implies #[trigger] line[k] != '\n' by {
        if k < n {
            assert(line[k] == h[k]);
        } else if k > n {
            assert(line[k] == t[k - n - 1]);
            assert(constructs::plain_char(t[k - n - 1]));
        }
    }
    lemma_no_opening(line);
    let ps = seq![Part::Bold(t)];
    assert(phrases::valid(ps)) by {
        assert(phrases::sound(ps[0]));
    }
    assert(phrases::line(ps.drop_last(), 1) == Seq::<char>::empty());
    assert(phrases::line(ps.drop_last(), 3) == Seq::<char>::empty());
    assert(phrases::line(ps.drop_last(), 2) == Seq::<char>::empty());
    assert(ps.drop_last() == Seq::<Part>::empty());
    assert(phrases::line(ps, 1) == out);
    assert(phrases::line(ps, 3) == out);
    phrases::lemma_wrap_line(ps);
    phrases::lemma_escape_line(ps);
    lemma_parts_single(ps, 1);
    lemma_beginning(ps, 1);
    lemma_no_opening(out);
    lemma_no_row(out);
}

/// A horizontal rule is a line of its own.
proof fn lemma_rule(c: char, a: nat, b: nat, rest: Seq<char>)
    requires
        proper(Line::Rule(c, a, b, rest)),
    ensures
        becomes(raw(Line::Rule(c, a, b, rest)), done(Line::Rule(c, a, b, rest))),
{
    let line = raw(Line::Rule(c, a, b, rest));
    let solid = |x: char| x != ' ';
    let one = seq![c];
    let t = lines::without_spaces(line);
    assert forall|k: int| 0 <= k < line.len() implies #[trigger] line[k] == c || line[k] == ' ' by {
        if k >= 3 + a + b {
            assert(line[k] == rest[k - 3 - a - b]);
        }
    }
    assert(line == one + (spaces(a) + (one + (spaces(b) + (one + rest)))));
    Seq::filter_distributes_over_add(one, spaces(a) + (one + (spaces(b) + (one + rest))), solid);
    Seq::filter_distributes_over_add(spaces(a), one + (spaces(b) + (one + rest)), solid);
    Seq::filter_distributes_over_add(one, spaces(b) + (one + rest), solid);
    Seq::filter_distributes_over_add(spaces(b), one + rest, solid);
    Seq::filter_distributes_over_add(one, rest, solid);
    assert(one.filter(solid).len() == 1) by {
        reveal(Seq::filter);
        assert(one.drop_last() == Seq::<char>::empty());
        assert(one.drop_last().filter(solid) == Seq::<char>::empty());
    }
    assert(t.len() >= 3);
    assert forall|i: int| 0 <= i < t.len() implies #[trigger] t[i] == c by {
        line.lemma_filter_pred(solid, i);
        assert(t.contains(t[i]));
        line.lemma_filter_contains_rev(solid, t[i]);
        let k = choose|k: int| 0 <= k < line.len() && line[k] == t[i];
        assert(line[k] == c || line[k] == ' ');
    }
    assert(t[0] == c);
    assert(line[0] == c);
    assert(text::trim_start(line) == line);
    assert(lines::horizontal_rule(line));
    lemma_no_opening(line);
    reveal_strlit("───────────────────────");
    let out = "───────────────────────"@;
    let ps = seq![Part::Words(out)];
    assert(phrases::wordy(out)) by {
        reveal_strlit("http://");
        reveal_strlit("https://");
        assert forall|i: int| 0 <= i < out.len() implies constructs::plain_char(
            #[trigger] out[i],
        ) by {}
        assert forall|i: int| #[trigger] constructs::no_address_at(out, i) by {
            if text::occurs_at(out, i, "http://"@) {
                assert(out.subrange(i, i + 7)[0] == 'h');
            }
            if text::occurs_at(out, i, "https://"@) {
                assert(out.subrange(i, i + 8)[0] == 'h');
            }
        }
    }
    assert(phrases::valid(ps)) by {
        assert(phrases::sound(ps[0]));
    }
    assert(ps.drop_last() == Seq::<Part>::empty());
    assert(phrases::line(ps.drop_last(), 1) == Seq::<char>::empty());
    assert(phrases::line(ps.drop_last(), 2) == Seq::<char>::empty());
    assert(phrases::line(ps.drop_last(), 3) == Seq::<char>::empty());
    assert(phrases::line(ps, 1) == out);
    assert(phrases::line(ps, 3) == out);
    phrases::lemma_wrap_line(ps);
    phrases::lemma_escape_line(ps);
    lemma_parts_single(ps, 1);
    lemma_no_opening(out);
    lemma_no_row(out);
}

/// An empty line stays empty.
pub proof fn lemma_empty()
    ensures
        becomes(Seq::empty(), Seq::empty()),
        document::plain_line(Seq::empty()) == Seq::<char>::empty(),
{
    let none = Seq::<char>::empty();
    reveal_strlit("```");
    reveal_strlit("~~~");
    reveal_strlit("- ");
    reveal_strlit("* ");
    reveal_strlit(". ");
    assert(text::trim_start(none) == none);
    assert(text::trim(none) == none);
    assert(lines::without_spaces(none).len() == 0) by {
        none.lemma_filter_len(|c: char| c != ' ');
    }
    text::lemma_find(none, ". "@, 0);
    assert(lines::list_item(none) == none);
    assert(spans::inline_line(none) == none);
    assert(document::plain_line(none) == none);
}

/// Each line of its kind becomes what it is in Slack's markup.
pub proof fn lemma_line(l: Line)
    requires
        proper(l),
        spaced(l),
    ensures
        becomes(raw(l), done(l)),
{
    match l {
        Line::Text(ps) => {
            lemma_text(ps);
        },
        Line::Bullet(n, mark, ps) => {
            lemma_bullet(n, mark, ps);
        },
        Line::Numbered(n, d, ps) => {
            lemma_numbered(n, d, ps);
        },
        Line::Quote(ps) => {
            lemma_quote(ps);
        },
        Line::Header(level, t) => {
            lemma_header(level, t);
        },
        Line::Rule(c, a, b, rest) => {
            lemma_rule(c, a, b, rest);
        },
        Line::Empty => {
            lemma_empty();
        },
    }
}

/// A line or a code block of a message.
pub enum Block {
    /// A line.
    Plain(Line),
    /// Code between fences of backticks: three or more, perhaps more behind the code
    /// than before it, indented each, with what stands behind the first fence.
    Ticked(nat, nat, Seq<char>, Seq<Seq<char>>, nat, nat),
    /// Code between fences of three tildes, indented each, with what stands behind
    /// the first fence.
    Tilded(nat, Seq<char>, Seq<Seq<char>>, nat),
}

/// Three tildes.
pub open spec fn tildes() -> Seq<char> {
    seq!['~', '~', '~']
}

/// The lines of the block in Markdown.
pub open spec fn raw_lines(b: Block) -> Seq<Seq<char>> {
    match b {
        Block::Plain(l) => seq![raw(l)],
        Block::Ticked(a, n, info, code, b, more) => seq![spaces(a) + (phrases::ticks(n) + info)]
            + code + seq![spaces(b) + phrases::ticks(n + more)],
        Block::Tilded(a, info, code, b) => seq![spaces(a) + (tildes() + info)] + code + seq![
            spaces(b) + tildes(),
        ],
    }
}

/// The lines of the block in Slack's markup: code is kept.
pub open spec fn done_lines(b: Block) -> Seq<Seq<char>> {
    match b {
        Block::Plain(l) => seq![done(l)],
        Block::Ticked(a, n, info, code, b, more) => seq![spaces(a) + (phrases::ticks(n) + info)]
            + code + seq![spaces(b) + phrases::ticks(n + more)],
        Block::Tilded(a, info, code, b) => seq![spaces(a) + (phrases::ticks(3) + info)] + code
            + seq![spaces(b) + phrases::ticks(3)],
    }
}

/// The line of code does not begin with the mark as many times as given, white
/// space aside.
pub open spec fn inner(line: Seq<char>, mark: char, n: int) -> bool {
    &&& messages::single(line)
    &&& fewer(text::trim_start(line), mark, n)
}

/// The text does not begin with the mark as many times as given.
pub open spec fn fewer(t: Seq<char>, mark: char, n: int) -> bool {
    exists|j: int| 0 <= j < n && #[trigger] ends_run(t, mark, j)
}

/// The mark does not stand at `j`.
pub open spec fn ends_run(t: Seq<char>, mark: char, j: int) -> bool {
    j >= t.len() || t[j] != mark
}

/// The marks at the start of a text end before the first other character.
pub proof fn lemma_leading_ends(t: Seq<char>, mark: char, j: int)
    requires
        0 <= j,
        ends_run(t, mark, j),
    ensures
        text::leading(t, mark) <= j,
    decreases j,
{
    if t.len() > 0 && t[0] == mark {
        let rest = t.skip(1);
        if j > 0 {
            assert(j < t.len() ==> rest[j - 1] == t[j]);
            lemma_leading_ends(rest, mark, j - 1);
        }
    }
}

/// The block is one of its kind.
pub open spec fn proper_block(b: Block) -> bool {
    match b {
        Block::Plain(l) => proper(l),
        Block::Ticked(_, n, info, code, _, _) => n >= 3 && messages::single(info)
            && !info.contains('`') && (forall|k: int|
            0 <= k < code.len() ==> inner(#[trigger] code[k], '`', n as int)),
        Block::Tilded(_, info, code, _) => messages::single(info) && (info.len() > 0 ==> info[0]
            != '~') && (forall|k: int| 0 <= k < code.len() ==> inner(#[trigger] code[k], '~', 3)),
    }
}

/// No letter and no digit stands right next to an underscored part.
pub open spec fn spaced_block(b: Block) -> bool {
    b matches Block::Plain(l) ==> spaced(l)
}

/// The lines of the message in Markdown.
pub open spec fn all_raw(bs: Seq<Block>) -> Seq<Seq<char>>
    decreases bs.len(),
{
    if bs.len() == 0 {
        Seq::empty()
    } else {
        all_raw(bs.drop_last()) + raw_lines(bs.last())
    }
}

/// The lines of the message in Slack's markup.
pub open spec fn all_done(bs: Seq<Block>) -> Seq<Seq<char>>
    decreases bs.len(),
{
    if bs.len() == 0 {
        Seq::empty()
    } else {
        all_done(bs.drop_last()) + done_lines(bs.last())
    }
}

/// The block in which a line stands depends on the lines before it.
proof fn lemma_block_before(a: Seq<Seq<char>>, b: Seq<Seq<char>>, k: int)
    requires
        0 <= k <= a.len(),
    ensures
        document::block(a + b, k) == document::block(a, k),
    decreases k,
{
    if k > 0 {
        lemma_block_before(a, b, k - 1);
        assert((a + b)[k - 1] == a[k - 1]);
    }
}

/// Line `k` of a message becomes the given line, as a line of code or by itself.
pub open spec fn ends_as(ls: Seq<Seq<char>>, k: int, out: Seq<char>) -> bool {
    &&& messages::single(ls[k])
    &&& document::code_line(ls, k) ==> document::converted(ls, k) == out
    &&& !document::code_line(ls, k) ==> becomes(ls[k], out)
}

/// A fence of backticks.
pub proof fn lemma_tick_fence(n: nat, info: Seq<char>)
    requires
        n >= 3,
        messages::single(info),
        !info.contains('`'),
    ensures
        ({
            let line = phrases::ticks(n) + info;
            &&& messages::single(line)
            &&& document::opening(line) == Some(Fence::Backticks)
            &&& document::fence_of(line) == Some(Fence::Backticks)
            &&& document::fence_len(line, Fence::Backticks) == n
            &&& document::slack_fence(line) == line
        }),
{
    reveal_strlit("```");
    reveal_strlit("~~~");
    let line = phrases::ticks(n) + info;
    assert(line[0] == '`' && line[1] == '`' && line[2] == '`');
    assert(text::trim_start(line) == line);
    assert(line.subrange(0, 3) == "```"@);
    if text::starts_with(line, "~~~"@) {
        assert(line.subrange(0, 3)[0] == '~');
    }
    assert forall|k: int| n <= k < line.len() implies #[trigger] line[k] != '`' by {
        assert(line[k] == info[k - n]);
        assert(info.contains(info[k - n]));
    }
    assert forall|k: int| 0 <= k < n implies #[trigger] line[k] == '`' by {}
    crate::mrkdwn::ticks::lemma_run_is(line, 0, n as int);
    text::lemma_find_char(line, '`', n as int);
    lemma_leading(line, '`', n);
}

/// The number of marks at the start of a line.
proof fn lemma_leading(s: Seq<char>, c: char, n: nat)
    requires
        n <= s.len(),
        forall|k: int| 0 <= k < n ==> #[trigger] s[k] == c,
        n < s.len() ==> s[n as int] != c,
    ensures
        text::leading(s, c) == n,
    decreases n,
{
    if n > 0 {
        let rest = s.skip(1);
        assert(s[0] == c);
        assert forall|k: int| 0 <= k < n - 1 implies #[trigger] rest[k] == c by {
            assert(rest[k] == s[k + 1]);
        }
        lemma_leading(rest, c, (n - 1) as nat);
    }
}

/// A fence of tildes.
proof fn lemma_tilde_fence(info: Seq<char>)
    requires
        messages::single(info),
        info.len() > 0 ==> info[0] != '~',
    ensures
        ({
            let line = tildes() + info;
            &&& messages::single(line)
            &&& document::opening(line) == Some(Fence::Tildes)
            &&& document::fence_of(line) == Some(Fence::Tildes)
            &&& document::fence_len(line, Fence::Tildes) == 3
            &&& document::slack_fence(line) == phrases::ticks(3) + info
        }),
{
    reveal_strlit("```");
    reveal_strlit("~~~");
    let line = tildes() + info;
    assert(line[0] == '~' && line[1] == '~' && line[2] == '~');
    assert(text::trim_start(line) == line);
    assert(line.subrange(0, 3) == "~~~"@);
    if text::starts_with(line, "```"@) {
        assert(line.subrange(0, 3)[0] == '`');
    }
    assert(line.len() > 3 ==> line[3] == info[0]);
    lemma_leading(line, '~', 3);
    assert("```"@ == phrases::ticks(3));
    assert(text::find(line, "~~~"@, 0) == Some(0int));
    assert(line.take(0) + "```"@ + line.skip(3) == phrases::ticks(3) + info);
}

/// An indented fence of backticks.
proof fn lemma_indented_ticks(a: nat, n: nat, info: Seq<char>)
    requires
        n >= 3,
        messages::single(info),
        !info.contains('`'),
    ensures
        ({
            let line = spaces(a) + (phrases::ticks(n) + info);
            &&& messages::single(line)
            &&& document::opening(line) == Some(Fence::Backticks)
            &&& document::fence_of(line) == Some(Fence::Backticks)
            &&& document::fence_len(line, Fence::Backticks) == n
            &&& document::slack_fence(line) == line
        }),
{
    let fence = phrases::ticks(n) + info;
    let line = spaces(a) + fence;
    lemma_tick_fence(n, info);
    assert(fence[0] == '`');
    lemma_indented(spaces(a), fence);
    lemma_indented(spaces(0), fence);
    assert(spaces(0) + fence == fence);
    lemma_single_both(spaces(a), fence);
    reveal_strlit("~~~");
    if text::starts_with(fence, "~~~"@) {
        assert(fence.subrange(0, 3)[0] == '~');
    }
}

/// An indented fence of tildes.
proof fn lemma_indented_tildes(a: nat, info: Seq<char>)
    requires
        messages::single(info),
        info.len() > 0 ==> info[0] != '~',
    ensures
        ({
            let line = spaces(a) + (tildes() + info);
            &&& messages::single(line)
            &&& document::opening(line) == Some(Fence::Tildes)
            &&& document::fence_of(line) == Some(Fence::Tildes)
            &&& document::fence_len(line, Fence::Tildes) == 3
            &&& document::slack_fence(line) == spaces(a) + (phrases::ticks(3) + info)
        }),
{
    let fence = tildes() + info;
    let line = spaces(a) + fence;
    lemma_tilde_fence(info);
    assert(fence[0] == '~');
    lemma_indented(spaces(a), fence);
    lemma_indented(spaces(0), fence);
    assert(spaces(0) + fence == fence);
    lemma_single_both(spaces(a), fence);
    reveal_strlit("```");
    reveal_strlit("~~~");
    let n = a as int;
    assert(line.subrange(n, n + 3) == "~~~"@);
    text::lemma_find(line, "~~~"@, 0);
    let k = text::find(line, "~~~"@, 0)->0;
    assert(text::occurs_at(line, n, "~~~"@));
    assert(line.subrange(k, k + 3)[0] == line[k]);
    if k < n {
        assert(line[k] == ' ');
    }
    assert(fence.subrange(0, 3) == "~~~"@);
    assert("```"@ == phrases::ticks(3));
    assert(line.take(n) + "```"@ + line.skip(n + 3) == spaces(a) + (phrases::ticks(3) + info));
}

/// A line of code closes no block.
proof fn lemma_inner(line: Seq<char>, f: Fence, n: int)
    requires
        inner(line, document::fence_mark(f), n),
    ensures
        !document::closes(line, f, n),
{
    let t = text::trim_start(line);
    let mark = document::fence_mark(f);
    let j = choose|j: int| 0 <= j < n && #[trigger] ends_run(t, mark, j);
    lemma_leading_ends(t, mark, j);
}

/// The lines of a code block behind others.
proof fn lemma_code_block(
    front: Seq<Seq<char>>,
    open: Seq<char>,
    code: Seq<Seq<char>>,
    close: Seq<char>,
    f: Fence,
    n: int,
    k: int,
)
    requires
        document::block(front, front.len() as int) is None,
        document::opening(open) == Some(f),
        document::fence_len(open, f) == n,
        document::fence_of(close) == Some(f),
        document::fence_len(close, f) >= n,
        forall|i: int|
            0 <= i < code.len() ==> inner(#[trigger] code[i], document::fence_mark(f), n),
        0 <= k <= code.len(),
    ensures
        ({
            let ls = front + (seq![open] + code + seq![close]);
            document::block(ls, front.len() + 1 + k) == Some((f, n))
        }),
    decreases k,
{
    let own = seq![open] + code + seq![close];
    let ls = front + own;
    let m = front.len() as int;
    lemma_block_before(front, own, m);
    if k == 0 {
        assert(ls[m] == own[0]);
        assert(ls[m] == open);
    } else {
        lemma_code_block(front, open, code, close, f, n, k - 1);
        assert(ls[m + k] == own[k]);
        assert(own[k] == code[k - 1]);
        lemma_inner(code[k - 1], f, n);
    }
}

/// The lines of a code block become what they are in Slack's markup.
proof fn lemma_code_lines(
    front: Seq<Seq<char>>,
    open: Seq<char>,
    code: Seq<Seq<char>>,
    close: Seq<char>,
    f: Fence,
    n: int,
    k: int,
)
    requires
        document::block(front, front.len() as int) is None,
        document::opening(open) == Some(f),
        document::fence_len(open, f) == n,
        document::fence_of(close) == Some(f),
        document::fence_len(close, f) >= n,
        forall|i: int|
            0 <= i < code.len() ==> inner(#[trigger] code[i], document::fence_mark(f), n),
        0 <= k < code.len() + 2,
    ensures
        ({
            let ls = front + (seq![open] + code + seq![close]);
            let m = front.len() as int;
            &&& document::code_line(ls, m + k)
            &&& document::converted(ls, m + k) == if k == 0 {
                document::slack_fence(open)
            } else if k <= code.len() {
                code[k - 1]
            } else {
                document::slack_fence(close)
            }
            &&& document::block(ls, ls.len() as int) is None
        }),
{
    let own = seq![open] + code + seq![close];
    let ls = front + own;
    let m = front.len() as int;
    lemma_block_before(front, own, m);
    assert(ls[m] == own[0]);
    let c = code.len() as int;
    lemma_code_block(front, open, code, close, f, n, c);
    assert(ls[m + 1 + c] == own[1 + c]);
    assert(own[1 + c] == close);
    if 0 < k <= c {
        lemma_code_block(front, open, code, close, f, n, k - 1);
        assert(ls[m + k] == own[k]);
        assert(own[k] == code[k - 1]);
        lemma_inner(code[k - 1], f, n);
    }
}

/// Each line of a message becomes what it is in Slack's markup.
#[verifier::rlimit(30)]
proof fn lemma_all_lines(bs: Seq<Block>)
    requires
        forall|j: int| 0 <= j < bs.len() ==> proper_block(#[trigger] bs[j]),
        forall|j: int| 0 <= j < bs.len() ==> spaced_block(#[trigger] bs[j]),
    ensures
        all_raw(bs).len() == all_done(bs).len(),
        document::block(all_raw(bs), all_raw(bs).len() as int) is None,
        forall|k: int|
            0 <= k < all_raw(bs).len() ==> #[trigger] ends_as(all_raw(bs), k, all_done(bs)[k]),
    decreases bs.len(),
{
    if bs.len() > 0 {
        let b = bs.last();
        assert(b == bs[bs.len() - 1]);
        let before = bs.drop_last();
        assert forall|j: int| 0 <= j < before.len() implies proper_block(
            #[trigger] before[j],
        ) by {
            assert(proper_block(bs[j]));
        }
        assert forall|j: int| 0 <= j < before.len() implies spaced_block(
            #[trigger] before[j],
        ) by {
            assert(spaced_block(bs[j]));
        }
        lemma_all_lines(before);
        let front = all_raw(before);
        let ls = all_raw(bs);
        let out = all_done(bs);
        let m = front.len() as int;
        assert(proper_block(b) && spaced_block(b));
        lemma_own_lines(front, b);
        assert forall|k: int| 0 <= k < ls.len() implies #[trigger] ends_as(ls, k, out[k]) by {
            if k < m {
                assert(ends_as(front, k, all_done(before)[k]));
                lemma_block_before(front, raw_lines(b), k);
                assert(ls[k] == front[k]);
                assert(out[k] == all_done(before)[k]);
            } else {
                assert(ends_as(front + raw_lines(b), m + (k - m), done_lines(b)[k - m]));
                assert(out[k] == done_lines(b)[k - m]);
            }
        }
    }
}

/// The lines of one block behind others.
proof fn lemma_own_lines(front: Seq<Seq<char>>, b: Block)
    requires
        document::block(front, front.len() as int) is None,
        proper_block(b),
        spaced_block(b),
    ensures
        raw_lines(b).len() == done_lines(b).len(),
        ({
            let ls = front + raw_lines(b);
            &&& document::block(ls, ls.len() as int) is None
            &&& forall|k: int|
                0 <= k < raw_lines(b).len() ==> #[trigger] ends_as(
                    ls,
                    front.len() + k,
                    done_lines(b)[k],
                )
        }),
{
    let ls = front + raw_lines(b);
    let m = front.len() as int;
    match b {
        Block::Plain(l) => {
            lemma_line(l);
            lemma_block_before(front, raw_lines(b), m);
            assert(ls[m] == raw(l));
            assert(done_lines(b)[0] == done(l));
            assert forall|k: int| 0 <= k < raw_lines(b).len() implies #[trigger] ends_as(
                ls,
                m + k,
                done_lines(b)[k],
            ) by {
                assert(k == 0);
            }
        },
        Block::Ticked(i, n, info, code, j, more) => {
            let none = Seq::<char>::empty();
            let close = spaces(j) + phrases::ticks(n + more);
            lemma_indented_ticks(i, n, info);
            lemma_indented_ticks(j, n + more, none);
            assert(phrases::ticks(n + more) + none == phrases::ticks(n + more));
            lemma_fenced(
                front,
                spaces(i) + (phrases::ticks(n) + info),
                code,
                close,
                Fence::Backticks,
                n as int,
                b,
            );
        },
        Block::Tilded(i, info, code, j) => {
            let none = Seq::<char>::empty();
            lemma_indented_tildes(i, info);
            lemma_indented_tildes(j, none);
            assert(tildes() + none == tildes());
            assert(phrases::ticks(3) + none == phrases::ticks(3));
            lemma_fenced(
                front,
                spaces(i) + (tildes() + info),
                code,
                spaces(j) + tildes(),
                Fence::Tildes,
                3,
                b,
            );
        },
    }
}

/// The lines of a code block behind others.
proof fn lemma_fenced(
    front: Seq<Seq<char>>,
    open: Seq<char>,
    code: Seq<Seq<char>>,
    close: Seq<char>,
    f: Fence,
    n: int,
    b: Block,
)
    requires
        document::block(front, front.len() as int) is None,
        document::opening(open) == Some(f),
        document::fence_len(open, f) == n,
        document::fence_of(close) == Some(f),
        document::fence_len(close, f) >= n,
        messages::single(open) && messages::single(close),
        forall|i: int|
            0 <= i < code.len() ==> inner(#[trigger] code[i], document::fence_mark(f), n),
        raw_lines(b) == seq![open] + code + seq![close],
        done_lines(b) == seq![document::slack_fence(open)] + code + seq![
            document::slack_fence(close),
        ],
    ensures
        ({
            let ls = front + raw_lines(b);
            &&& document::block(ls, ls.len() as int) is None
            &&& forall|k: int|
                0 <= k < raw_lines(b).len() ==> #[trigger] ends_as(
                    ls,
                    front.len() + k,
                    done_lines(b)[k],
                )
        }),
{
    let ls = front + raw_lines(b);
    let m = front.len() as int;
    lemma_code_lines(front, open, code, close, f, n, 0);
    assert forall|k: int| 0 <= k < raw_lines(b).len() implies #[trigger] ends_as(
        ls,
        m + k,
        done_lines(b)[k],
    ) by {
        lemma_code_lines(front, open, code, close, f, n, k);
        assert(ls[m + k] == raw_lines(b)[k]);
        if 0 < k <= code.len() {
            assert(raw_lines(b)[k] == code[k - 1]);
            assert(done_lines(b)[k] == code[k - 1]);
            assert(inner(code[k - 1], document::fence_mark(f), n));
        }
    }
}

/// A number of line feeds.
pub open spec fn line_feeds(n: nat) -> Seq<char> {
    Seq::new(n, |i: int| '\n')
}

/// The line is not empty in Slack's markup.
pub proof fn lemma_done_not_empty(b: Block)
    requires
        proper_block(b),
        b != Block::Plain(Line::Empty),
    ensures
        done_lines(b).len() > 0,
        done_lines(b).last().len() > 0,
        raw_lines(b).last().len() > 0,
{
    reveal_strlit("───────────────────────");
    match b {
        Block::Plain(Line::Text(ps)) => {
            lemma_parts_not_empty(ps, 0);
            lemma_parts_not_empty(ps, 3);
        },
        _ => {},
    }
}

proof fn lemma_parts_not_empty(ps: Seq<Part>, k: int)
    requires
        lettering(ps),
    ensures
        phrases::line(ps, k).len() > 0,
{
    assert(phrases::sound(ps[0]));
    phrases::lemma_neighbours(ps, k, 0);
    phrases::lemma_part_at(ps, k, 0);
}

/// Line feeds at the end are dropped.
pub proof fn lemma_feeds_dropped(x: Seq<char>, n: nat)
    requires
        x.len() > 0 ==> x.last() != '\n',
    ensures
        document::trim_end_newlines(x + line_feeds(n)) == x,
    decreases n,
{
    let s = x + line_feeds(n);
    if n > 0 {
        lemma_feeds_dropped(x, (n - 1) as nat);
        assert(s[s.len() - 1] == '\n');
        assert(s.take(s.len() - 1) == x + line_feeds((n - 1) as nat));
    } else {
        assert(s == x);
    }
}

/// A message of lines and code blocks becomes the message of what each of them
/// is in Slack's markup, in order. Code blocks are kept, but for fences of
/// tildes; line feeds at the end are dropped. Where something is underscored,
/// this holds as far as no letter and no digit stands next to it.
pub proof fn law_messages_are_converted_line_by_line(bs: Seq<Block>, trailing: nat)
    requires
        bs.len() > 0,
        forall|j: int| 0 <= j < bs.len() ==> proper_block(#[trigger] bs[j]),
        bs.last() != Block::Plain(Line::Empty),
    ensures
        (forall|j: int| 0 <= j < bs.len() ==> spaced_block(#[trigger] bs[j])) ==> document::mrkdwn(
            text::join(all_raw(bs), seq!['\n']) + line_feeds(trailing),
        ) == text::join(all_done(bs), seq!['\n']),
{
    if forall|j: int| 0 <= j < bs.len() ==> spaced_block(#[trigger] bs[j]) {
        let more = with_empties(bs, trailing);
        lemma_with_empties(bs, trailing);
        lemma_all_lines(more);
        let ls = all_raw(more);
        let sep = "\n"@;
        laws::lemma_line_feed();
        assert forall|k: int| 0 <= k < ls.len() implies messages::single(#[trigger] ls[k])
            && messages::even_line(ls, k) by {
            assert(ends_as(ls, k, all_done(more)[k]));
        }
        assert(proper_block(bs[bs.len() - 1]));
        lemma_done_not_empty(bs.last());
        let s = text::join(ls, sep);
        lemma_split_joined(ls);
        messages::lemma_final_parts(ls, 0);
        let fs = messages::final_lines(ls);
        assert(fs == all_done(more)) by {
            assert forall|k: int| 0 <= k < ls.len() implies fs[k] == all_done(more)[k] by {
                assert(ends_as(ls, k, all_done(more)[k]));
            }
        }
        assert(fs.skip(0) == fs);
        lemma_ends_well(bs);
        lemma_feeds_dropped(text::join(all_done(bs), sep), trailing);
        assert(s.len() > 0);
    }
}

/// The lines of joined lines are these.
proof fn lemma_split_joined(ls: Seq<Seq<char>>)
    requires
        ls.len() > 0,
        forall|k: int| 0 <= k < ls.len() ==> messages::single(#[trigger] ls[k]),
    ensures
        text::split(text::join(ls, "\n"@), '\n') == ls,
{
    laws::lemma_line_feed();
    assert forall|k: int| 0 <= k < ls.len() implies !(#[trigger] ls[k]).contains('\n') by {
        assert(messages::single(ls[k]));
    }
    laws::law_split_undoes_join(ls, '\n');
}

/// The message with empty lines at its end.
spec fn with_empties(bs: Seq<Block>, n: nat) -> Seq<Block>
    decreases n,
{
    if n == 0 {
        bs
    } else {
        with_empties(bs, (n - 1) as nat).push(Block::Plain(Line::Empty))
    }
}

/// Empty lines at the end are line feeds.
proof fn lemma_with_empties(bs: Seq<Block>, n: nat)
    requires
        bs.len() > 0,
        forall|j: int| 0 <= j < bs.len() ==> proper_block(#[trigger] bs[j]),
        forall|j: int| 0 <= j < bs.len() ==> spaced_block(#[trigger] bs[j]),
    ensures
        ({
            let more = with_empties(bs, n);
            &&& more.len() >= bs.len()
            &&& forall|j: int| 0 <= j < more.len() ==> proper_block(#[trigger] more[j])
            &&& forall|j: int| 0 <= j < more.len() ==> spaced_block(#[trigger] more[j])
            &&& all_raw(more).len() > 0 && all_done(more).len() > 0
            &&& text::join(all_raw(more), "\n"@) == text::join(all_raw(bs), "\n"@) + line_feeds(n)
            &&& text::join(all_done(more), "\n"@) == text::join(all_done(bs), "\n"@) + line_feeds(
                n,
            )
        }),
    decreases n,
{
    let more = with_empties(bs, n);
    let sep = "\n"@;
    laws::lemma_line_feed();
    if n == 0 {
        lemma_some_lines(bs);
        assert(text::join(all_raw(bs), sep) + line_feeds(0) == text::join(all_raw(bs), sep));
        assert(text::join(all_done(bs), sep) + line_feeds(0) == text::join(all_done(bs), sep));
    } else {
        let b = (n - 1) as nat;
        let fewer = with_empties(bs, b);
        lemma_with_empties(bs, b);
        assert(more.drop_last() == fewer);
        assert forall|j: int| 0 <= j < more.len() implies proper_block(#[trigger] more[j]) by {
            if j < fewer.len() {
                assert(proper_block(fewer[j]));
            }
        }
        assert forall|j: int| 0 <= j < more.len() implies spaced_block(#[trigger] more[j]) by {
            if j < fewer.len() {
                assert(spaced_block(fewer[j]));
            }
        }
        let none = seq![Seq::<char>::empty()];
        laws::lemma_join_runs(all_raw(fewer), none, sep);
        laws::lemma_join_runs(all_done(fewer), none, sep);
        reveal_with_fuel(text::join, 2);
        assert(text::join(none, sep) == Seq::<char>::empty());
        assert(line_feeds(b) + seq!['\n'] == line_feeds(n));
        assert(text::join(all_raw(more), sep) == text::join(all_raw(bs), sep) + line_feeds(n));
        assert(text::join(all_done(more), sep) == text::join(all_done(bs), sep) + line_feeds(n));
    }
}

proof fn lemma_some_lines(bs: Seq<Block>)
    requires
        bs.len() > 0,
    ensures
        all_raw(bs).len() > 0,
        all_done(bs).len() > 0,
{
}

/// A message whose last line is not empty ends with no line feed.
proof fn lemma_ends_well(bs: Seq<Block>)
    requires
        bs.len() > 0,
        forall|j: int| 0 <= j < bs.len() ==> proper_block(#[trigger] bs[j]),
        forall|j: int| 0 <= j < bs.len() ==> spaced_block(#[trigger] bs[j]),
        bs.last() != Block::Plain(Line::Empty),
    ensures
        ({
            let x = text::join(all_done(bs), "\n"@);
            x.len() > 0 && x.last() != '\n'
        }),
        text::join(all_raw(bs), "\n"@).len() > 0,
{
    let b = bs.last();
    assert(proper_block(bs[bs.len() - 1]));
    lemma_done_not_empty(b);
    let out = all_done(bs);
    let n = out.len() - 1;
    assert(out.last() == done_lines(b).last());
    lemma_done_single(b);
    let x = text::join(out, "\n"@);
    assert(x.last() == out.last().last());
    let ls = all_raw(bs);
    assert(ls.last() == raw_lines(b).last());
}

/// The last line of a block holds no line feed.
pub proof fn lemma_done_single(b: Block)
    requires
        proper_block(b),
    ensures
        messages::single(done_lines(b).last()),
{
    reveal_strlit("───────────────────────");
    match b {
        Block::Plain(Line::Text(ps)) => {
            lemma_parts_single(ps, 3);
        },
        Block::Plain(Line::Bullet(n, mark, ps)) => {
            lemma_parts_single(ps, 3);
            lemma_single_indent(n);
            lemma_single_both(n, seq!['•', ' ']);
            lemma_single_both(n + seq!['•', ' '], phrases::line(ps, 3));
        },
        Block::Plain(Line::Numbered(n, d, ps)) => {
            lemma_parts_single(ps, 3);
            assert(messages::single(d)) by {
                assert forall|k: int| 0 <= k < d.len() implies #[trigger] d[k] != '\n' by {
                    assert('0' <= d[k] <= '9');
                }
            }
            lemma_single_indent(n);
            lemma_single_both(n, d);
            lemma_single_both(n + d, seq!['.', ' ', ' ']);
            lemma_single_both(n + d + seq!['.', ' ', ' '], phrases::line(ps, 3));
        },
        Block::Plain(Line::Quote(ps)) => {
            lemma_parts_single(ps, 3);
            lemma_single_both(seq!['>', ' '], phrases::line(ps, 3));
        },
        Block::Plain(Line::Header(level, t)) => {
            lemma_plain_single(t);
            lemma_single_both(seq!['*'], t);
            lemma_single_both(seq!['*'] + t, seq!['*']);
        },
        _ => {},
    }
}

proof fn lemma_single_indent(n: Seq<char>)
    requires
        indent(n),
    ensures
        messages::single(n),
{
    assert forall|k: int| 0 <= k < n.len() implies #[trigger] n[k] != '\n' by {
        assert(n[k] == ' ' || n[k] == '\t');
    }
}

proof fn lemma_single_both(a: Seq<char>, b: Seq<char>)
    requires
        messages::single(a),
        messages::single(b),
    ensures
        messages::single(a + b),
{
    assert forall|k: int| 0 <= k < (a + b).len() implies #[trigger] (a + b)[k] != '\n' by {
        if k < a.len() {
            assert((a + b)[k] == a[k]);
        } else {
            assert((a + b)[k] == b[k - a.len()]);
        }
    }
}

/// A code block that nothing closes goes on to the end of the message, and is
/// kept.
pub proof fn law_open_blocks_are_kept(
    bs: Seq<Block>,
    n: nat,
    info: Seq<char>,
    code: Seq<Seq<char>>,
    trailing: nat,
)
    requires
        forall|j: int| 0 <= j < bs.len() ==> proper_block(#[trigger] bs[j]),
        n >= 3 && messages::single(info) && !info.contains('`'),
        forall|k: int| 0 <= k < code.len() ==> inner(#[trigger] code[k], '`', n as int),
        code.len() > 0 ==> code.last().len() > 0,
    ensures
        (forall|j: int| 0 <= j < bs.len() ==> spaced_block(#[trigger] bs[j])) ==> document::mrkdwn(
            text::join(all_raw(bs) + seq![phrases::ticks(n) + info] + code, seq!['\n'])
                + line_feeds(trailing),
        ) == text::join(all_done(bs) + seq![phrases::ticks(n) + info] + code, seq!['\n']),
{
    if forall|j: int| 0 <= j < bs.len() ==> spaced_block(#[trigger] bs[j]) {
        let open = phrases::ticks(n) + info;
        let sep = "\n"@;
        laws::lemma_line_feed();
        let front = all_raw(bs);
        let none = Seq::<char>::empty();
        let tail = Seq::new(trailing, |k: int| Seq::<char>::empty());
        let longer = code + tail;
        let ls = front + (seq![open] + longer);
        let out = all_done(bs) + seq![open] + longer;
        lemma_tick_fence(n, info);
        assert forall|i: int| 0 <= i < longer.len() implies inner(
            #[trigger] longer[i],
            '`',
            n as int,
        ) by {
            if i < code.len() {
                assert(inner(code[i], '`', n as int));
            } else {
                assert(text::trim_start(none) == none);
                assert(ends_run(none, '`', 0));
            }
        }
        lemma_open_lines(bs, n, info, longer);
        lemma_open_finished(bs, n, info, longer);
        let short_raw = front + seq![open] + code;
        let short_done = all_done(bs) + seq![open] + code;
        assert(ls == short_raw + tail);
        assert(out == short_done + tail);
        lemma_feeds_added(short_raw, trailing);
        lemma_feeds_added(short_done, trailing);
        let x = text::join(short_done, sep);
        let last = short_done.last();
        if code.len() > 0 {
            assert(last == code[code.len() - 1]);
            assert(inner(code[code.len() - 1], '`', n as int));
        } else {
            assert(last == open);
        }
        assert(last.len() > 0 && messages::single(last));
        assert(x.last() == last.last());
        assert(last[last.len() - 1] != '\n');
        lemma_feeds_dropped(x, trailing);
        let y = text::join(short_raw, sep);
        assert(short_raw.last() == last);
        assert(y.len() > 0);
    }
}

/// A message that ends in a code block that nothing closes, line by line.
proof fn lemma_open_finished(bs: Seq<Block>, n: nat, info: Seq<char>, code: Seq<Seq<char>>)
    requires
        ({
            let open = phrases::ticks(n) + info;
            let ls = all_raw(bs) + (seq![open] + code);
            let out = all_done(bs) + seq![open] + code;
            &&& out.len() == ls.len()
            &&& forall|k: int| 0 <= k < ls.len() ==> #[trigger] ends_as(ls, k, out[k])
        }),
    ensures
        ({
            let open = phrases::ticks(n) + info;
            let ls = all_raw(bs) + (seq![open] + code);
            let out = all_done(bs) + seq![open] + code;
            let s = text::join(ls, "\n"@);
            s.len() > 0 ==> document::mrkdwn(s) == document::trim_end_newlines(
                text::join(out, "\n"@),
            )
        }),
{
    let open = phrases::ticks(n) + info;
    let ls = all_raw(bs) + (seq![open] + code);
    let out = all_done(bs) + seq![open] + code;
    assert forall|k: int| 0 <= k < ls.len() implies messages::single(#[trigger] ls[k])
        && messages::even_line(ls, k) by {
        assert(ends_as(ls, k, out[k]));
    }
    lemma_split_joined(ls);
    messages::lemma_final_parts(ls, 0);
    let fs = messages::final_lines(ls);
    assert(fs == out) by {
        assert forall|k: int| 0 <= k < ls.len() implies fs[k] == out[k] by {
            assert(ends_as(ls, k, out[k]));
        }
    }
    assert(fs.skip(0) == fs);
}

/// Each line of a message that ends in a code block that nothing closes.
proof fn lemma_open_lines(bs: Seq<Block>, n: nat, info: Seq<char>, code: Seq<Seq<char>>)
    requires
        forall|j: int| 0 <= j < bs.len() ==> proper_block(#[trigger] bs[j]),
        forall|j: int| 0 <= j < bs.len() ==> spaced_block(#[trigger] bs[j]),
        n >= 3 && messages::single(info) && !info.contains('`'),
        forall|k: int| 0 <= k < code.len() ==> inner(#[trigger] code[k], '`', n as int),
    ensures
        ({
            let open = phrases::ticks(n) + info;
            let ls = all_raw(bs) + (seq![open] + code);
            let out = all_done(bs) + seq![open] + code;
            &&& out.len() == ls.len()
            &&& forall|k: int| 0 <= k < ls.len() ==> #[trigger] ends_as(ls, k, out[k])
        }),
{
    let open = phrases::ticks(n) + info;
    let front = all_raw(bs);
    let own = seq![open] + code;
    let ls = front + own;
    let out = all_done(bs) + seq![open] + code;
    let m = front.len() as int;
    lemma_all_lines(bs);
    lemma_tick_fence(n, info);
    assert forall|k: int| 0 <= k < ls.len() implies #[trigger] ends_as(ls, k, out[k]) by {
        lemma_block_before(front, own, if k < m {
            k
        } else {
            m
        });
        if k < m {
            assert(ends_as(front, k, all_done(bs)[k]));
            assert(ls[k] == front[k]);
            assert(out[k] == all_done(bs)[k]);
        } else if k == m {
            assert(ls[k] == open);
            assert(out[k] == open);
        } else {
            let j = k - m - 1;
            lemma_open_block(front, open, code, n as int, j);
            assert(ls[k] == code[j]);
            assert(out[k] == code[j]);
            assert(inner(code[j], '`', n as int));
            lemma_inner(code[j], Fence::Backticks, n as int);
        }
    }
}

/// Empty lines behind lines are line feeds.
proof fn lemma_feeds_added(ls: Seq<Seq<char>>, n: nat)
    requires
        ls.len() > 0,
    ensures
        text::join(ls + Seq::new(n, |k: int| Seq::<char>::empty()), "\n"@) == text::join(ls, "\n"@)
            + line_feeds(n),
    decreases n,
{
    let none = Seq::<char>::empty();
    let tail = Seq::new(n, |k: int| none);
    laws::lemma_line_feed();
    if n > 0 {
        let b = (n - 1) as nat;
        let shorter = Seq::new(b, |k: int| none);
        lemma_feeds_added(ls, b);
        let all = ls + tail;
        assert(all.drop_last() == ls + shorter);
        assert(all.last() == none);
        assert(text::join(ls, "\n"@) + line_feeds(b) + seq!['\n'] + none == text::join(ls, "\n"@)
            + line_feeds(n));
    } else {
        assert(ls + tail == ls);
        assert(text::join(ls, "\n"@) + line_feeds(0) == text::join(ls, "\n"@));
    }
}

/// The lines of a code block that nothing closes.
proof fn lemma_open_block(
    front: Seq<Seq<char>>,
    open: Seq<char>,
    code: Seq<Seq<char>>,
    n: int,
    k: int,
)
    requires
        document::block(front, front.len() as int) is None,
        document::opening(open) == Some(Fence::Backticks),
        document::fence_len(open, Fence::Backticks) == n,
        forall|i: int| 0 <= i < code.len() ==> inner(#[trigger] code[i], '`', n),
        0 <= k <= code.len(),
    ensures
        document::block(front + (seq![open] + code), front.len() + 1 + k) == Some(
            (Fence::Backticks, n),
        ),
    decreases k,
{
    let own = seq![open] + code;
    let ls = front + own;
    let m = front.len() as int;
    lemma_block_before(front, own, m);
    if k == 0 {
        assert(ls[m] == own[0]);
    } else {
        lemma_open_block(front, open, code, n, k - 1);
        assert(ls[m + k] == own[k]);
        assert(own[k] == code[k - 1]);
        lemma_inner(code[k - 1], Fence::Backticks, n);
    }
}

} // verus!
