//! Lines made of words and constructs of Markdown in any order.

use vstd::prelude::*;
use crate::mrkdwn::brackets;
use crate::mrkdwn::constructs;
use crate::mrkdwn::entities;
use crate::mrkdwn::spans;
use crate::mrkdwn::urls;
use crate::outside;
use crate::text;

verus! {

/// A part of a line.
pub enum Part {
    /// Plain words.
    Words(Seq<char>),
    /// `**text**`
    Bold(Seq<char>),
    /// `***text***`
    BoldItalic(Seq<char>),
    /// `*text*`
    Italic(Seq<char>),
    /// `__text__`
    Underscored(Seq<char>),
    /// `~~text~~`
    Struck(Seq<char>),
    /// `[text](url)`
    Link(Seq<char>, Seq<char>),
    /// `[text](place)`, where the place is no web address.
    Relative(Seq<char>, Seq<char>),
    /// `![text](url)`
    Image(Seq<char>, Seq<char>),
    /// Code between as many backticks on either side.
    Code(nat, Seq<char>),
    /// A bare web address.
    Address(Seq<char>),
    /// A bare web address between quotation marks.
    Quoted(char, Seq<char>),
    /// A bare web address between brackets.
    Bracketed(char, Seq<char>, char),
    /// One of Slack's control characters.
    Sign(char),
    /// `<@user>`, `<#channel>` or `<!command>`
    Mention(char, Seq<char>),
    /// `<url|text>`
    Ready(Seq<char>, Seq<char>),
    /// `**text *text* text**`
    Nested(Seq<char>, Seq<char>, Seq<char>),
    /// `**text `code` text**`
    BoldCode(Seq<char>, nat, Seq<char>, Seq<char>),
    /// `[text](url "title")`
    Titled(Seq<char>, Seq<char>, char, Seq<char>),
    /// `[text]`
    Square(Seq<char>),
    /// `<mailto:address>` or `<mailto:address|text>`
    Mail(Seq<char>),
    /// A character of markup that makes none by itself.
    Lone(char),
    /// A character behind a backslash.
    Escaped(char),
    /// A star with a space behind it.
    Star,
}

/// The backticks around code.
pub open spec fn ticks(n: nat) -> Seq<char> {
    Seq::new(n, |i: int| '`')
}

/// A text between two others.
pub open spec fn around(a: Seq<char>, t: Seq<char>, b: Seq<char>) -> Seq<char> {
    a + t + b
}

/// What stands for a control character of Slack's.
pub open spec fn sign(c: char) -> Seq<char> {
    if c == '&' {
        seq!['&', 'a', 'm', 'p', ';']
    } else if c == '<' {
        seq!['&', 'l', 't', ';']
    } else if c == '>' {
        seq!['&', 'g', 't', ';']
    } else {
        seq![c]
    }
}

/// How a mail address in Slack's syntax begins.
pub open spec fn mail_to() -> Seq<char> {
    seq!['<', 'm', 'a', 'i', 'l', 't', 'o', ':']
}

/// The part in Markdown.
pub open spec fn written(p: Part) -> Seq<char> {
    match p {
        Part::Words(t) => t,
        Part::Bold(t) => around(seq!['*', '*'], t, seq!['*', '*']),
        Part::BoldItalic(t) => around(seq!['*', '*', '*'], t, seq!['*', '*', '*']),
        Part::Italic(t) => around(seq!['*'], t, seq!['*']),
        Part::Underscored(t) => around(seq!['_', '_'], t, seq!['_', '_']),
        Part::Struck(t) => around(seq!['~', '~'], t, seq!['~', '~']),
        Part::Link(t, u) => around(seq!['['], t, seq![']', '('] + u + seq![')']),
        Part::Relative(t, u) => around(seq!['['], t, seq![']', '('] + u + seq![')']),
        Part::Image(t, u) => around(seq!['!', '['], t, seq![']', '('] + u + seq![')']),
        Part::Code(n, t) => around(ticks(n), t, ticks(n)),
        Part::Address(u) => u,
        Part::Quoted(q, u) => around(seq![q], u, seq![q]),
        Part::Bracketed(o, u, c) => around(seq![o], u, seq![c]),
        Part::Sign(c) => seq![c],
        Part::Mention(m, id) => around(seq!['<', m], id, seq!['>']),
        Part::Ready(u, t) => around(seq!['<'] + u + seq!['|'], t, seq!['>']),
        Part::Nested(x, t, y) => around(
            seq!['*', '*'],
            around(x, around(seq!['*'], t, seq!['*']), y),
            seq!['*', '*'],
        ),
        Part::BoldCode(x, n, c, y) => around(
            seq!['*', '*'],
            around(x, around(ticks(n), c, ticks(n)), y),
            seq!['*', '*'],
        ),
        Part::Titled(t, u, q, title) => around(
            seq!['['],
            t,
            seq![']', '('] + (u + seq![' ', q] + title + seq![q]) + seq![')'],
        ),
        Part::Square(t) => around(seq!['['], t, seq![']']),
        Part::Mail(t) => around(mail_to(), t, seq!['>']),
        Part::Lone(c) => seq![c],
        Part::Escaped(c) => seq!['\\', c],
        Part::Star => seq!['*'],
    }
}

/// The part in Slack's markup.
pub open spec fn shown(p: Part) -> Seq<char> {
    match p {
        Part::Words(t) => t,
        Part::Bold(t) => around(seq!['*'], t, seq!['*']),
        Part::BoldItalic(t) => around(seq!['*', '_'], t, seq!['_', '*']),
        Part::Italic(t) => around(seq!['_'], t, seq!['_']),
        Part::Underscored(t) => around(seq!['*'], t, seq!['*']),
        Part::Struck(t) => around(seq!['~'], t, seq!['~']),
        Part::Link(t, u) => around(seq!['<'] + u + seq!['|'], t, seq!['>']),
        Part::Relative(t, u) => t,
        Part::Image(t, u) => around(seq!['<'], u, seq!['>']),
        Part::Code(n, t) => around(ticks(n), t, ticks(n)),
        Part::Address(u) => around(seq!['<'], u, seq!['>']),
        Part::Quoted(q, u) => around(seq![q, '<'], u, seq!['>', q]),
        Part::Bracketed(o, u, c) => around(seq![o, '<'], u, seq!['>', c]),
        Part::Sign(c) => sign(c),
        Part::Mention(m, id) => around(seq!['<', m], id, seq!['>']),
        Part::Ready(u, t) => around(seq!['<'] + u + seq!['|'], t, seq!['>']),
        Part::Nested(x, t, y) => around(
            seq!['*'],
            around(x, around(seq!['_'], t, seq!['_']), y),
            seq!['*'],
        ),
        Part::BoldCode(x, n, c, y) => around(
            seq!['*'],
            around(x, around(ticks(n), c, ticks(n)), y),
            seq!['*'],
        ),
        Part::Titled(t, u, _, _) => around(seq!['<'] + u + seq!['|'], t, seq!['>']),
        Part::Square(t) => around(seq!['['], t, seq![']']),
        Part::Mail(t) => around(mail_to(), t, seq!['>']),
        Part::Lone(c) => seq![c],
        Part::Escaped(c) => sign(c),
        Part::Star => seq!['*'],
    }
}

/// The part after the pass on inline constructs.
pub open spec fn formatted(p: Part) -> Seq<char> {
    match p {
        Part::Address(u) => u,
        Part::Quoted(q, u) => around(seq![q], u, seq![q]),
        Part::Bracketed(o, u, c) => around(seq![o], u, seq![c]),
        Part::Sign(c) => seq![c],
        Part::Escaped(c) => seq![c],
        _ => shown(p),
    }
}

/// The part after the pass on web addresses.
pub open spec fn wrapped(p: Part) -> Seq<char> {
    match p {
        Part::Sign(c) => seq![c],
        Part::Escaped(c) => seq![c],
        _ => shown(p),
    }
}

/// The part after the given number of passes.
pub open spec fn form(p: Part, k: int) -> Seq<char> {
    if k == 0 {
        written(p)
    } else if k == 1 {
        formatted(p)
    } else if k == 2 {
        wrapped(p)
    } else {
        shown(p)
    }
}

/// The text has no markup and no web address.
pub open spec fn wordy(t: Seq<char>) -> bool {
    &&& t.len() > 0
    &&& forall|i: int| 0 <= i < t.len() ==> constructs::plain_char(#[trigger] t[i])
    &&& forall|i: int| #[trigger] constructs::no_address_at(t, i)
}

/// The character can stand in emphasis as it is.
pub open spec fn inner_char(c: char) -> bool {
    constructs::plain_char(c) || c == '*' || c == '_' || c == '~' || c == '[' || c == ']' || c
        == '(' || c == ')' || c == '!' || c == '#' || c == '|' || c == '\\'
}

/// The text can stand between marks of emphasis. Markup in it is kept as it is.
pub open spec fn held(t: Seq<char>, mark: char) -> bool {
    &&& t.len() > 0
    &&& constructs::plain_char(t[0])
    &&& forall|i: int| 0 <= i < t.len() ==> inner_char(#[trigger] t[i]) && t[i] != mark
    &&& forall|i: int| #[trigger] constructs::no_address_at(t, i)
}

/// Words can stand between marks of emphasis.
proof fn lemma_held(t: Seq<char>, mark: char)
    requires
        wordy(t),
        mark == '*' || mark == '_' || mark == '~',
    ensures
        held(t, mark),
{
    assert(constructs::plain_char(t[0]));
    assert forall|i: int| 0 <= i < t.len() implies inner_char(#[trigger] t[i]) && t[i] != mark by {
        assert(constructs::plain_char(t[i]));
    }
}

/// The text can stand in a link as it is.
pub open spec fn label(t: Seq<char>) -> bool {
    t.len() > 0 && forall|i: int| 0 <= i < t.len() ==> label_char(#[trigger] t[i])
}

/// The character can stand in a link as it is.
pub open spec fn label_char(c: char) -> bool {
    c != ']' && c != '`' && c != '>' && c != '\n'
}

/// Words can stand in a link.
proof fn lemma_label(t: Seq<char>)
    requires
        constructs::plain_text(t),
    ensures
        label(t),
{
    assert forall|i: int| 0 <= i < t.len() implies label_char(#[trigger] t[i]) by {
        assert(constructs::plain_char(t[i]));
    }
}

/// The place of a link that is no web address.
pub open spec fn place(u: Seq<char>) -> bool {
    &&& u.len() > 0
    &&& forall|i: int| 0 <= i < u.len() ==> constructs::address_char(#[trigger] u[i])
    &&& !web(u)
}

/// The text begins with `http://` or `https://`.
pub open spec fn web(u: Seq<char>) -> bool {
    (exists|rest: Seq<char>| u == seq!['h', 't', 't', 'p', ':', '/', '/'] + rest) || (exists|
        rest: Seq<char>,
    | u == seq!['h', 't', 't', 'p', 's', ':', '/', '/'] + rest)
}

/// A web address that can stand in a link.
pub open spec fn address(u: Seq<char>) -> bool {
    web(u) && forall|i: int| 0 <= i < u.len() ==> constructs::address_char(#[trigger] u[i])
}

/// A web address as contracts speak of it.
pub proof fn lemma_web(u: Seq<char>)
    ensures
        web(u) == spans::web_address(u),
        web(u) == urls::address_at(u, 0),
        web(u) ==> u.len() >= 7 && u[0] == 'h',
{
    reveal_strlit("http://");
    reveal_strlit("https://");
    let a = seq!['h', 't', 't', 'p', ':', '/', '/'];
    let b = seq!['h', 't', 't', 'p', 's', ':', '/', '/'];
    assert("http://"@ == a);
    assert("https://"@ == b);
    if text::occurs_at(u, 0, a) {
        assert(u == u.subrange(0, 7) + u.skip(7));
    }
    if text::occurs_at(u, 0, b) {
        assert(u == u.subrange(0, 8) + u.skip(8));
    }
    if exists|rest: Seq<char>| u == a + rest {
        let rest = choose|rest: Seq<char>| u == a + rest;
        assert(u.subrange(0, 7) == a);
    }
    if exists|rest: Seq<char>| u == b + rest {
        let rest = choose|rest: Seq<char>| u == b + rest;
        assert(u.subrange(0, 8) == b);
    }
}

/// A web address of plain characters.
pub open spec fn plain_address(u: Seq<char>) -> bool {
    &&& address(u)
    &&& forall|i: int| 0 <= i < u.len() ==> constructs::plain_char(#[trigger] u[i])
}

/// The part can stand in a line.
pub open spec fn sound(p: Part) -> bool {
    match p {
        Part::Words(t) => wordy(t),
        Part::Bold(t) => held(t, '*'),
        Part::BoldItalic(t) => held(t, '*'),
        Part::Italic(t) => held(t, '*') && !text::white_space(t[0]) && !text::white_space(
            t.last(),
        ),
        Part::Underscored(t) => held(t, '_'),
        Part::Struck(t) => held(t, '~'),
        Part::Link(t, u) => label(t) && address(u),
        Part::Relative(t, u) => constructs::plain_text(t) && place(u),
        Part::Image(t, u) => label(t) && address(u),
        Part::Code(n, t) => n > 0 && t.len() > 0 && !t.contains('`') && !t.contains('\n'),
        Part::Address(u) => plain_address(u),
        Part::Quoted(q, u) => (q == '"' || q == '\'') && plain_address(u),
        Part::Bracketed(o, u, c) => (o == '(' && c == ')' || o == '[' && c == ']' || o == '|' && c
            == '|') && plain_address(u),
        Part::Sign(c) => c == '&' || c == '<' || c == '>',
        Part::Mention(m, id) => (m == '@' || m == '#' || m == '!') && id.len() > 0 && (forall|
            i: int,
        | 0 <= i < id.len() ==> constructs::plain_char(#[trigger] id[i]) || id[i] == '|'),
        Part::Ready(u, t) => plain_address(u) && constructs::plain_text(t),
        Part::Nested(x, t, y) => wordy(x) && constructs::plain_text(t) && wordy(y),
        Part::BoldCode(x, n, c, y) => wordy(x) && n > 0 && c.len() > 0 && !c.contains('`')
            && !c.contains('\n') && wordy(y),
        Part::Titled(t, u, q, title) => label(t) && address(u) && (q == '"' || q == '\'') && (forall|
            i: int,
        |
            0 <= i < title.len() ==> constructs::plain_char(#[trigger] title[i]) && title[i] != q),
        Part::Square(t) => constructs::plain_text(t),
        Part::Mail(t) => t.len() > 0 && (forall|i: int|
            0 <= i < t.len() ==> constructs::plain_char(#[trigger] t[i]) || t[i] == '|'),
        Part::Lone(c) => c == '_' || c == '~' || c == '!' || c == '(' || c == ')' || c == ']' || c
            == '#' || c == '|',
        Part::Escaped(c) => c == '\\' || c == '*' || c == '_' || c == '{' || c == '}' || c == '['
            || c == ']' || c == '<' || c == '>' || c == '(' || c == ')' || c == '#' || c == '+' || c
            == '-' || c == '.' || c == '!' || c == '|' || c == '~',
        Part::Star => true,
    }
}

/// The part can stand before the words: a bare address, a link of which the label
/// alone stays, a star, and a sign that opens Slack's syntax need a space behind
/// them.
pub open spec fn before_words(p: Part, w: Seq<char>) -> bool {
    match p {
        Part::Address(_) => w[0] == ' ',
        Part::Relative(_, _) => w[0] == ' ',
        Part::Star => w[0] == ' ',
        Part::Sign(c) => c == '<' ==> w[0] == ' ',
        Part::Escaped(c) => c == '<' ==> w[0] == ' ',
        _ => true,
    }
}

/// The part can stand behind the words.
pub open spec fn after_words(w: Seq<char>, p: Part) -> bool {
    match p {
        Part::Address(_) => !urls::quotation_mark(w.last()),
        Part::Relative(_, _) => w.last() == ' ',
        _ => true,
    }
}

/// Two parts can stand one after the other: one of them is words.
pub open spec fn fits(p: Part, q: Part) -> bool {
    match (p, q) {
        (Part::Words(_), Part::Words(_)) => false,
        (Part::Words(w), _) => after_words(w, q),
        (_, Part::Words(w)) => before_words(p, w),
        _ => false,
    }
}

/// The parts make a line.
pub open spec fn valid(ps: Seq<Part>) -> bool {
    &&& forall|j: int| 0 <= j < ps.len() ==> sound(#[trigger] ps[j])
    &&& forall|j: int| 0 <= j < ps.len() - 1 ==> fits(#[trigger] ps[j], ps[j + 1])
}

/// No letter and no digit stands right next to an underscored part.
pub open spec fn apart(ps: Seq<Part>, j: int) -> bool {
    ps[j] is Underscored ==> {
        &&& 0 < j ==> (ps[j - 1] matches Part::Words(w) ==> !outside::alphanumeric(w.last()))
        &&& j + 1 < ps.len() ==> (ps[j + 1] matches Part::Words(w) ==> !outside::alphanumeric(
            w[0],
        ))
    }
}

/// No letter and no digit stands right next to any underscored part.
pub open spec fn all_apart(ps: Seq<Part>) -> bool {
    forall|j: int| 0 <= j < ps.len() ==> #[trigger] apart(ps, j)
}

/// The line after the given number of passes.
pub open spec fn line(ps: Seq<Part>, k: int) -> Seq<char>
    decreases ps.len(),
{
    if ps.len() == 0 {
        Seq::empty()
    } else {
        line(ps.drop_last(), k) + form(ps.last(), k)
    }
}

/// The position of part `j` in the line.
pub open spec fn offset(ps: Seq<Part>, k: int, j: int) -> int {
    line(ps.take(j), k).len() as int
}

/// No part is empty.
pub proof fn lemma_form_not_empty(p: Part, k: int)
    requires
        sound(p),
    ensures
        form(p, k).len() > 0,
{
    if let Part::Address(u) = p {
        lemma_web(u);
    }
}

/// The line up to a part, the part, and the rest.
pub proof fn lemma_part_at(ps: Seq<Part>, k: int, j: int)
    requires
        0 <= j < ps.len(),
    ensures
        offset(ps, k, j + 1) == offset(ps, k, j) + form(ps[j], k).len(),
        offset(ps, k, ps.len() as int) == line(ps, k).len(),
        0 <= offset(ps, k, j) <= offset(ps, k, j + 1) <= line(ps, k).len(),
        line(ps, k).subrange(offset(ps, k, j), offset(ps, k, j + 1)) == form(ps[j], k),
        offset(ps, k, 0) == 0,
    decreases ps.len(),
{
    let n = ps.len() as int;
    let front = ps.drop_last();
    assert(ps.take(n) == ps);
    assert(ps.take(0) == Seq::<Part>::empty());
    assert(ps.take(j + 1).drop_last() == ps.take(j));
    assert(ps.take(j + 1).last() == ps[j]);
    if j < n - 1 {
        lemma_part_at(front, k, j);
        assert(front.take(j) == ps.take(j));
        assert(front.take(j + 1) == ps.take(j + 1));
        assert(front[j] == ps[j]);
        let s = line(ps, k);
        let t = line(front, k);
        assert(s.subrange(offset(ps, k, j), offset(ps, k, j + 1)) == t.subrange(
            offset(ps, k, j),
            offset(ps, k, j + 1),
        ));
    } else {
        assert(ps.take(j) == front);
        let s = line(ps, k);
        assert(s.subrange(line(front, k).len() as int, s.len() as int) == form(ps[j], k));
    }
}

/// What stands right before and right behind a part.
pub proof fn lemma_neighbours(ps: Seq<Part>, k: int, j: int)
    requires
        valid(ps),
        0 <= j < ps.len(),
    ensures
        ({
            let s = line(ps, k);
            let i = offset(ps, k, j);
            let n = offset(ps, k, j + 1);
            &&& j == 0 ==> i == 0
            &&& j > 0 ==> i > 0 && s[i - 1] == form(ps[j - 1], k).last()
            &&& j + 1 == ps.len() ==> n == s.len()
            &&& j + 1 < ps.len() ==> n < s.len() && s[n] == form(ps[j + 1], k)[0]
            &&& form(ps[j], k).len() > 0 && i < n
            &&& forall|x: int| i <= x < n ==> #[trigger] s[x] == form(ps[j], k)[x - i]
        }),
{
    let s = line(ps, k);
    lemma_part_at(ps, k, j);
    lemma_form_not_empty(ps[j], k);
    let i = offset(ps, k, j);
    let n = offset(ps, k, j + 1);
    assert forall|x: int| i <= x < n implies #[trigger] s[x] == form(ps[j], k)[x - i] by {
        assert(s.subrange(i, n)[x - i] == s[x]);
    }
    if j > 0 {
        lemma_part_at(ps, k, j - 1);
        lemma_form_not_empty(ps[j - 1], k);
        let h = offset(ps, k, j - 1);
        assert(s.subrange(h, i)[i - h - 1] == s[i - 1]);
    }
    if j + 1 < ps.len() {
        lemma_part_at(ps, k, j + 1);
        lemma_form_not_empty(ps[j + 1], k);
        let e = offset(ps, k, j + 2);
        assert(s.subrange(n, e)[0] == s[n]);
    }
}

/// The rest of a line from a part on.
pub proof fn lemma_rest(ps: Seq<Part>, k: int, j: int)
    requires
        0 <= j < ps.len(),
    ensures
        line(ps, k).skip(offset(ps, k, j)) == form(ps[j], k) + line(ps, k).skip(
            offset(ps, k, j + 1),
        ),
{
    lemma_part_at(ps, k, j);
    let s = line(ps, k);
    let i = offset(ps, k, j);
    let n = offset(ps, k, j + 1);
    assert(s.skip(i) == s.subrange(i, n) + s.skip(n));
}

/// The end of code between as many backticks on either side.
pub proof fn lemma_code_end(s: Seq<char>, i: int, n: int, w: nat, t: Seq<char>)
    requires
        0 <= i < n <= s.len(),
        w > 0,
        t.len() > 0,
        !t.contains('`'),
        n == i + 2 * w + t.len(),
        forall|x: int| i <= x < n ==> #[trigger] s[x] == around(ticks(w), t, ticks(w))[x - i],
        n < s.len() ==> s[n] != '`',
    ensures
        spans::code_span(s, i) == Some(n),
        spans::ticks_end(s, i) == n,
        s[i] == '`',
{
    let x = around(ticks(w), t, ticks(w));
    let a = i + w;
    let b = a + t.len();
    assert forall|k: int| i <= k < a implies #[trigger] s[k] == '`' by {
        assert(s[k] == x[k - i]);
    }
    assert forall|k: int| a <= k < b implies #[trigger] s[k] != '`' by {
        assert(s[k] == x[k - i]);
        assert(x[k - i] == t[k - a]);
        assert(t.contains(t[k - a]));
    }
    assert forall|k: int| b <= k < n implies #[trigger] s[k] == '`' by {
        assert(s[k] == x[k - i]);
    }
    assert(s[i] == '`');
    assert(s[a] != '`');
    crate::mrkdwn::ticks::lemma_run_is(s, i, w as int);
    crate::mrkdwn::ticks::lemma_run_is(s, b, w as int);
    lemma_run_behind(s, w as int, a, b);
}

/// A run of backticks is found behind text without any.
proof fn lemma_run_behind(s: Seq<char>, w: int, a: int, b: int)
    requires
        0 <= a <= b < s.len(),
        forall|k: int| a <= k < b ==> #[trigger] s[k] != '`',
        s[b] == '`',
        spans::tick_run(s, b) == w,
    ensures
        spans::find_run(s, w, a) == Some(b),
    decreases b - a,
{
    if a < b {
        lemma_run_behind(s, w, a + 1, b);
    }
}

/// Characters that begin no inline construct are kept.
pub open spec fn quiet(c: char) -> bool {
    c != '\\' && c != '`' && c != '*' && c != '_' && c != '~' && c != '[' && c != '!'
}

/// Up to a position, characters that begin no inline construct are kept.
pub proof fn lemma_inline_quiet(s: Seq<char>, i: int, n: int)
    requires
        0 <= i <= n <= s.len(),
        forall|k: int| i <= k < n ==> quiet(#[trigger] s[k]),
    ensures
        spans::inline_from(s, i) == s.subrange(i, n) + spans::inline_from(s, n),
    decreases n - i,
{
    if i < n {
        assert(quiet(s[i]));
        lemma_inline_char(s, i);
        lemma_inline_quiet(s, i + 1, n);
        assert(s.subrange(i, n) == seq![s[i]] + s.subrange(i + 1, n));
        assert(seq![s[i]] + (s.subrange(i + 1, n) + spans::inline_from(s, n)) == s.subrange(i, n)
            + spans::inline_from(s, n));
    } else {
        assert(s.subrange(i, n) + spans::inline_from(s, n) == spans::inline_from(s, n));
    }
}

/// A character that begins no inline construct is kept.
pub proof fn lemma_inline_char(s: Seq<char>, i: int)
    requires
        0 <= i < s.len(),
        quiet(s[i]),
    ensures
        spans::inline_step(s, i) == (seq![s[i]], i + 1),
{
    lemma_stars(s, i);
    constructs::lemma_no_marker(s, i, seq!['_', '_']);
    constructs::lemma_no_marker(s, i, seq!['~', '~']);
}

/// Without a star there is no span between stars.
pub proof fn lemma_stars(s: Seq<char>, i: int)
    requires
        0 <= i < s.len(),
        s[i] != '*',
    ensures
        spans::span_end(s, seq!['*', '*', '*'], i) is None,
        spans::span_end(s, seq!['*', '*'], i) is None,
        spans::italic_end(s, i) is None,
{
    constructs::lemma_no_marker(s, i, seq!['*', '*', '*']);
    constructs::lemma_no_marker(s, i, seq!['*', '*']);
    constructs::lemma_no_marker(s, i, seq!['*']);
}

/// The text stands in the line from `i` on.
pub open spec fn stands(s: Seq<char>, i: int, x: Seq<char>) -> bool {
    &&& 0 <= i && i + x.len() <= s.len()
    &&& forall|k: int| i <= k < i + x.len() ==> #[trigger] s[k] == x[k - i]
}

/// A text between markers ends at the second one.
proof fn lemma_marked(s: Seq<char>, i: int, m: Seq<char>, t: Seq<char>)
    requires
        stands(s, i, around(m, t, m)),
        held(t, m[0]),
        m.len() > 0,
        forall|k: int| 0 <= k < m.len() ==> #[trigger] m[k] == m[0],
        m[0] == '*' || m[0] == '_' || m[0] == '~',
    ensures
        spans::span_end(s, m, i) == Some(i + m.len() + t.len()),
        s.subrange(i + m.len(), i + m.len() + t.len()) == t,
        s[i] == m[0],
        s[i + m.len()] == t[0],
        s[i + m.len() + t.len() - 1] == t.last(),
        t[0] != m[0],
{
    let x = around(m, t, m);
    let a = i + m.len();
    let e = a + t.len();
    assert forall|k: int| i <= k < e + m.len() implies #[trigger] s[k] == x[k - i] by {}
    assert forall|k: int| a <= k < e implies #[trigger] s[k] != '`' && s[k] != m[0] && s[k] == t[k
        - a] by {
        assert(s[k] == x[k - i]);
        assert(inner_char(t[k - a]) && t[k - a] != m[0]);
    }
    assert(s.subrange(i, a) == m) by {
        assert forall|k: int| 0 <= k < m.len() implies s.subrange(i, a)[k] == m[k] by {
            assert(s[i + k] == x[k]);
        }
    }
    assert(s.subrange(e, e + m.len()) == m) by {
        assert forall|k: int| 0 <= k < m.len() implies s.subrange(e, e + m.len())[k] == m[k] by {
            assert(s[e + k] == x[e + k - i]);
        }
    }
    assert(s.subrange(a, e) == t);
    assert(s[i] == x[0]);
    assert(s[e] == x[e - i]);
    constructs::lemma_closes(s, m, a, e);
}

/// The inside of a bold span that is plain text is kept.
proof fn lemma_bold_plain(t: Seq<char>, i: int)
    requires
        0 <= i <= t.len(),
        forall|k: int| 0 <= k < t.len() ==> inner_char(#[trigger] t[k]) && t[k] != '*',
    ensures
        spans::bold_from(t, i) == t.skip(i),
    decreases t.len() - i,
{
    if i < t.len() {
        assert(inner_char(t[i]) && t[i] != '*');
        constructs::lemma_no_marker(t, i, seq!['*']);
        lemma_bold_plain(t, i + 1);
        assert(spans::bold_step(t, i) == (seq![t[i]], i + 1));
        assert(seq![t[i]] + t.skip(i + 1) == t.skip(i));
    }
}

/// A longer marker does not stand where a text follows a shorter one.
pub proof fn lemma_shorter(s: Seq<char>, i: int, m: Seq<char>, longer: Seq<char>)
    requires
        0 <= i,
        m.len() < longer.len(),
        i + m.len() < s.len(),
        s[i + m.len()] != longer[m.len() as int],
    ensures
        spans::span_end(s, longer, i) is None,
{
    if text::occurs_at(s, i, longer) {
        assert(s.subrange(i, i + longer.len())[m.len() as int] == longer[m.len() as int]);
    }
}

/// An emphasis is converted where it stands.
proof fn lemma_inline_emphasis(s: Seq<char>, i: int, p: Part)
    requires
        sound(p),
        p is Bold || p is BoldItalic || p is Italic || p is Struck,
        stands(s, i, written(p)),
    ensures
        spans::inline_step(s, i) == (formatted(p), i + written(p).len()),
{
    let s3 = seq!['*', '*', '*'];
    let s2 = seq!['*', '*'];
    let s1 = seq!['*'];
    match p {
        Part::Bold(t) => {
            lemma_marked(s, i, s2, t);
            lemma_shorter(s, i, s2, s3);
            lemma_bold_plain(t, 0);
            assert(t.skip(0) == t);
        },
        Part::BoldItalic(t) => {
            lemma_marked(s, i, s3, t);
        },
        Part::Italic(t) => {
            lemma_marked(s, i, s1, t);
            lemma_shorter(s, i, s1, s2);
            lemma_shorter(s, i, s1, s3);
        },
        Part::Struck(t) => {
            lemma_marked(s, i, seq!['~', '~'], t);
            lemma_stars(s, i);
            constructs::lemma_no_marker(s, i, seq!['_', '_']);
        },
        _ => {},
    }
}

/// An underscored text is converted where no letter and no digit stands next to
/// it.
proof fn lemma_inline_underscored(s: Seq<char>, i: int, t: Seq<char>)
    requires
        held(t, '_'),
        stands(s, i, written(Part::Underscored(t))),
        i > 0 ==> !outside::alphanumeric(s[i - 1]),
        i + t.len() + 4 < s.len() ==> !outside::alphanumeric(s[i + t.len() + 4]),
    ensures
        spans::inline_step(s, i) == (formatted(Part::Underscored(t)), i + t.len() + 4),
{
    lemma_marked(s, i, seq!['_', '_'], t);
    lemma_stars(s, i);
}

/// A link is found where it stands.
proof fn lemma_link_stands(s: Seq<char>, i: int, t: Seq<char>, u: Seq<char>)
    requires
        stands(s, i, around(seq!['['], t, seq![']', '('] + u + seq![')'])),
        label(t),
        u.len() > 0,
        forall|k: int| 0 <= k < u.len() ==> constructs::address_char(#[trigger] u[k]),
    ensures
        ({
            let b = i + 1 + t.len();
            let e = b + 2 + u.len();
            &&& spans::link_at(s, i) == Some((b, e))
            &&& s.subrange(i + 1, b) == t
            &&& s.subrange(b + 2, e) == u
            &&& spans::link_url(u) == u
            &&& s[i] == '['
        }),
{
    let x = around(seq!['['], t, seq![']', '('] + u + seq![')']);
    let b = i + 1 + t.len();
    let e = b + 2 + u.len();
    assert(s[i] == x[0]);
    assert(s[b] == x[b - i] && s[b + 1] == x[b + 1 - i] && s[e] == x[e - i]);
    assert forall|k: int| i + 1 <= k < b implies #[trigger] s[k] != ']' && s[k] != '`' && s[k]
        == t[k - i - 1] by {
        assert(s[k] == x[k - i]);
        assert(label_char(t[k - i - 1]));
    }
    assert forall|k: int| b + 2 <= k < e implies #[trigger] s[k] != ')' && s[k] != '`' && s[k]
        == u[k - b - 2] by {
        assert(s[k] == x[k - i]);
        assert(constructs::address_char(u[k - b - 2]));
    }
    constructs::lemma_finds(s, ']', i + 1, b);
    constructs::lemma_finds(s, ')', b + 2, e);
    assert(s.subrange(i + 1, b) == t);
    assert(s.subrange(b + 2, e) == u);
    assert(constructs::address_char(u[0]));
    assert(constructs::address_char(u[u.len() - 1]));
    constructs::lemma_trim_keeps(u);
}

/// A link or an image is converted where it stands.
#[verifier::rlimit(60)]
proof fn lemma_inline_link(s: Seq<char>, i: int, p: Part)
    requires
        sound(p),
        p is Link || p is Relative || p is Image,
        stands(s, i, written(p)),
    ensures
        spans::inline_step(s, i) == (formatted(p), i + written(p).len()),
{
    match p {
        Part::Link(t, u) => {
            lemma_web(u);
            lemma_link_stands(s, i, t, u);
            lemma_not_emphasis(s, i);
            assert(formatted(p) == spans::link_markup(u, t));
        },
        Part::Relative(t, u) => {
            lemma_web(u);
            lemma_label(t);
            lemma_link_stands(s, i, t, u);
            lemma_not_emphasis(s, i);
        },
        Part::Image(t, u) => {
            lemma_inline_image(s, i, t, u);
        },
        _ => {},
    }
}

/// An image is converted where it stands.
proof fn lemma_inline_image(s: Seq<char>, i: int, t: Seq<char>, u: Seq<char>)
    requires
        sound(Part::Image(t, u)),
        stands(s, i, written(Part::Image(t, u))),
    ensures
        spans::inline_step(s, i) == (
            formatted(Part::Image(t, u)),
            i + written(Part::Image(t, u)).len(),
        ),
{
    lemma_web(u);
    let x = written(Part::Image(t, u));
    let y = around(seq!['['], t, seq![']', '('] + u + seq![')']);
    assert(x == seq!['!'] + y);
    assert forall|k: int| i + 1 <= k < i + 1 + y.len() implies #[trigger] s[k] == y[k - i - 1] by {
        assert(s[k] == x[k - i]);
    }
    assert(s[i] == x[0]);
    lemma_link_stands(s, i + 1, t, u);
    lemma_not_emphasis(s, i);
}

/// A bracket or an exclamation mark begins no emphasis.
proof fn lemma_not_emphasis(s: Seq<char>, i: int)
    requires
        0 <= i < s.len(),
        s[i] == '[' || s[i] == '!',
    ensures
        spans::span_end(s, seq!['*', '*', '*'], i) is None,
        spans::span_end(s, seq!['*', '*'], i) is None,
        spans::italic_end(s, i) is None,
        spans::underscore_end(s, i) is None,
        spans::span_end(s, seq!['~', '~'], i) is None,
        !spans::escape_at(s, i),
{
    lemma_stars(s, i);
    constructs::lemma_no_marker(s, i, seq!['_', '_']);
    constructs::lemma_no_marker(s, i, seq!['~', '~']);
}

/// A bare address in square brackets is no link.
proof fn lemma_inline_bracketed(s: Seq<char>, i: int, u: Seq<char>)
    requires
        plain_address(u),
        stands(s, i, around(seq!['['], u, seq![']'])),
        i + u.len() + 2 < s.len() ==> constructs::plain_char(s[i + u.len() + 2]),
    ensures
        spans::inline_step(s, i) == (seq!['['], i + 1),
{
    let x = around(seq!['['], u, seq![']']);
    let b = i + 1 + u.len();
    assert(s[i] == x[0]);
    assert(s[b] == x[b - i]);
    assert forall|k: int| i + 1 <= k < b implies #[trigger] s[k] != ']' && s[k] != '`' by {
        assert(s[k] == x[k - i]);
        assert(constructs::plain_char(u[k - i - 1]));
    }
    constructs::lemma_finds(s, ']', i + 1, b);
    lemma_not_emphasis(s, i);
}

/// The part is converted in one step by the pass on inline constructs.
spec fn at_once(p: Part) -> bool {
    p is Bold || p is BoldItalic || p is Italic || p is Struck || p is Underscored || p is Link
        || p is Relative || p is Image || more_at_once(p)
}

/// The part is converted in one step, and is neither plain emphasis nor a plain link.
spec fn more_at_once(p: Part) -> bool {
    p is Code || p is Escaped || p is Star || p is Nested || p is BoldCode || p is Titled
        || p is Lone
}

/// The pass on inline constructs converts a part in one step.
proof fn lemma_inline_at_once(s: Seq<char>, i: int, p: Part)
    requires
        sound(p),
        at_once(p),
        stands(s, i, written(p)),
        i + written(p).len() < s.len() ==> constructs::plain_char(s[i + written(p).len()]),
        p is Star && i + 1 < s.len() ==> s[i + 1] == ' ',
        p is Underscored && i > 0 ==> !outside::alphanumeric(s[i - 1]),
        p is Underscored && i + written(p).len() < s.len() ==> !outside::alphanumeric(
            s[i + written(p).len()],
        ),
    ensures
        spans::inline_step(s, i) == (formatted(p), i + written(p).len()),
{
    if p is Bold || p is BoldItalic || p is Italic || p is Struck {
        lemma_inline_emphasis(s, i, p);
    } else if p is Link || p is Relative || p is Image {
        lemma_inline_link(s, i, p);
    } else if let Part::Underscored(t) = p {
        lemma_inline_underscored(s, i, t);
    } else {
        lemma_inline_more(s, i, p);
    }
}

/// The pass on inline constructs converts code, escapes and the like in one step.
proof fn lemma_inline_more(s: Seq<char>, i: int, p: Part)
    requires
        sound(p),
        more_at_once(p),
        stands(s, i, written(p)),
        i + written(p).len() < s.len() ==> constructs::plain_char(s[i + written(p).len()]),
        p is Star && i + 1 < s.len() ==> s[i + 1] == ' ',
    ensures
        spans::inline_step(s, i) == (formatted(p), i + written(p).len()),
{
    let x = written(p);
    let n = (i + x.len()) as int;
    match p {
        Part::Code(w, t) => {
            lemma_code_end(s, i, n, w, t);
            lemma_stands_whole(s, i, x);
        },
        Part::Escaped(c) => {
            assert(s[i] == x[0] && s[i + 1] == x[1]);
        },
        Part::Star => {
            assert(s[i] == x[0]);
            lemma_inline_star(s, i);
        },
        Part::Nested(a, t, b) => {
            lemma_inline_nested(s, i, a, t, b);
        },
        Part::BoldCode(a, w, c, b) => {
            lemma_inline_bold_code(s, i, a, w, c, b);
        },
        Part::Titled(t, u, q, title) => {
            lemma_inline_titled(s, i, t, u, q, title);
        },
        Part::Lone(c) => {
            assert(s[i] == x[0]);
            lemma_inline_lone(s, i);
        },
        _ => {},
    }
}

/// What stands in a line is a part of it.
proof fn lemma_stands_whole(s: Seq<char>, i: int, x: Seq<char>)
    requires
        stands(s, i, x),
    ensures
        s.subrange(i, (i + x.len()) as int) == x,
{
    let n = (i + x.len()) as int;
    assert forall|k: int| 0 <= k < x.len() implies s.subrange(i, n)[k] == x[k] by {
        assert(s[i + k] == x[k]);
    }
}

/// The pass on inline constructs turns what stands from `i` up to `n` into the text.
#[verifier::opaque]
spec fn gives(s: Seq<char>, i: int, out: Seq<char>, n: int) -> bool {
    spans::inline_from(s, i) == out + spans::inline_from(s, n)
}

/// The pass on inline constructs converts a part where it stands.
proof fn lemma_inline_part(s: Seq<char>, i: int, p: Part)
    requires
        sound(p),
        stands(s, i, written(p)),
        !(p is Words) && i + written(p).len() < s.len() ==> constructs::plain_char(
            s[i + written(p).len()],
        ),
        p is Star && i + 1 < s.len() ==> s[i + 1] == ' ',
        p is Underscored && i > 0 ==> !outside::alphanumeric(s[i - 1]),
        p is Underscored && i + written(p).len() < s.len() ==> !outside::alphanumeric(
            s[i + written(p).len()],
        ),
    ensures
        gives(s, i, formatted(p), (i + written(p).len()) as int),
{
    if at_once(p) {
        lemma_form_not_empty(p, 0);
        lemma_inline_at_once(s, i, p);
        lemma_gives_at_once(s, i, formatted(p), (i + written(p).len()) as int);
    } else if p is Mention {
        lemma_gives_mention(s, i, p);
    } else if p is Square || p is Mail {
        lemma_gives_square(s, i, p);
    } else {
        lemma_gives_other(s, i, p);
    }
}

/// A step gives what it gives.
proof fn lemma_one_step(s: Seq<char>, i: int, out: Seq<char>, n: int)
    requires
        0 <= i < s.len(),
        spans::inline_step(s, i) == (out, n),
    ensures
        spans::inline_from(s, i) == out + spans::inline_from(s, n),
{
}

proof fn lemma_gives_at_once(s: Seq<char>, i: int, out: Seq<char>, n: int)
    requires
        0 <= i < s.len(),
        spans::inline_step(s, i) == (out, n),
    ensures
        gives(s, i, out, n),
{
    reveal(gives);
}

proof fn lemma_gives_mention(s: Seq<char>, i: int, p: Part)
    requires
        sound(p),
        p is Mention,
        stands(s, i, written(p)),
    ensures
        gives(s, i, formatted(p), (i + written(p).len()) as int),
{
    reveal(gives);
    lemma_stands_whole(s, i, written(p));
    if let Part::Mention(m, id) = p {
        lemma_inline_mention(s, i, m, id);
    }
}

proof fn lemma_gives_square(s: Seq<char>, i: int, p: Part)
    requires
        sound(p),
        p is Square || p is Mail,
        stands(s, i, written(p)),
        i + written(p).len() < s.len() ==> constructs::plain_char(s[i + written(p).len()]),
    ensures
        gives(s, i, formatted(p), (i + written(p).len()) as int),
{
    reveal(gives);
    if let Part::Square(t) = p {
        lemma_inline_square(s, i, t);
    } else if let Part::Mail(t) = p {
        lemma_inline_mail(s, i, t);
    }
}

proof fn lemma_gives_other(s: Seq<char>, i: int, p: Part)
    requires
        sound(p),
        p is Words || p is Address || p is Quoted || p is Bracketed || p is Sign || p is Ready,
        stands(s, i, written(p)),
        !(p is Words) && i + written(p).len() < s.len() ==> constructs::plain_char(
            s[i + written(p).len()],
        ),
    ensures
        gives(s, i, formatted(p), (i + written(p).len()) as int),
{
    reveal(gives);
    lemma_stands_whole(s, i, written(p));
    lemma_inline_other(s, i, p);
}

/// A star with a space behind it is kept.
proof fn lemma_inline_star(s: Seq<char>, i: int)
    requires
        0 <= i < s.len(),
        s[i] == '*',
        i + 1 < s.len() ==> s[i + 1] == ' ',
    ensures
        spans::inline_step(s, i) == (seq!['*'], i + 1),
{
    let one = seq!['*'];
    if i + 1 < s.len() {
        lemma_shorter(s, i, one, seq!['*', '*']);
        lemma_shorter(s, i, one, seq!['*', '*', '*']);
    }
    constructs::lemma_no_marker(s, i, seq!['_', '_']);
    constructs::lemma_no_marker(s, i, seq!['~', '~']);
}

/// The pass on inline constructs keeps words, addresses, signs and mentions.
proof fn lemma_inline_other(s: Seq<char>, i: int, p: Part)
    requires
        sound(p),
        stands(s, i, written(p)),
        p is Words || p is Address || p is Quoted || p is Bracketed || p is Sign || p is Ready,
        !(p is Words) && i + written(p).len() < s.len() ==> constructs::plain_char(
            s[i + written(p).len()],
        ),
        s.subrange(i, (i + written(p).len()) as int) == written(p),
    ensures
        spans::inline_from(s, i) == formatted(p) + spans::inline_from(
            s,
            (i + written(p).len()) as int,
        ),
{
    let x = written(p);
    let n = (i + x.len()) as int;
    if let Part::Bracketed(o, u, c) = p {
        lemma_inline_brackets(s, i, o, u, c);
    } else {
        assert forall|k: int| i <= k < n implies quiet(#[trigger] s[k]) by {
            assert(s[k] == x[k - i]);
            lemma_quiet_part(p, k - i);
        }
        lemma_inline_quiet(s, i, n);
    }
}

/// The pass on inline constructs keeps a bare address and the bracket behind it.
proof fn lemma_inline_to_the_bracket(s: Seq<char>, i: int, o: char, u: Seq<char>, c: char)
    requires
        sound(Part::Bracketed(o, u, c)),
        stands(s, i, around(seq![o], u, seq![c])),
    ensures
        spans::inline_from(s, i + 1) == s.subrange(i + 1, i + u.len() + 2) + spans::inline_from(
            s,
            i + u.len() + 2,
        ),
{
    let x = around(seq![o], u, seq![c]);
    let n = i + u.len() + 2;
    assert forall|k: int| i + 1 <= k < n implies quiet(#[trigger] s[k]) by {
        assert(s[k] == x[k - i]);
        if k < n - 1 {
            assert(x[k - i] == u[k - i - 1]);
            assert(constructs::plain_char(u[k - i - 1]));
        }
    }
    lemma_inline_quiet(s, i + 1, n);
}

/// The pass on inline constructs keeps the bracket before a bare address.
proof fn lemma_inline_to_the_address(s: Seq<char>, i: int, o: char, u: Seq<char>, c: char)
    requires
        sound(Part::Bracketed(o, u, c)),
        stands(s, i, around(seq![o], u, seq![c])),
        i + u.len() + 2 < s.len() ==> constructs::plain_char(s[i + u.len() + 2]),
    ensures
        spans::inline_from(s, i) == seq![o] + spans::inline_from(s, i + 1),
{
    assert(s[i] == around(seq![o], u, seq![c])[0]);
    if o == '[' {
        lemma_inline_bracketed(s, i, u);
        lemma_one_step(s, i, seq!['['], i + 1);
    } else {
        lemma_inline_char(s, i);
    }
}

/// The pass on inline constructs keeps a bare address in brackets.
proof fn lemma_inline_brackets(s: Seq<char>, i: int, o: char, u: Seq<char>, c: char)
    requires
        sound(Part::Bracketed(o, u, c)),
        stands(s, i, around(seq![o], u, seq![c])),
        i + u.len() + 2 < s.len() ==> constructs::plain_char(s[i + u.len() + 2]),
        s.subrange(i, i + u.len() + 2) == around(seq![o], u, seq![c]),
    ensures
        spans::inline_from(s, i) == around(seq![o], u, seq![c]) + spans::inline_from(
            s,
            i + u.len() + 2,
        ),
{
    lemma_inline_to_the_bracket(s, i, o, u, c);
    lemma_inline_to_the_address(s, i, o, u, c);
    lemma_first_and_rest(s, i, o, i + u.len() + 2, spans::inline_from(s, i + u.len() + 2));
}

/// A part of a line is its first character and the rest of it.
proof fn lemma_first_and_rest(s: Seq<char>, i: int, o: char, n: int, rest: Seq<char>)
    requires
        0 <= i < n <= s.len(),
        s.subrange(i, n)[0] == o,
    ensures
        seq![o] + (s.subrange(i + 1, n) + rest) == s.subrange(i, n) + rest,
{
    assert(s.subrange(i, n) == seq![o] + s.subrange(i + 1, n));
    assert(seq![o] + (s.subrange(i + 1, n) + rest) == s.subrange(i, n) + rest);
}

/// Words, addresses, signs and mentions begin no inline construct.
proof fn lemma_quiet_part(p: Part, k: int)
    requires
        sound(p),
        p is Words || p is Address || p is Quoted || p is Sign || p is Ready,
        0 <= k < written(p).len(),
    ensures
        quiet(written(p)[k]),
{
    match p {
        Part::Words(t) => {
            assert(constructs::plain_char(t[k]));
        },
        Part::Address(u) => {
            assert(constructs::plain_char(u[k]));
        },
        Part::Quoted(q, u) => {
            if 1 <= k < u.len() + 1 {
                assert(written(p)[k] == u[k - 1]);
                assert(constructs::plain_char(u[k - 1]));
            }
        },
        Part::Ready(u, t) => {
            let x = written(p);
            if 1 <= k < u.len() + 1 {
                assert(x[k] == u[k - 1]);
                assert(constructs::plain_char(u[k - 1]));
            } else if u.len() + 2 <= k < x.len() - 1 {
                assert(x[k] == t[k - u.len() - 2]);
                assert(constructs::plain_char(t[k - u.len() - 2]));
            }
        },
        _ => {},
    }
}

/// The pass on inline constructs keeps a character that makes no markup by itself.
pub proof fn lemma_inline_lone(s: Seq<char>, i: int)
    requires
        0 <= i < s.len(),
        sound(Part::Lone(s[i])),
        i + 1 < s.len() ==> constructs::plain_char(s[i + 1]),
    ensures
        spans::inline_step(s, i) == (seq![s[i]], i + 1),
{
    lemma_stars(s, i);
    let low = seq!['_', '_'];
    let wave = seq!['~', '~'];
    if text::occurs_at(s, i, low) {
        assert(s.subrange(i, i + 2)[1] == s[i + 1]);
    }
    if text::occurs_at(s, i, wave) {
        assert(s.subrange(i, i + 2)[1] == s[i + 1]);
    }
}

/// The pass on inline constructs keeps text in square brackets.
proof fn lemma_inline_square(s: Seq<char>, i: int, t: Seq<char>)
    requires
        constructs::plain_text(t),
        stands(s, i, around(seq!['['], t, seq![']'])),
        i + t.len() + 2 < s.len() ==> constructs::plain_char(s[i + t.len() + 2]),
    ensures
        spans::inline_from(s, i) == around(seq!['['], t, seq![']']) + spans::inline_from(
            s,
            i + t.len() + 2,
        ),
{
    let x = around(seq!['['], t, seq![']']);
    let b = i + 1 + t.len();
    let n = b + 1;
    assert(s[i] == x[0]);
    assert(s[b] == x[b - i]);
    assert forall|k: int| i + 1 <= k < b implies #[trigger] s[k] != ']' && s[k] != '`' && quiet(
        s[k],
    ) by {
        assert(s[k] == x[k - i]);
        assert(x[k - i] == t[k - i - 1]);
        assert(constructs::plain_char(t[k - i - 1]));
    }
    constructs::lemma_finds(s, ']', i + 1, b);
    lemma_not_emphasis(s, i);
    assert(spans::inline_step(s, i) == (seq!['['], i + 1));
    assert forall|k: int| i + 1 <= k < n implies quiet(#[trigger] s[k]) by {
        if k < b {
            assert(s[k] != ']' && quiet(s[k]));
        }
    }
    lemma_inline_quiet(s, i + 1, n);
    assert(s.subrange(i + 1, n) == t + seq![']']) by {
        assert forall|k: int| 0 <= k < n - i - 1 implies s.subrange(i + 1, n)[k] == (t + seq![
            ']',
        ])[k] by {
            assert(s[i + 1 + k] == x[1 + k]);
        }
    }
    let rest = spans::inline_from(s, n);
    assert(spans::inline_from(s, i) == seq!['['] + spans::inline_from(s, i + 1));
    assert(seq!['['] + (t + seq![']'] + rest) == x + rest);
}

/// The pass on inline constructs keeps a mail address in Slack's syntax.
proof fn lemma_inline_mail(s: Seq<char>, i: int, t: Seq<char>)
    requires
        sound(Part::Mail(t)),
        stands(s, i, around(mail_to(), t, seq!['>'])),
    ensures
        spans::inline_from(s, i) == around(mail_to(), t, seq!['>']) + spans::inline_from(
            s,
            i + t.len() + 9,
        ),
{
    let x = around(mail_to(), t, seq!['>']);
    let n = i + t.len() + 9;
    assert forall|k: int| i <= k < n implies quiet(#[trigger] s[k]) by {
        assert(s[k] == x[k - i]);
        if 8 <= k - i < 8 + t.len() {
            assert(x[k - i] == t[k - i - 8]);
            assert(constructs::plain_char(t[k - i - 8]) || t[k - i - 8] == '|');
        } else if k - i < 8 {
            assert(x[k - i] == mail_to()[k - i]);
        }
    }
    lemma_inline_quiet(s, i, n);
    assert(s.subrange(i, n) == x) by {
        assert forall|k: int| 0 <= k < x.len() implies s.subrange(i, n)[k] == x[k] by {
            assert(s[i + k] == x[k]);
        }
    }
}

/// The last place of a character.
pub proof fn lemma_found_last(s: Seq<char>, c: char, upto: int, k: int)
    requires
        0 <= k < upto <= s.len(),
        s[k] == c,
        forall|j: int| k < j < upto ==> #[trigger] s[j] != c,
    ensures
        text::rfind_char(s, c, upto) == Some(k),
    decreases upto,
{
    if upto - 1 > k {
        assert(s[upto - 1] != c);
        lemma_found_last(s, c, upto - 1, k);
    }
}

/// The title of a link is no part of its address.
proof fn lemma_titled_address(u: Seq<char>, q: char, title: Seq<char>)
    requires
        address(u),
        q == '"' || q == '\'',
        forall|i: int|
            0 <= i < title.len() ==> constructs::plain_char(#[trigger] title[i]) && title[i] != q,
    ensures
        spans::link_url(u + seq![' ', q] + title + seq![q]) == u,
{
    let raw = u + seq![' ', q] + title + seq![q];
    lemma_web(u);
    assert(constructs::address_char(u[0]));
    assert(constructs::address_char(u[u.len() - 1]));
    assert(raw[0] == u[0]);
    assert(raw.last() == q);
    constructs::lemma_trim_keeps(raw);
    let w = raw.drop_last();
    let k = (u.len() + 1) as int;
    assert forall|j: int| k < j < w.len() implies #[trigger] w[j] != q by {
        assert(w[j] == title[j - k - 1]);
    }
    lemma_found_last(w, q, w.len() as int, k);
    assert(w[k - 1] == ' ');
    assert(w.take(k - 1) == u);
    assert(text::trim_end(u) == u);
}

/// A link with a title is converted where it stands.
proof fn lemma_inline_titled(
    s: Seq<char>,
    i: int,
    t: Seq<char>,
    u: Seq<char>,
    q: char,
    title: Seq<char>,
)
    requires
        sound(Part::Titled(t, u, q, title)),
        stands(s, i, written(Part::Titled(t, u, q, title))),
    ensures
        spans::inline_step(s, i) == (
            formatted(Part::Titled(t, u, q, title)),
            i + written(Part::Titled(t, u, q, title)).len(),
        ),
{
    let raw = u + seq![' ', q] + title + seq![q];
    let x = around(seq!['['], t, seq![']', '('] + raw + seq![')']);
    let b = i + 1 + t.len();
    let e = b + 2 + raw.len();
    assert(s[i] == x[0]);
    assert(s[b] == x[b - i] && s[b + 1] == x[b + 1 - i] && s[e] == x[e - i]);
    assert forall|k: int| i + 1 <= k < b implies #[trigger] s[k] != ']' && s[k] != '`' && s[k]
        == t[k - i - 1] by {
        assert(s[k] == x[k - i]);
        assert(label_char(t[k - i - 1]));
    }
    assert forall|k: int| b + 2 <= k < e implies #[trigger] s[k] != ')' && s[k] != '`' && s[k]
        == raw[k - b - 2] by {
        assert(s[k] == x[k - i]);
        let j = k - b - 2;
        assert(x[k - i] == raw[j]);
        if j < u.len() {
            assert(raw[j] == u[j]);
            assert(constructs::address_char(u[j]));
        } else if u.len() + 2 <= j < raw.len() - 1 {
            assert(raw[j] == title[j - u.len() - 2]);
            assert(constructs::plain_char(title[j - u.len() - 2]));
        }
    }
    constructs::lemma_finds(s, ']', i + 1, b);
    constructs::lemma_finds(s, ')', b + 2, e);
    assert(s.subrange(i + 1, b) == t);
    assert(s.subrange(b + 2, e) == raw);
    lemma_titled_address(u, q, title);
    lemma_web(u);
    lemma_not_emphasis(s, i);
    assert(formatted(Part::Titled(t, u, q, title)) == spans::link_markup(u, t));
}

/// The pass on inline constructs keeps a mention.
proof fn lemma_inline_mention(s: Seq<char>, i: int, m: char, id: Seq<char>)
    requires
        sound(Part::Mention(m, id)),
        stands(s, i, around(seq!['<', m], id, seq!['>'])),
        s.subrange(i, i + id.len() + 3) == around(seq!['<', m], id, seq!['>']),
    ensures
        spans::inline_from(s, i) == around(seq!['<', m], id, seq!['>']) + spans::inline_from(
            s,
            i + id.len() + 3,
        ),
{
    let x = around(seq!['<', m], id, seq!['>']);
    let n = i + id.len() + 3;
    assert(s[i] == x[0] && s[i + 1] == x[1] && s[i + 2] == x[2]);
    assert(x[2] == id[0]);
    lemma_inline_char(s, i);
    if m == '!' {
        lemma_not_emphasis(s, i + 1);
        assert(spans::inline_step(s, i + 1) == (seq![m], i + 2));
    } else {
        lemma_inline_char(s, i + 1);
    }
    assert forall|k: int| i + 2 <= k < n implies quiet(#[trigger] s[k]) by {
        assert(s[k] == x[k - i]);
        if k < n - 1 {
            assert(x[k - i] == id[k - i - 2]);
            assert(constructs::plain_char(id[k - i - 2]) || id[k - i - 2] == '|');
        }
    }
    lemma_inline_quiet(s, i + 2, n);
    let rest = spans::inline_from(s, n);
    assert(spans::inline_from(s, i + 1) == seq![m] + spans::inline_from(s, i + 2));
    assert(spans::inline_from(s, i) == seq!['<'] + spans::inline_from(s, i + 1));
    assert(x == seq!['<'] + (seq![m] + s.subrange(i + 2, n)));
    assert(seq!['<'] + (seq![m] + (s.subrange(i + 2, n) + rest)) == x + rest);
}

/// The marker that closes a span is the first one, outside of code.
proof fn lemma_closes_later(s: Seq<char>, m: Seq<char>, i: int, e: int)
    requires
        0 <= i <= e,
        forall|k: int| i <= k < e ==> #[trigger] s[k] != '`' && !text::occurs_at(s, k, m),
        e < s.len(),
    ensures
        spans::closing(s, m, i) == spans::closing(s, m, e),
    decreases e - i,
{
    if i < e {
        assert(s[i] != '`');
        lemma_closes_later(s, m, i + 1, e);
    }
}

/// Two stars do not stand where the second is another character.
proof fn lemma_no_stars(s: Seq<char>, k: int)
    requires
        0 <= k < s.len(),
        s[k] != '*' || k + 1 >= s.len() || s[k + 1] != '*',
    ensures
        !text::occurs_at(s, k, seq!['*', '*']),
{
    if text::occurs_at(s, k, seq!['*', '*']) {
        let sub = s.subrange(k, k + 2);
        assert(sub[0] == s[k] && sub[1] == s[k + 1]);
    }
}

/// The inside of a bold span: what stands before and behind an italic text.
proof fn lemma_bold_nested(x: Seq<char>, t: Seq<char>, y: Seq<char>)
    requires
        wordy(x),
        constructs::plain_text(t),
        wordy(y),
    ensures
        spans::bold_from(around(x, around(seq!['*'], t, seq!['*']), y), 0) == around(
            x,
            around(seq!['_'], t, seq!['_']),
            y,
        ),
{
    let star = seq!['*'];
    let z = around(x, around(star, t, star), y);
    let a = x.len() as int;
    let b = a + 1 + t.len();
    let n = z.len() as int;
    assert(z[a] == '*' && z[b] == '*');
    assert forall|k: int| 0 <= k < a implies #[trigger] z[k] == x[k] by {}
    assert forall|k: int| a < k < b implies #[trigger] z[k] == t[k - a - 1] by {}
    assert forall|k: int| b < k < n implies #[trigger] z[k] == y[k - b - 1] by {}
    assert(stands(z, a, around(star, t, star))) by {
        let w = around(star, t, star);
        assert forall|k: int| a <= k < a + w.len() implies #[trigger] z[k] == w[k - a] by {}
    }
    lemma_held(t, '*');
    lemma_marked(z, a, star, t);
    lemma_bold_text(z, 0, a);
    lemma_bold_text(z, b + 1, n);
    assert(z.subrange(0, a) == x);
    assert(z.subrange(b + 1, n) == y);
    assert(spans::bold_from(z, n) == Seq::<char>::empty());
    assert(spans::bold_step(z, a) == (seq!['_'] + t + seq!['_'], b + 1));
    assert(spans::bold_from(z, a) == (seq!['_'] + t + seq!['_']) + spans::bold_from(z, b + 1));
    assert(x + ((seq!['_'] + t + seq!['_']) + (y + Seq::<char>::empty())) == around(
        x,
        around(seq!['_'], t, seq!['_']),
        y,
    ));
}

/// Plain text inside of a bold span is kept.
proof fn lemma_bold_text(z: Seq<char>, i: int, n: int)
    requires
        0 <= i <= n <= z.len(),
        forall|k: int| i <= k < n ==> #[trigger] z[k] != '*' && z[k] != '`',
    ensures
        spans::bold_from(z, i) == z.subrange(i, n) + spans::bold_from(z, n),
    decreases n - i,
{
    if i < n {
        assert(z[i] != '*');
        constructs::lemma_no_marker(z, i, seq!['*']);
        lemma_bold_text(z, i + 1, n);
        assert(spans::bold_step(z, i) == (seq![z[i]], i + 1));
        assert(z.subrange(i, n) == seq![z[i]] + z.subrange(i + 1, n));
        assert(seq![z[i]] + (z.subrange(i + 1, n) + spans::bold_from(z, n)) == z.subrange(i, n)
            + spans::bold_from(z, n));
    } else {
        assert(z.subrange(i, n) + spans::bold_from(z, n) == spans::bold_from(z, n));
    }
}

/// A bold span is converted where it stands.
proof fn lemma_bold_stands(s: Seq<char>, i: int, e: int, z: Seq<char>, out: Seq<char>)
    requires
        0 <= i,
        i + 2 < e < s.len(),
        s[i] == '*',
        spans::span_end(s, seq!['*', '*', '*'], i) is None,
        text::occurs_at(s, i, seq!['*', '*']),
        spans::closing(s, seq!['*', '*'], i + 2) == Some(e),
        s.subrange(i + 2, e) == z,
        spans::bold_from(z, 0) == out,
    ensures
        spans::inline_step(s, i) == (seq!['*'] + out + seq!['*'], e + 2),
{
}

/// Italic text inside of a bold span is converted.
#[verifier::rlimit(60)]
proof fn lemma_inline_nested(s: Seq<char>, i: int, x: Seq<char>, t: Seq<char>, y: Seq<char>)
    requires
        sound(Part::Nested(x, t, y)),
        stands(s, i, written(Part::Nested(x, t, y))),
    ensures
        spans::inline_step(s, i) == (
            formatted(Part::Nested(x, t, y)),
            i + written(Part::Nested(x, t, y)).len(),
        ),
{
    let two = seq!['*', '*'];
    let z = around(x, around(seq!['*'], t, seq!['*']), y);
    let w = around(two, z, two);
    let a = i + 2;
    let e = a + z.len();
    lemma_stands_part(s, i, two, z, two);
    assert(s[i] == two[0] && s[i + 1] == two[1]);
    assert(s[e] == two[0] && s[e + 1] == two[1]);
    assert(s.subrange(i, a) == two);
    assert(s.subrange(e, e + 2) == two);
    assert(constructs::plain_char(x[0]));
    assert(constructs::plain_char(t[0]));
    assert(constructs::plain_char(y[0]));
    assert(s[a] == z[0]);
    lemma_shorter(s, i, two, seq!['*', '*', '*']);
    assert forall|k: int| a <= k < e implies #[trigger] s[k] != '`' && !text::occurs_at(
        s,
        k,
        two,
    ) by {
        assert(s[k] == z[k - a]);
        let j = k - a;
        if j < x.len() {
            assert(z[j] == x[j]);
            assert(constructs::plain_char(x[j]));
        } else if j == x.len() {
            assert(s[k + 1] == z[j + 1]);
            assert(z[j + 1] == t[0]);
        } else if j < x.len() + 1 + t.len() {
            assert(z[j] == t[j - x.len() - 1]);
            assert(constructs::plain_char(t[j - x.len() - 1]));
        } else if j == x.len() + 1 + t.len() {
            assert(s[k + 1] == z[j + 1]);
            assert(z[j + 1] == y[0]);
        } else {
            assert(z[j] == y[j - x.len() - t.len() - 2]);
            assert(constructs::plain_char(y[j - x.len() - t.len() - 2]));
        }
        lemma_no_stars(s, k);
    }
    lemma_closes_later(s, two, a, e);
    assert(s.subrange(a, e) == z) by {
        assert forall|k: int| 0 <= k < z.len() implies s.subrange(a, e)[k] == z[k] by {
            assert(s[a + k] == z[k]);
        }
    }
    lemma_bold_nested(x, t, y);
    lemma_bold_stands(s, i, e, z, around(x, around(seq!['_'], t, seq!['_']), y));
}

/// Code inside of a bold span is kept, and markers in it close nothing.
#[verifier::rlimit(60)]
proof fn lemma_inline_bold_code(
    s: Seq<char>,
    i: int,
    x: Seq<char>,
    n: nat,
    c: Seq<char>,
    y: Seq<char>,
)
    requires
        sound(Part::BoldCode(x, n, c, y)),
        stands(s, i, written(Part::BoldCode(x, n, c, y))),
    ensures
        spans::inline_step(s, i) == (
            formatted(Part::BoldCode(x, n, c, y)),
            i + written(Part::BoldCode(x, n, c, y)).len(),
        ),
{
    let two = seq!['*', '*'];
    let code = around(ticks(n), c, ticks(n));
    let z = around(x, code, y);
    let a = i + 2;
    let b = a + x.len();
    let d = b + code.len();
    let e = a + z.len();
    lemma_stands_part(s, i, two, z, two);
    lemma_stands_part(s, a, x, code, y);
    assert(s[i] == two[0] && s[i + 1] == two[1]);
    assert(s[e] == two[0] && s[e + 1] == two[1]);
    assert(s.subrange(i, a) == two);
    assert(s.subrange(e, e + 2) == two);
    assert(constructs::plain_char(x[0]));
    assert(constructs::plain_char(y[0]));
    assert(s[a] == x[0]);
    assert(s[d] == y[0]);
    lemma_shorter(s, i, two, seq!['*', '*', '*']);
    assert forall|k: int| a <= k < b implies #[trigger] s[k] != '`' && !text::occurs_at(
        s,
        k,
        two,
    ) by {
        assert(s[k] == x[k - a]);
        assert(constructs::plain_char(x[k - a]));
        lemma_no_stars(s, k);
    }
    assert forall|k: int| d <= k < e implies #[trigger] s[k] != '`' && !text::occurs_at(
        s,
        k,
        two,
    ) by {
        assert(s[k] == y[k - d]);
        assert(constructs::plain_char(y[k - d]));
        lemma_no_stars(s, k);
    }
    lemma_code_end(s, b, d, n, c);
    lemma_closes_later(s, two, a, b);
    lemma_closes_later(s, two, d, e);
    assert(s.subrange(a, e) == z) by {
        assert forall|k: int| 0 <= k < z.len() implies s.subrange(a, e)[k] == z[k] by {
            assert(s[a + k] == z[k]);
        }
    }
    lemma_bold_with_code(x, n, c, y);
    lemma_bold_stands(s, i, e, z, z);
}

/// The inside of a bold span with code in it is kept.
proof fn lemma_bold_with_code(x: Seq<char>, n: nat, c: Seq<char>, y: Seq<char>)
    requires
        sound(Part::BoldCode(x, n, c, y)),
    ensures
        spans::bold_from(around(x, around(ticks(n), c, ticks(n)), y), 0) == around(
            x,
            around(ticks(n), c, ticks(n)),
            y,
        ),
{
    let code = around(ticks(n), c, ticks(n));
    let z = around(x, code, y);
    let b = x.len() as int;
    let d = b + code.len();
    let e = z.len() as int;
    assert forall|k: int| 0 <= k < b implies #[trigger] z[k] != '*' && z[k] != '`' by {
        assert(z[k] == x[k]);
        assert(constructs::plain_char(x[k]));
    }
    assert forall|k: int| d <= k < e implies #[trigger] z[k] != '*' && z[k] != '`' by {
        assert(z[k] == y[k - d]);
        assert(constructs::plain_char(y[k - d]));
    }
    assert forall|k: int| b <= k < d implies #[trigger] z[k] == code[k - b] by {}
    lemma_code_end(z, b, d, n, c);
    lemma_bold_text(z, 0, b);
    lemma_bold_text(z, d, e);
    assert(spans::bold_from(z, e) == Seq::<char>::empty());
    assert(spans::bold_from(z, b) == z.subrange(b, d) + spans::bold_from(z, d));
    assert(z.subrange(0, b) + (z.subrange(b, d) + (z.subrange(d, e) + Seq::<char>::empty())) == z);
}

/// The pass on inline constructs converts a line part by part.
proof fn lemma_inline_parts(ps: Seq<Part>, j: int)
    requires
        valid(ps),
        all_apart(ps),
        0 <= j <= ps.len(),
    ensures
        spans::inline_from(line(ps, 0), offset(ps, 0, j)) == line(ps, 1).skip(offset(ps, 1, j)),
    decreases ps.len() - j,
{
    let s = line(ps, 0);
    assert(ps.take(ps.len() as int) == ps);
    if j < ps.len() {
        lemma_inline_parts(ps, j + 1);
        lemma_neighbours(ps, 0, j);
        lemma_part_at(ps, 0, j);
        lemma_rest(ps, 1, j);
        let p = ps[j];
        let i = offset(ps, 0, j);
        let n = offset(ps, 0, j + 1);
        assert(sound(p));
        assert(apart(ps, j));
        if j + 1 < ps.len() {
            assert(fits(ps[j], ps[j + 1]));
            assert(sound(ps[j + 1]));
            if let Part::Words(w) = ps[j + 1] {
                assert(constructs::plain_char(w[0]));
            }
        }
        if j > 0 {
            assert(fits(ps[j - 1], ps[j]));
            assert(sound(ps[j - 1]));
        }
        lemma_inline_part(s, i, p);
        reveal(gives);
    } else {
        assert(line(ps, 1).skip(line(ps, 1).len() as int) == Seq::<char>::empty());
    }
}

/// The line after the pass on inline constructs.
pub proof fn lemma_inline_line(ps: Seq<Part>)
    requires
        valid(ps),
        all_apart(ps),
    ensures
        spans::inline_line(line(ps, 0)) == line(ps, 1),
{
    lemma_inline_parts(ps, 0);
    assert(ps.take(0) == Seq::<Part>::empty());
    assert(line(ps, 1).skip(0) == line(ps, 1));
}

/// Up to a position, text without inline code, brackets and web addresses is
/// kept by the pass on web addresses.
pub proof fn lemma_wrap_text(s: Seq<char>, i: int, n: int)
    requires
        0 <= i <= n <= s.len(),
        forall|k: int| i <= k < n ==> #[trigger] s[k] != '`' && s[k] != '<',
        forall|k: int| i <= k < n ==> #[trigger] constructs::no_address_at(s, k),
        i < n ==> constructs::no_address_at(s, n) || !urls::quotation_mark(s[n - 1]),
    ensures
        urls::wrap_from(s, i) == s.subrange(i, n) + urls::wrap_from(s, n),
    decreases n - i,
{
    if i < n {
        lemma_wrap_text(s, i + 1, n);
        assert(constructs::no_address_at(s, i));
        if i + 1 < n {
            assert(constructs::no_address_at(s, i + 1));
        }
        assert(urls::wrap_step(s, i) == (seq![s[i]], i + 1));
        assert(s.subrange(i, n) == seq![s[i]] + s.subrange(i + 1, n));
        assert(seq![s[i]] + (s.subrange(i + 1, n) + urls::wrap_from(s, n)) == s.subrange(i, n)
            + urls::wrap_from(s, n));
    } else {
        assert(s.subrange(i, n) + urls::wrap_from(s, n) == urls::wrap_from(s, n));
    }
}

/// A prefix of a web address has its `h` at its start only.
pub proof fn lemma_prefixes()
    ensures
        "http://"@ == seq!['h', 't', 't', 'p', ':', '/', '/'],
        "https://"@ == seq!['h', 't', 't', 'p', 's', ':', '/', '/'],
{
    reveal_strlit("http://");
    reveal_strlit("https://");
    assert("http://"@ == seq!['h', 't', 't', 'p', ':', '/', '/']);
    assert("https://"@ == seq!['h', 't', 't', 'p', 's', ':', '/', '/']);
}

/// No web address begins in a text without one, if what follows it can be no
/// part of one.
pub proof fn lemma_no_address_in(s: Seq<char>, i: int, x: Seq<char>, k: int)
    requires
        stands(s, i, x),
        x.len() > 0,
        forall|a: int| #[trigger] constructs::no_address_at(x, a),
        ({
            let n = (i + x.len()) as int;
            n == s.len() || constructs::address_free(s[n]) || s[n] == 'h'
                || constructs::address_free(x.last())
        }),
        i <= k < i + x.len(),
    ensures
        constructs::no_address_at(s, k),
{
    lemma_prefixes();
    assert(constructs::no_address_at(x, k - i));
    if text::occurs_at(s, k, "http://"@) {
        lemma_no_prefix_in(s, i, x, k, "http://"@);
    }
    if text::occurs_at(s, k, "https://"@) {
        lemma_no_prefix_in(s, i, x, k, "https://"@);
    }
}

/// A prefix of a web address that begins in a text lies in it.
proof fn lemma_no_prefix_in(s: Seq<char>, i: int, x: Seq<char>, k: int, p: Seq<char>)
    requires
        stands(s, i, x),
        x.len() > 0,
        forall|a: int| 0 <= a < p.len() ==> !constructs::address_free(#[trigger] p[a]),
        forall|a: int| 0 < a < p.len() ==> #[trigger] p[a] != 'h',
        ({
            let n = (i + x.len()) as int;
            n == s.len() || constructs::address_free(s[n]) || s[n] == 'h'
                || constructs::address_free(x.last())
        }),
        i <= k < i + x.len(),
        text::occurs_at(s, k, p),
    ensures
        text::occurs_at(x, k - i, p),
{
    let n = (i + x.len()) as int;
    let sub = s.subrange(k, k + p.len());
    if k + p.len() > n {
        assert(sub[n - k] == s[n]);
        assert(sub[n - k] == p[n - k]);
        assert(sub[n - 1 - k] == s[n - 1]);
        assert(s[n - 1] == x[n - 1 - i]);
        assert(sub[n - 1 - k] == p[n - 1 - k]);
    } else {
        assert(x.subrange(k - i, k - i + p.len()) == sub) by {
            assert forall|a: int| 0 <= a < p.len() implies x.subrange(k - i, k - i + p.len())[a]
                == sub[a] by {
                assert(s[k + a] == x[k + a - i]);
            }
        }
    }
}

/// The part is plain text for the pass on web addresses.
pub open spec fn texty(p: Part) -> bool {
    match p {
        Part::Words(_) => true,
        Part::Bold(_) => true,
        Part::BoldItalic(_) => true,
        Part::Italic(_) => true,
        Part::Underscored(_) => true,
        Part::Struck(_) => true,
        Part::Nested(_, _, _) => true,
        Part::Relative(_, _) => true,
        Part::Sign(c) => c != '<',
        Part::Escaped(c) => c != '<',
        Part::Star => true,
        Part::Square(_) => true,
        Part::Lone(_) => true,
        _ => false,
    }
}

/// Plain text for the pass on web addresses has none, and no brackets.
proof fn lemma_texty(p: Part)
    requires
        sound(p),
        texty(p),
    ensures
        forall|a: int| #[trigger] constructs::no_address_at(formatted(p), a),
        forall|a: int|
            0 <= a < formatted(p).len() ==> #[trigger] formatted(p)[a] != '`' && formatted(p)[a]
                != '<',
        wrapped(p) == formatted(p),
        formatted(p).len() > 0,
{
    lemma_prefixes();
    let x = formatted(p);
    match p {
        Part::Words(t) => {
            assert forall|a: int| 0 <= a < x.len() implies #[trigger] x[a] != '`' && x[a]
                != '<' by {
                assert(constructs::plain_char(t[a]));
            }
        },
        Part::Bold(t) => {
            lemma_texty_around(seq!['*'], t, seq!['*']);
        },
        Part::BoldItalic(t) => {
            lemma_texty_around(seq!['*', '_'], t, seq!['_', '*']);
        },
        Part::Italic(t) => {
            lemma_texty_around(seq!['_'], t, seq!['_']);
        },
        Part::Underscored(t) => {
            lemma_texty_around(seq!['*'], t, seq!['*']);
        },
        Part::Struck(t) => {
            lemma_texty_around(seq!['~'], t, seq!['~']);
        },
        Part::Nested(a, t, b) => {
            lemma_texty_nested(a, t, b);
        },
        Part::Square(t) => {
            assert forall|k: int| 0 <= k < t.len() implies inner_char(#[trigger] t[k]) by {
                assert(constructs::plain_char(t[k]));
            }
            lemma_texty_around(seq!['['], t, seq![']']);
        },
        Part::Relative(t, u) => {
            assert forall|a: int| 0 <= a < x.len() implies #[trigger] x[a] != '`' && x[a]
                != '<' by {
                assert(constructs::plain_char(t[a]));
            }
        },
        _ => {
            assert forall|a: int| #[trigger] constructs::no_address_at(x, a) by {
                assert(x.len() == 1);
            }
        },
    }
}

/// A plain text between marks has no web address, and no brackets.
proof fn lemma_texty_around(a: Seq<char>, t: Seq<char>, b: Seq<char>)
    requires
        forall|k: int| 0 <= k < t.len() ==> inner_char(#[trigger] t[k]),
        forall|k: int| #[trigger] constructs::no_address_at(t, k),
        forall|k: int|
            0 <= k < a.len() ==> #[trigger] a[k] == '*' || a[k] == '_' || a[k] == '~' || a[k]
                == '[',
        forall|k: int|
            0 <= k < b.len() ==> #[trigger] b[k] == '*' || b[k] == '_' || b[k] == '~' || b[k]
                == ']',
    ensures
        forall|k: int| #[trigger] constructs::no_address_at(around(a, t, b), k),
        forall|k: int|
            0 <= k < around(a, t, b).len() ==> #[trigger] around(a, t, b)[k] != '`' && around(
                a,
                t,
                b,
            )[k] != '<',
{
    let x = around(a, t, b);
    assert forall|k: int| 0 <= k < a.len() implies constructs::address_free(#[trigger] a[k]) by {}
    assert forall|k: int| 0 <= k < b.len() implies constructs::address_free(#[trigger] b[k]) by {}
    constructs::lemma_no_address(a, t, b);
    assert forall|k: int| 0 <= k < x.len() implies #[trigger] x[k] != '`' && x[k] != '<' by {
        if a.len() <= k < a.len() + t.len() {
            assert(x[k] == t[k - a.len()]);
            assert(inner_char(t[k - a.len()]));
        } else if k < a.len() {
            assert(x[k] == a[k]);
        } else {
            assert(x[k] == b[k - a.len() - t.len()]);
        }
    }
}

/// A bold text with italic text in it has no web address, and no brackets.
proof fn lemma_texty_nested(x: Seq<char>, t: Seq<char>, y: Seq<char>)
    requires
        wordy(x),
        constructs::plain_text(t),
        wordy(y),
    ensures
        ({
            let z = shown(Part::Nested(x, t, y));
            &&& forall|k: int| #[trigger] constructs::no_address_at(z, k)
            &&& forall|k: int|
                0 <= k < z.len() ==> #[trigger] z[k] != '`' && z[k] != '<' && z[k] != '&' && z[k]
                    != '>'
        }),
{
    let star = seq!['*'];
    let z = shown(Part::Nested(x, t, y));
    let a = 1int;
    let b = a + x.len();
    let d = b + 2 + t.len();
    assert(z == star + x + seq!['_'] + t + seq!['_'] + y + star);
    assert(stands(z, a, x)) by {
        assert forall|k: int| a <= k < a + x.len() implies #[trigger] z[k] == x[k - a] by {}
    }
    assert(stands(z, b + 1, t)) by {
        assert forall|k: int| b + 1 <= k < b + 1 + t.len() implies #[trigger] z[k] == t[k - b
            - 1] by {}
    }
    assert(stands(z, d, y)) by {
        assert forall|k: int| d <= k < d + y.len() implies #[trigger] z[k] == y[k - d] by {}
    }
    lemma_prefixes();
    assert forall|k: int| #[trigger] constructs::no_address_at(z, k) by {
        if a <= k < b {
            lemma_no_address_in(z, a, x, k);
        } else if b + 1 <= k < d - 1 {
            lemma_no_address_in(z, b + 1, t, k);
        } else if d <= k < d + y.len() {
            lemma_no_address_in(z, d, y, k);
        } else if 0 <= k < z.len() {
            lemma_no_address_by(z, k);
        }
    }
    assert forall|k: int| 0 <= k < z.len() implies #[trigger] z[k] != '`' && z[k] != '<' && z[k]
        != '&' && z[k] != '>' by {
        if a <= k < b {
            assert(constructs::plain_char(x[k - a]));
        } else if b + 1 <= k < d - 1 {
            assert(constructs::plain_char(t[k - b - 1]));
        } else if d <= k < d + y.len() {
            assert(constructs::plain_char(y[k - d]));
        }
    }
}

/// Slack's syntax in angle brackets ends at its bracket.
proof fn lemma_bracket_stands(s: Seq<char>, i: int, x: Seq<char>)
    requires
        stands(s, i, x),
        x.len() >= 2,
        x[0] == '<',
        x.last() == '>',
        forall|k: int| 0 < k < x.len() - 1 ==> #[trigger] x[k] != '>' && x[k] != '`',
        brackets::slack_syntax_at(s, i + 1),
    ensures
        brackets::bracket_end(s, i) == Some((i + x.len()) as int),
        s.subrange(i, (i + x.len()) as int) == x,
        s[i] == '<',
{
    let n = (i + x.len()) as int;
    assert(s[i] == x[0]);
    assert(s[n - 1] == x[n - 1 - i]);
    assert forall|k: int| i + 1 <= k < n - 1 implies #[trigger] s[k] != '>' && s[k] != '`' by {
        assert(s[k] == x[k - i]);
    }
    constructs::lemma_finds(s, '>', i + 1, n - 1);
    assert(s.subrange(i, n) == x) by {
        assert forall|k: int| 0 <= k < x.len() implies s.subrange(i, n)[k] == x[k] by {
            assert(s[i + k] == x[k]);
        }
    }
}

/// A web address stands where its text does.
pub proof fn lemma_web_stands(s: Seq<char>, i: int, u: Seq<char>)
    requires
        web(u),
        stands(s, i, u),
    ensures
        urls::address_at(s, i),
        brackets::slack_syntax_at(s, i),
{
    lemma_web(u);
    lemma_prefixes();
    if text::occurs_at(u, 0, "http://"@) {
        assert(s.subrange(i, i + 7) == u.subrange(0, 7)) by {
            assert forall|k: int| 0 <= k < 7 implies s.subrange(i, i + 7)[k] == u.subrange(
                0,
                7,
            )[k] by {
                assert(s[i + k] == u[k]);
            }
        }
    } else {
        assert(s.subrange(i, i + 8) == u.subrange(0, 8)) by {
            assert forall|k: int| 0 <= k < 8 implies s.subrange(i, i + 8)[k] == u.subrange(
                0,
                8,
            )[k] by {
                assert(s[i + k] == u[k]);
            }
        }
    }
}

/// A part of a text that stands in a line stands in it.
proof fn lemma_stands_part(s: Seq<char>, i: int, a: Seq<char>, t: Seq<char>, b: Seq<char>)
    requires
        stands(s, i, around(a, t, b)),
    ensures
        stands(s, (i + a.len()) as int, t),
        stands(s, i, a),
        stands(s, (i + a.len() + t.len()) as int, b),
{
    let x = around(a, t, b);
    assert forall|k: int| i + a.len() <= k < i + a.len() + t.len() implies #[trigger] s[k] == t[k
        - (i + a.len())] by {
        assert(s[k] == x[k - i]);
    }
    assert forall|k: int| i <= k < i + a.len() implies #[trigger] s[k] == a[k - i] by {
        assert(s[k] == x[k - i]);
    }
    assert forall|k: int|
        i + a.len() + t.len() <= k < i + a.len() + t.len() + b.len() implies #[trigger] s[k] == b[k
        - (i + a.len() + t.len())] by {
        assert(s[k] == x[k - i]);
    }
}

/// A link, an image, a mention or an address in angle brackets is Slack's
/// syntax.
proof fn lemma_slack_stands(s: Seq<char>, i: int, p: Part)
    requires
        sound(p),
        p is Link || p is Image || p is Mention || p is Address || p is Ready || p is Titled
            || p is Mail,
        stands(s, i, shown(p)),
    ensures
        brackets::bracket_end(s, i) == Some((i + shown(p).len()) as int),
        s.subrange(i, (i + shown(p).len()) as int) == shown(p),
        s[i] == '<',
        shown(p).len() >= 2,
{
    let x = shown(p);
    match p {
        Part::Link(t, u) => {
            lemma_labelled_stands(s, i, t, u);
        },
        Part::Ready(u, t) => {
            lemma_label(t);
            lemma_labelled_stands(s, i, t, u);
        },
        Part::Titled(t, u, _, _) => {
            lemma_labelled_stands(s, i, t, u);
        },
        Part::Mail(t) => {
            reveal_strlit("mailto:");
            assert("mailto:"@ == mail_to().skip(1));
            assert(s.subrange(i + 1, i + 8) == mail_to().skip(1)) by {
                assert forall|k: int| 0 <= k < 7 implies s.subrange(i + 1, i + 8)[k]
                    == mail_to().skip(1)[k] by {
                    assert(s[i + 1 + k] == x[1 + k]);
                    assert(x[1 + k] == mail_to()[1 + k]);
                }
            }
            assert forall|k: int| 0 < k < x.len() - 1 implies #[trigger] x[k] != '>' && x[k]
                != '`' by {
                if k >= 8 {
                    assert(x[k] == t[k - 8]);
                    assert(constructs::plain_char(t[k - 8]) || t[k - 8] == '|');
                } else {
                    assert(x[k] == mail_to()[k]);
                }
            }
            assert(x.last() == '>');
            lemma_bracket_stands(s, i, x);
        },
        Part::Image(_, u) => {
            lemma_brackets_stand(s, i, u);
        },
        Part::Address(u) => {
            lemma_brackets_stand(s, i, u);
        },
        Part::Mention(m, id) => {
            assert(s[i + 1] == x[1]);
            assert forall|k: int| 0 < k < x.len() - 1 implies #[trigger] x[k] != '>' && x[k]
                != '`' by {
                if k >= 2 {
                    assert(x[k] == id[k - 2]);
                    assert(constructs::plain_char(id[k - 2]) || id[k - 2] == '|');
                }
            }
            lemma_bracket_stands(s, i, x);
        },
        _ => {},
    }
}

/// A web address with a label in angle brackets is Slack's syntax.
proof fn lemma_labelled_stands(s: Seq<char>, i: int, t: Seq<char>, u: Seq<char>)
    requires
        label(t),
        address(u),
        stands(s, i, around(seq!['<'] + u + seq!['|'], t, seq!['>'])),
    ensures
        ({
            let x = around(seq!['<'] + u + seq!['|'], t, seq!['>']);
            &&& brackets::bracket_end(s, i) == Some((i + x.len()) as int)
            &&& s.subrange(i, (i + x.len()) as int) == x
            &&& s[i] == '<'
        }),
{
    let x = around(seq!['<'] + u + seq!['|'], t, seq!['>']);
    lemma_web(u);
    assert(x == around(seq!['<'], u, seq!['|'] + t + seq!['>']));
    lemma_stands_part(s, i, seq!['<'], u, seq!['|'] + t + seq!['>']);
    lemma_web_stands(s, i + 1, u);
    assert forall|k: int| 0 < k < x.len() - 1 implies #[trigger] x[k] != '>' && x[k] != '`' by {
        if k < 1 + u.len() {
            assert(x[k] == u[k - 1]);
            assert(constructs::address_char(u[k - 1]));
        } else if k > 1 + u.len() {
            assert(x[k] == t[k - 2 - u.len()]);
            assert(label_char(t[k - 2 - u.len()]));
        }
    }
    lemma_bracket_stands(s, i, x);
}

/// A web address in angle brackets is Slack's syntax.
proof fn lemma_brackets_stand(s: Seq<char>, i: int, u: Seq<char>)
    requires
        address(u),
        stands(s, i, around(seq!['<'], u, seq!['>'])),
    ensures
        brackets::bracket_end(s, i) == Some(i + u.len() + 2),
        s.subrange(i, i + u.len() + 2) == around(seq!['<'], u, seq!['>']),
        s[i] == '<',
{
    let x = around(seq!['<'], u, seq!['>']);
    lemma_web(u);
    lemma_stands_part(s, i, seq!['<'], u, seq!['>']);
    lemma_web_stands(s, i + 1, u);
    assert forall|k: int| 0 < k < x.len() - 1 implies #[trigger] x[k] != '>' && x[k] != '`' by {
        assert(x[k] == u[k - 1]);
        assert(constructs::address_char(u[k - 1]));
    }
    lemma_bracket_stands(s, i, x);
}

/// The end of a web address.
proof fn lemma_url_ends(s: Seq<char>, mark: Option<char>, i: int, u: Seq<char>, k: int)
    requires
        plain_address(u),
        mark matches Some(c) ==> urls::quotation_mark(c),
        stands(s, i, u),
        i <= k <= i + u.len(),
        i + u.len() < s.len() ==> urls::ends_url(s[i + u.len()]) || mark == Some(s[i + u.len()]),
    ensures
        urls::url_end(s, mark, k) == i + u.len(),
    decreases i + u.len() - k,
{
    if k < i + u.len() {
        assert(s[k] == u[k - i]);
        assert(constructs::address_char(u[k - i]));
        assert(constructs::plain_char(u[k - i]));
        lemma_url_ends(s, mark, i, u, k + 1);
    }
}

/// A bare address is wrapped where it stands.
proof fn lemma_wrap_address(s: Seq<char>, i: int, p: Part)
    requires
        sound(p),
        p is Address || p is Quoted || p is Bracketed,
        stands(s, i, formatted(p)),
        p is Address && i + formatted(p).len() < s.len() ==> s[i + formatted(p).len()] == ' ',
        constructs::no_address_at(s, (i + formatted(p).len()) as int),
    ensures
        urls::wrap_from(s, i) == wrapped(p) + urls::wrap_from(
            s,
            (i + formatted(p).len()) as int,
        ),
{
    match p {
        Part::Address(u) => {
            lemma_web(u);
            lemma_web_stands(s, i, u);
            lemma_url_ends(s, None, i, u, i);
            assert(s[i] == u[0]);
            let n = i + u.len();
            assert(s.subrange(i, n) == u) by {
                assert forall|k: int| 0 <= k < u.len() implies s.subrange(i, n)[k] == u[k] by {
                    assert(s[i + k] == u[k]);
                }
            }
        },
        Part::Quoted(q, u) => {
            lemma_web(u);
            lemma_stands_part(s, i, seq![q], u, seq![q]);
            lemma_web_stands(s, i + 1, u);
            let n = i + 1 + u.len();
            assert(s[i] == formatted(p)[0]);
            assert(s[n] == formatted(p)[(u.len() + 1) as int]);
            lemma_url_ends(s, Some(q), i + 1, u, i + 1);
            lemma_no_address_by(s, i);
            assert(s.subrange(i + 1, n) == u) by {
                assert forall|k: int| 0 <= k < u.len() implies s.subrange(i + 1, n)[k] == u[k] by {
                    assert(s[i + 1 + k] == u[k]);
                }
            }
            assert(urls::wrap_step(s, i) == (seq![q, '<'] + u + seq!['>'], n));
            lemma_last_char(s, n);
            let rest = urls::wrap_from(s, n + 1);
            assert(wrapped(p) == seq![q, '<'] + u + seq!['>'] + seq![q]);
            assert((seq![q, '<'] + u + seq!['>']) + (seq![q] + rest) == wrapped(p) + rest);
        },
        Part::Bracketed(o, u, c) => {
            lemma_wrap_bracketed(s, i, o, u, c);
        },
        _ => {},
    }
}

/// No address begins at a character other than `h`.
pub proof fn lemma_no_address_by(s: Seq<char>, i: int)
    requires
        0 <= i < s.len(),
        s[i] != 'h',
    ensures
        constructs::no_address_at(s, i),
        !urls::address_at(s, i),
{
    lemma_prefixes();
    if text::occurs_at(s, i, "http://"@) {
        assert(s.subrange(i, i + 7)[0] == s[i]);
    }
    if text::occurs_at(s, i, "https://"@) {
        assert(s.subrange(i, i + 8)[0] == s[i]);
    }
}

/// A quotation mark behind an address is kept, as no address follows it.
proof fn lemma_last_char(s: Seq<char>, n: int)
    requires
        0 <= n < s.len(),
        urls::quotation_mark(s[n]),
        !urls::address_at(s, n + 1),
    ensures
        urls::wrap_from(s, n) == seq![s[n]] + urls::wrap_from(s, n + 1),
{
    lemma_no_address_by(s, n);
    assert(urls::wrap_step(s, n) == (seq![s[n]], n + 1));
}

/// A bare address in brackets is wrapped where it stands.
proof fn lemma_wrap_bracketed(s: Seq<char>, i: int, o: char, u: Seq<char>, c: char)
    requires
        sound(Part::Bracketed(o, u, c)),
        stands(s, i, around(seq![o], u, seq![c])),
    ensures
        urls::wrap_from(s, i) == around(seq![o, '<'], u, seq!['>', c]) + urls::wrap_from(
            s,
            i + u.len() + 2,
        ),
{
    let x = around(seq![o], u, seq![c]);
    let n = i + 1 + u.len();
    lemma_web(u);
    lemma_stands_part(s, i, seq![o], u, seq![c]);
    lemma_web_stands(s, i + 1, u);
    assert(s[i] == x[0]);
    assert(s[i + 1] == u[0]);
    assert(s[n] == x[n - i]);
    lemma_url_ends(s, None, i + 1, u, i + 1);
    lemma_no_address_by(s, i);
    lemma_no_address_by(s, n);
    assert(urls::wrap_step(s, i) == (seq![o], i + 1));
    assert(urls::wrap_step(s, n) == (seq![c], n + 1));
    assert(s.subrange(i + 1, n) == u) by {
        assert forall|k: int| 0 <= k < u.len() implies s.subrange(i + 1, n)[k] == u[k] by {
            assert(s[i + 1 + k] == u[k]);
        }
    }
    let rest = urls::wrap_from(s, n + 1);
    assert(urls::wrap_from(s, n) == seq![c] + rest);
    assert(urls::wrap_from(s, i + 1) == (seq!['<'] + u + seq!['>']) + urls::wrap_from(s, n));
    assert(urls::wrap_from(s, i) == seq![o] + urls::wrap_from(s, i + 1));
    assert(urls::wrap_from(s, i) == seq![o] + ((seq!['<'] + u + seq!['>']) + (seq![c] + rest)));
    assert(seq![o] + ((seq!['<'] + u + seq!['>']) + (seq![c] + rest)) == around(
        seq![o, '<'],
        u,
        seq!['>', c],
    ) + rest);
}

/// A sign that opens no syntax of Slack's.
proof fn lemma_no_syntax(s: Seq<char>, i: int)
    requires
        0 <= i < s.len(),
        i + 1 < s.len() ==> s[i + 1] == ' ',
    ensures
        brackets::bracket_end(s, i) is None,
{
    lemma_prefixes();
    reveal_strlit("mailto:");
    if text::occurs_at(s, i + 1, "http://"@) {
        assert(s.subrange(i + 1, i + 8)[0] == s[i + 1]);
    }
    if text::occurs_at(s, i + 1, "https://"@) {
        assert(s.subrange(i + 1, i + 9)[0] == s[i + 1]);
    }
    if text::occurs_at(s, i + 1, "mailto:"@) {
        assert(s.subrange(i + 1, i + 8)[0] == s[i + 1]);
    }
}

/// What a part needs behind it, in the pass on web addresses.
pub open spec fn good_end(s: Seq<char>, n: int, p: Part) -> bool {
    &&& p is Address || p is Relative || p == Part::Sign('<') || p == Part::Escaped('<') ==> (n
        < s.len() ==> s[n] == ' ')
    &&& p is Code && n < s.len() ==> s[n] != '`'
    &&& p is Quoted || p is Bracketed || p is Address ==> constructs::no_address_at(s, n)
    &&& p matches Part::Words(w) ==> {
        &&& n == s.len() || constructs::address_free(s[n]) || s[n] == 'h'
            || constructs::address_free(w.last())
        &&& constructs::no_address_at(s, n) || !urls::quotation_mark(w.last())
    }
}

/// The pass on web addresses converts a part where it stands.
proof fn lemma_wrap_part(s: Seq<char>, i: int, p: Part)
    requires
        sound(p),
        stands(s, i, formatted(p)),
        good_end(s, (i + formatted(p).len()) as int, p),
    ensures
        urls::wrap_from(s, i) == wrapped(p) + urls::wrap_from(
            s,
            (i + formatted(p).len()) as int,
        ),
{
    lemma_form_not_empty(p, 1);
    let x = formatted(p);
    let n = (i + x.len()) as int;
    if texty(p) {
        lemma_wrap_texty(s, i, p);
    } else if p is Address || p is Quoted || p is Bracketed {
        lemma_wrap_address(s, i, p);
    } else if p is Link || p is Image || p is Mention || p is Ready || p is Titled
        || p is Mail {
        lemma_slack_stands(s, i, p);
    } else if let Part::BoldCode(a, w, c, b) = p {
        lemma_wrap_bold_code(s, i, a, w, c, b);
    } else if let Part::Code(w, t) = p {
        lemma_code_end(s, i, n, w, t);
        assert(s.subrange(i, n) == x) by {
            assert forall|k: int| 0 <= k < x.len() implies s.subrange(i, n)[k] == x[k] by {
                assert(s[i + k] == x[k]);
            }
        }
    } else {
        assert(x == seq!['<']);
        assert(s[i] == x[0]);
        lemma_no_syntax(s, i);
        lemma_no_address_by(s, i);
        assert(urls::wrap_step(s, i) == (seq!['<'], i + 1));
    }
}

/// Text, code and text in a line, none of which the later passes change.
spec fn lies(s: Seq<char>, i: int, b: int, d: int, e: int) -> bool {
    &&& 0 <= i < b < d < e <= s.len()
    &&& forall|k: int|
        i <= k < b ==> #[trigger] s[k] != '`' && s[k] != '<' && s[k] != '&' && s[k] != '>'
    &&& forall|k: int|
        d <= k < e ==> #[trigger] s[k] != '`' && s[k] != '<' && s[k] != '&' && s[k] != '>'
    &&& forall|k: int| i <= k < b ==> #[trigger] constructs::no_address_at(s, k)
    &&& forall|k: int| d <= k < e ==> #[trigger] constructs::no_address_at(s, k)
    &&& constructs::no_address_at(s, b)
    &&& s[b] == '`'
    &&& spans::ticks_end(s, b) == d
    &&& !urls::quotation_mark(s[e - 1])
}

/// The later passes keep text, code and text.
proof fn lemma_lying_kept(s: Seq<char>, i: int, b: int, d: int, e: int)
    requires
        lies(s, i, b, d, e),
    ensures
        urls::wrap_from(s, i) == s.subrange(i, e) + urls::wrap_from(s, e),
        entities::escape_from(s, i) == s.subrange(i, e) + entities::escape_from(s, e),
{
    lemma_wrap_text(s, i, b);
    lemma_wrap_text(s, d, e);
    constructs::lemma_escape_before(s, i, b);
    constructs::lemma_escape_before(s, d, e);
    assert(urls::wrap_step(s, b) == (s.subrange(b, d), d));
    assert(entities::escape_step(s, b) == (s.subrange(b, d), d));
    assert(urls::wrap_from(s, b) == s.subrange(b, d) + urls::wrap_from(s, d));
    assert(entities::escape_from(s, b) == s.subrange(b, d) + entities::escape_from(s, d));
    let r1 = urls::wrap_from(s, e);
    let r2 = entities::escape_from(s, e);
    assert(s.subrange(i, b) + (s.subrange(b, d) + (s.subrange(d, e) + r1)) == s.subrange(i, e)
        + r1);
    assert(s.subrange(i, b) + (s.subrange(b, d) + (s.subrange(d, e) + r2)) == s.subrange(i, e)
        + r2);
}

/// Bold text with code in it is text, code and text.
#[verifier::rlimit(30)]
proof fn lemma_bold_code_lies(
    s: Seq<char>,
    i: int,
    x: Seq<char>,
    n: nat,
    c: Seq<char>,
    y: Seq<char>,
)
    requires
        sound(Part::BoldCode(x, n, c, y)),
        stands(s, i, shown(Part::BoldCode(x, n, c, y))),
    ensures
        lies(
            s,
            i,
            (i + 1 + x.len()) as int,
            (i + 1 + x.len() + 2 * n + c.len()) as int,
            (i + shown(Part::BoldCode(x, n, c, y)).len()) as int,
        ),
{
    let star = seq!['*'];
    let code = around(ticks(n), c, ticks(n));
    let w = shown(Part::BoldCode(x, n, c, y));
    let left = star + x;
    let right = y + star;
    assert(w == around(left, code, right));
    lemma_stands_part(s, i, left, code, right);
    let b = (i + left.len()) as int;
    let d = (b + code.len()) as int;
    let e = (i + w.len()) as int;
    let none = Seq::<char>::empty();
    lemma_words_marked(star, x, none);
    lemma_words_marked(none, y, star);
    assert(around(star, x, none) == left);
    assert(around(none, y, star) == right);
    assert(s[b] == code[0] && s[d] == right[0]);
    assert(constructs::plain_char(y[0]));
    assert(right[0] == y[0]);
    lemma_code_end(s, b, d, n, c);
    lemma_no_address_by(s, b);
    assert forall|k: int| i <= k < b implies #[trigger] s[k] != '`' && s[k] != '<' && s[k] != '&'
        && s[k] != '>' by {
        assert(s[k] == left[k - i]);
    }
    assert forall|k: int| d <= k < e implies #[trigger] s[k] != '`' && s[k] != '<' && s[k] != '&'
        && s[k] != '>' by {
        assert(s[k] == right[k - d]);
    }
    assert forall|k: int| i <= k < b implies #[trigger] constructs::no_address_at(s, k) by {
        lemma_no_address_in(s, i, left, k);
    }
    assert(right.last() == '*');
    assert forall|k: int| d <= k < e implies #[trigger] constructs::no_address_at(s, k) by {
        lemma_no_address_in(s, d, right, k);
    }
    assert(s[e - 1] == right[e - 1 - d]);
}

/// The later passes keep bold text with code in it.
proof fn lemma_wrap_bold_code(
    s: Seq<char>,
    i: int,
    x: Seq<char>,
    n: nat,
    c: Seq<char>,
    y: Seq<char>,
)
    requires
        sound(Part::BoldCode(x, n, c, y)),
        stands(s, i, shown(Part::BoldCode(x, n, c, y))),
    ensures
        urls::wrap_from(s, i) == shown(Part::BoldCode(x, n, c, y)) + urls::wrap_from(
            s,
            (i + shown(Part::BoldCode(x, n, c, y)).len()) as int,
        ),
        entities::escape_from(s, i) == shown(Part::BoldCode(x, n, c, y)) + entities::escape_from(
            s,
            (i + shown(Part::BoldCode(x, n, c, y)).len()) as int,
        ),
{
    let w = shown(Part::BoldCode(x, n, c, y));
    lemma_bold_code_lies(s, i, x, n, c, y);
    lemma_stands_whole(s, i, w);
    lemma_lying_kept(
        s,
        i,
        (i + 1 + x.len()) as int,
        (i + 1 + x.len() + 2 * n + c.len()) as int,
        (i + w.len()) as int,
    );
}

/// Words next to a mark have no web address, and no brackets.
proof fn lemma_words_marked(a: Seq<char>, t: Seq<char>, b: Seq<char>)
    requires
        wordy(t),
        forall|k: int| 0 <= k < a.len() ==> #[trigger] a[k] == '*',
        forall|k: int| 0 <= k < b.len() ==> #[trigger] b[k] == '*',
    ensures
        forall|k: int| #[trigger] constructs::no_address_at(around(a, t, b), k),
        forall|k: int|
            0 <= k < around(a, t, b).len() ==> #[trigger] around(a, t, b)[k] != '`' && around(
                a,
                t,
                b,
            )[k] != '<' && around(a, t, b)[k] != '&' && around(a, t, b)[k] != '>',
{
    let x = around(a, t, b);
    assert forall|k: int| 0 <= k < a.len() implies constructs::address_free(#[trigger] a[k]) by {}
    assert forall|k: int| 0 <= k < b.len() implies constructs::address_free(#[trigger] b[k]) by {}
    constructs::lemma_no_address(a, t, b);
    assert forall|k: int| 0 <= k < x.len() implies #[trigger] x[k] != '`' && x[k] != '<' && x[k]
        != '&' && x[k] != '>' by {
        if a.len() <= k < a.len() + t.len() {
            assert(x[k] == t[k - a.len()]);
            assert(constructs::plain_char(t[k - a.len()]));
        } else if k < a.len() {
            assert(x[k] == a[k]);
        } else {
            assert(x[k] == b[k - a.len() - t.len()]);
        }
    }
}

/// The pass on web addresses keeps text.
proof fn lemma_wrap_texty(s: Seq<char>, i: int, p: Part)
    requires
        sound(p),
        texty(p),
        stands(s, i, formatted(p)),
        good_end(s, (i + formatted(p).len()) as int, p),
    ensures
        urls::wrap_from(s, i) == wrapped(p) + urls::wrap_from(
            s,
            (i + formatted(p).len()) as int,
        ),
{
    let x = formatted(p);
    let n = (i + x.len()) as int;
    lemma_texty(p);
    assert(s[n - 1] == x[n - 1 - i]);
    lemma_texty_end(s, n, p);
    assert forall|k: int| i <= k < n implies #[trigger] s[k] != '`' && s[k] != '<' by {
        assert(s[k] == x[k - i]);
    }
    assert forall|k: int| i <= k < n implies #[trigger] constructs::no_address_at(s, k) by {
        lemma_no_address_in(s, i, x, k);
    }
    lemma_wrap_text(s, i, n);
    assert(s.subrange(i, n) == x) by {
        assert forall|k: int| 0 <= k < x.len() implies s.subrange(i, n)[k] == x[k] by {
            assert(s[i + k] == x[k]);
        }
    }
}

/// What stands behind text makes no web address with it.
proof fn lemma_texty_end(s: Seq<char>, n: int, p: Part)
    requires
        sound(p),
        texty(p),
        0 <= n <= s.len(),
        good_end(s, n, p),
    ensures
        n == s.len() || constructs::address_free(s[n]) || s[n] == 'h' || constructs::address_free(
            formatted(p).last(),
        ),
        constructs::no_address_at(s, n) || !urls::quotation_mark(formatted(p).last()),
{
    if p is Relative {
        if n < s.len() {
            lemma_no_address_by(s, n);
        } else {
            lemma_prefixes();
        }
    }
}

/// What can stand behind a part after the pass on inline constructs.
proof fn lemma_good_end(ps: Seq<Part>, j: int)
    requires
        valid(ps),
        0 <= j < ps.len(),
    ensures
        good_end(line(ps, 1), offset(ps, 1, j + 1), ps[j]),
{
    let s = line(ps, 1);
    let n = offset(ps, 1, j + 1);
    lemma_neighbours(ps, 1, j);
    lemma_part_at(ps, 1, j);
    lemma_prefixes();
    assert(sound(ps[j]));
    if j + 1 < ps.len() {
        assert(fits(ps[j], ps[j + 1]));
        assert(sound(ps[j + 1]));
        lemma_form_not_empty(ps[j + 1], 1);
        if let Part::Words(w) = ps[j + 1] {
            assert(constructs::plain_char(w[0]));
            assert(s[n] == w[0]);
            lemma_words_no_address(ps, j + 1);
        } else {
            lemma_first_mark(ps[j + 1]);
            if s[n] != 'h' {
                lemma_no_address_by(s, n);
            }
        }
    }
}

/// No web address begins where words begin.
proof fn lemma_words_no_address(ps: Seq<Part>, j: int)
    requires
        valid(ps),
        0 <= j < ps.len(),
        ps[j] is Words,
    ensures
        constructs::no_address_at(line(ps, 1), offset(ps, 1, j)),
{
    let s = line(ps, 1);
    let i = offset(ps, 1, j);
    let n = offset(ps, 1, j + 1);
    lemma_neighbours(ps, 1, j);
    lemma_part_at(ps, 1, j);
    assert(sound(ps[j]));
    let w = formatted(ps[j]);
    if j + 1 < ps.len() {
        assert(fits(ps[j], ps[j + 1]));
        assert(sound(ps[j + 1]));
        lemma_form_not_empty(ps[j + 1], 1);
        lemma_first_mark(ps[j + 1]);
    }
    lemma_no_address_in(s, i, w, i);
}

/// A construct begins with a character that is no part of a web address, or with
/// an address, or it is a label.
proof fn lemma_first_mark(p: Part)
    requires
        sound(p),
        !(p is Words),
    ensures
        formatted(p).len() > 0,
        p is Relative || (p is Address && formatted(p)[0] == 'h') || (constructs::address_free(
            formatted(p)[0],
        ) && formatted(p)[0] != 'h'),
{
    if let Part::Address(u) = p {
        lemma_web(u);
    }
}

/// The pass on web addresses converts a line part by part.
proof fn lemma_wrap_parts(ps: Seq<Part>, j: int)
    requires
        valid(ps),
        0 <= j <= ps.len(),
    ensures
        urls::wrap_from(line(ps, 1), offset(ps, 1, j)) == line(ps, 2).skip(offset(ps, 2, j)),
    decreases ps.len() - j,
{
    let s = line(ps, 1);
    assert(ps.take(ps.len() as int) == ps);
    if j < ps.len() {
        lemma_wrap_parts(ps, j + 1);
        lemma_neighbours(ps, 1, j);
        lemma_part_at(ps, 1, j);
        lemma_rest(ps, 2, j);
        lemma_good_end(ps, j);
        assert(sound(ps[j]));
        lemma_wrap_part(s, offset(ps, 1, j), ps[j]);
    } else {
        assert(line(ps, 2).skip(line(ps, 2).len() as int) == Seq::<char>::empty());
    }
}

/// The line after the pass on web addresses.
pub proof fn lemma_wrap_line(ps: Seq<Part>)
    requires
        valid(ps),
    ensures
        urls::wrap_line(line(ps, 1)) == line(ps, 2),
{
    lemma_wrap_parts(ps, 0);
    assert(ps.take(0) == Seq::<Part>::empty());
    assert(line(ps, 2).skip(0) == line(ps, 2));
}

/// The pass on control characters converts a part where it stands.
proof fn lemma_escape_part(s: Seq<char>, i: int, p: Part)
    requires
        sound(p),
        stands(s, i, wrapped(p)),
        p is Code && i + wrapped(p).len() < s.len() ==> s[i + wrapped(p).len()] != '`',
        (p == Part::Sign('<') || p == Part::Escaped('<')) && i + 1 < s.len() ==> s[i + 1] == ' ',
        p == Part::Sign('>') || p == Part::Escaped('>') ==> i > 0,
    ensures
        entities::escape_from(s, i) == shown(p) + entities::escape_from(
            s,
            (i + wrapped(p).len()) as int,
        ),
{
    lemma_form_not_empty(p, 2);
    let x = wrapped(p);
    let n = (i + x.len()) as int;
    assert(s.subrange(i, n) == x) by {
        assert forall|k: int| 0 <= k < x.len() implies s.subrange(i, n)[k] == x[k] by {
            assert(s[i + k] == x[k]);
        }
    }
    match p {
        Part::Link(_, _) => {
            lemma_slack_stands(s, i, p);
        },
        Part::Image(_, _) => {
            lemma_slack_stands(s, i, p);
        },
        Part::Mention(_, _) => {
            lemma_slack_stands(s, i, p);
        },
        Part::Ready(_, _) => {
            lemma_slack_stands(s, i, p);
        },
        Part::Titled(_, _, _, _) => {
            lemma_slack_stands(s, i, p);
        },
        Part::Mail(_) => {
            lemma_slack_stands(s, i, p);
        },
        Part::BoldCode(a, w, c, b) => {
            lemma_wrap_bold_code(s, i, a, w, c, b);
        },
        Part::Nested(a, t, b) => {
            lemma_texty_nested(a, t, b);
            assert forall|k: int| i <= k < n implies #[trigger] s[k] != '`' && s[k] != '&' && s[k]
                != '<' && s[k] != '>' by {
                assert(s[k] == x[k - i]);
            }
            constructs::lemma_escape_before(s, i, n);
        },
        Part::Address(_) => {
            lemma_slack_stands(s, i, p);
        },
        Part::Code(w, t) => {
            lemma_code_end(s, i, n, w, t);
        },
        Part::Quoted(q, u) => {
            assert(x == around(seq![q], around(seq!['<'], u, seq!['>']), seq![q]));
            lemma_escape_inner(s, i, q, u, q);
        },
        Part::Bracketed(o, u, c) => {
            assert(x == around(seq![o], around(seq!['<'], u, seq!['>']), seq![c]));
            lemma_escape_inner(s, i, o, u, c);
        },
        Part::Sign(c) => {
            lemma_escape_sign(s, i, c);
        },
        Part::Escaped(c) => {
            lemma_escape_sign(s, i, c);
        },
        _ => {
            assert forall|k: int| i <= k < n implies #[trigger] s[k] != '`' && s[k] != '&' && s[k]
                != '<' && s[k] != '>' by {
                assert(s[k] == x[k - i]);
                lemma_no_signs(p, k - i);
            }
            constructs::lemma_escape_before(s, i, n);
        },
    }
}

/// Words and emphasis hold no control characters.
proof fn lemma_no_signs(p: Part, k: int)
    requires
        sound(p),
        p is Words || p is Bold || p is BoldItalic || p is Italic || p is Underscored || p is Struck
            || p is Relative || p is Star || p is Square || p is Lone,
        0 <= k < wrapped(p).len(),
    ensures
        wrapped(p)[k] != '`' && wrapped(p)[k] != '&' && wrapped(p)[k] != '<' && wrapped(p)[k]
            != '>',
{
    let x = wrapped(p);
    match p {
        Part::Words(t) => {
            assert(constructs::plain_char(t[k]));
        },
        Part::Relative(t, _) => {
            assert(constructs::plain_char(t[k]));
        },
        Part::Bold(t) => {
            lemma_no_signs_around(seq!['*'], t, seq!['*'], k);
        },
        Part::BoldItalic(t) => {
            lemma_no_signs_around(seq!['*', '_'], t, seq!['_', '*'], k);
        },
        Part::Italic(t) => {
            lemma_no_signs_around(seq!['_'], t, seq!['_'], k);
        },
        Part::Underscored(t) => {
            lemma_no_signs_around(seq!['*'], t, seq!['*'], k);
        },
        Part::Struck(t) => {
            lemma_no_signs_around(seq!['~'], t, seq!['~'], k);
        },
        Part::Square(t) => {
            assert forall|j: int| 0 <= j < t.len() implies inner_char(#[trigger] t[j]) by {
                assert(constructs::plain_char(t[j]));
            }
            lemma_no_signs_around(seq!['['], t, seq![']'], k);
        },
        _ => {},
    }
}

proof fn lemma_no_signs_around(a: Seq<char>, t: Seq<char>, b: Seq<char>, k: int)
    requires
        forall|k: int| 0 <= k < t.len() ==> inner_char(#[trigger] t[k]),
        forall|k: int| #[trigger] constructs::no_address_at(t, k),
        forall|j: int|
            0 <= j < a.len() ==> #[trigger] a[j] == '*' || a[j] == '_' || a[j] == '~' || a[j]
                == '[',
        forall|j: int|
            0 <= j < b.len() ==> #[trigger] b[j] == '*' || b[j] == '_' || b[j] == '~' || b[j]
                == ']',
        0 <= k < around(a, t, b).len(),
    ensures
        ({
            let c = around(a, t, b)[k];
            c != '`' && c != '&' && c != '<' && c != '>'
        }),
{
    let x = around(a, t, b);
    if k < a.len() {
        assert(x[k] == a[k]);
    } else if k < a.len() + t.len() {
        assert(x[k] == t[k - a.len()]);
        assert(inner_char(t[k - a.len()]));
    } else {
        assert(x[k] == b[k - a.len() - t.len()]);
    }
}

/// A control character is escaped where it stands.
pub proof fn lemma_escape_sign(s: Seq<char>, i: int, c: char)
    requires
        0 <= i < s.len(),
        s[i] == c,
        c != '`',
        c == '<' && i + 1 < s.len() ==> s[i + 1] == ' ',
        c == '>' ==> i > 0,
    ensures
        entities::escape_from(s, i) == sign(c) + entities::escape_from(s, i + 1),
{
    reveal_strlit("&amp;");
    reveal_strlit("&lt;");
    reveal_strlit("&gt;");
    assert("&amp;"@ == seq!['&', 'a', 'm', 'p', ';']);
    assert("&lt;"@ == seq!['&', 'l', 't', ';']);
    assert("&gt;"@ == seq!['&', 'g', 't', ';']);
    if c == '<' {
        lemma_no_syntax(s, i);
    }
    assert(entities::escape_step(s, i) == (sign(c), i + 1));
}

/// An address in angle brackets between two characters is kept.
proof fn lemma_escape_inner(s: Seq<char>, i: int, o: char, u: Seq<char>, c: char)
    requires
        address(u),
        stands(s, i, around(seq![o], around(seq!['<'], u, seq!['>']), seq![c])),
        o != '`' && o != '&' && o != '<' && o != '>',
        c != '`' && c != '&' && c != '<' && c != '>',
    ensures
        entities::escape_from(s, i) == around(
            seq![o],
            around(seq!['<'], u, seq!['>']),
            seq![c],
        ) + entities::escape_from(s, i + u.len() + 4),
{
    let y = around(seq!['<'], u, seq!['>']);
    let x = around(seq![o], y, seq![c]);
    lemma_stands_part(s, i, seq![o], y, seq![c]);
    lemma_brackets_stand(s, i + 1, u);
    let n = i + 1 + y.len();
    assert(s[i] == x[0]);
    assert(s[n] == x[n - i]);
    assert(entities::escape_step(s, i) == (seq![o], i + 1));
    assert(entities::escape_step(s, i + 1) == (y, n));
    assert(entities::escape_step(s, n) == (seq![c], n + 1));
    let rest = entities::escape_from(s, n + 1);
    assert(entities::escape_from(s, n) == seq![c] + rest);
    assert(entities::escape_from(s, i + 1) == y + entities::escape_from(s, n));
    assert(entities::escape_from(s, i) == seq![o] + entities::escape_from(s, i + 1));
    assert(entities::escape_from(s, i) == seq![o] + (y + (seq![c] + rest)));
    assert(seq![o] + (y + (seq![c] + rest)) == x + rest);
}

/// The pass on control characters converts a line part by part. A line does not
/// begin with the mark of a quote.
pub proof fn lemma_escape_parts(ps: Seq<Part>, j: int)
    requires
        valid(ps),
        0 <= j <= ps.len(),
        j == 0 && ps.len() > 0 ==> ps[0] != Part::Sign('>') && !(ps[0] is Escaped),
    ensures
        entities::escape_from(line(ps, 2), offset(ps, 2, j)) == line(ps, 3).skip(
            offset(ps, 3, j),
        ),
    decreases ps.len() - j,
{
    let s = line(ps, 2);
    assert(ps.take(ps.len() as int) == ps);
    if j < ps.len() {
        lemma_escape_parts(ps, j + 1);
        lemma_neighbours(ps, 2, j);
        lemma_part_at(ps, 2, j);
        lemma_rest(ps, 3, j);
        assert(sound(ps[j]));
        if j + 1 < ps.len() {
            assert(fits(ps[j], ps[j + 1]));
            assert(sound(ps[j + 1]));
            if let Part::Words(w) = ps[j + 1] {
                assert(constructs::plain_char(w[0]));
            }
        }
        lemma_escape_part(s, offset(ps, 2, j), ps[j]);
    } else {
        assert(line(ps, 3).skip(line(ps, 3).len() as int) == Seq::<char>::empty());
    }
}

/// The line after the pass on control characters.
pub proof fn lemma_escape_line(ps: Seq<Part>)
    requires
        valid(ps),
        ps.len() > 0 ==> ps[0] != Part::Sign('>') && !(ps[0] is Escaped),
    ensures
        entities::escape_line(line(ps, 2)) == line(ps, 3),
{
    lemma_escape_parts(ps, 0);
    assert(ps.take(0) == Seq::<Part>::empty());
    assert(line(ps, 3).skip(0) == line(ps, 3));
}

} // verus!
