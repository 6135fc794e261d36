//! Markers that open nothing.

use vstd::prelude::*;
use crate::mrkdwn::constructs;
use crate::mrkdwn::document;
use crate::mrkdwn::entities;
use crate::mrkdwn::fences;
use crate::mrkdwn::laws;
use crate::mrkdwn::lines;
use crate::mrkdwn::messages;
use crate::mrkdwn::pages;
use crate::mrkdwn::phrases;
use crate::mrkdwn::sheets;
use crate::mrkdwn::spans;
use crate::mrkdwn::tables;
use crate::mrkdwn::ticks;
use crate::mrkdwn::titles;
use crate::mrkdwn::urls;
use crate::outside;
use crate::text;

verus! {

/// The line does not change in any pass.
spec fn steady(s: Seq<char>) -> bool {
    &&& s.len() > 0
    &&& pages::opener(s[0]) && constructs::plain_char(s[0])
    &&& forall|k: int|
        0 <= k < s.len() ==> constructs::plain_char(#[trigger] s[k]) || s[k] == '*' || s[k] == '_'
            || s[k] == '~'
    &&& forall|k: int| #[trigger] constructs::no_address_at(s, k)
    &&& spans::inline_line(s) == s
}

/// A message of one line that does not change.
proof fn lemma_steady(s: Seq<char>)
    requires
        steady(s),
    ensures
        document::mrkdwn(s) == s,
{
    pages::lemma_no_opening(s);
    pages::lemma_no_rule(s);
    pages::lemma_no_item(s);
    assert(!document::is_header(s));
    assert forall|k: int| 0 <= k < s.len() implies #[trigger] s[k] != '`' && s[k] != '<' && s[k]
        != '&' && s[k] != '>' && s[k] != '\n' by {
        assert(constructs::plain_char(s[k]) || s[k] == '*' || s[k] == '_' || s[k] == '~');
    }
    lemma_settled(s);
}

/// A message of one line that no pass changes.
proof fn lemma_settled(s: Seq<char>)
    requires
        s.len() > 0,
        !text::white_space(s[0]) && s[0] != '|' && s[0] != '~',
        forall|k: int|
            0 <= k < s.len() ==> #[trigger] s[k] != '`' && s[k] != '<' && s[k] != '&' && s[k] != '>'
                && s[k] != '\n',
        forall|k: int| #[trigger] constructs::no_address_at(s, k),
        document::plain_line(s) == s,
    ensures
        document::mrkdwn(s) == s,
{
    let n = s.len() as int;
    pages::lemma_no_opening(s);
    pages::lemma_no_row(s);
    phrases::lemma_wrap_text(s, 0, n);
    constructs::lemma_escape_before(s, 0, n);
    assert(s.subrange(0, n) == s);
    assert(urls::wrap_from(s, n) == Seq::<char>::empty());
    assert(entities::escape_from(s, n) == Seq::<char>::empty());
    lemma_line_becomes(s, s);
}

/// A message of one line that becomes another in the pass on lines, and stays that
/// in the later ones.
proof fn lemma_line_becomes(line: Seq<char>, s: Seq<char>)
    requires
        line.len() > 0 && s.len() > 0,
        messages::single(line) && messages::single(s),
        document::opening(line) is None,
        document::plain_line(line) == s,
        !tables::table_row(s),
        !fences::opening_fence(s),
        urls::wrap_line(s) == s,
        entities::escape_line(s) == s,
    ensures
        document::mrkdwn(line) == s,
{
    let n = s.len() as int;
    let ls = seq![line];
    let mid = seq![s];
    reveal_with_fuel(text::join, 2);
    assert(text::join(ls, "\n"@) == line);
    assert(text::join(mid, "\n"@) == s);
    sheets::lemma_plain_message(ls, mid);
    messages::lemma_polish(mid);
    let done = Seq::new(1, |k: int| entities::escape_line(urls::wrap_line(mid[k])));
    assert(done == mid);
    assert(s[n - 1] != '\n');
    assert(document::trim_end_newlines(s) == s);
}

/// Backticks behind which none stand open no code.
proof fn lemma_last_ticks(s: Seq<char>, i: int, n: int)
    requires
        0 <= i < n <= s.len(),
        forall|k: int| i <= k < n ==> #[trigger] s[k] == '`',
        forall|k: int| n <= k < s.len() ==> #[trigger] s[k] != '`',
    ensures
        spans::ticks_end(s, i) == n,
        spans::code_span(s, i) is None,
{
    ticks::lemma_run_is(s, i, n - i);
    lemma_no_run(s, n - i, n);
}

proof fn lemma_no_run(s: Seq<char>, n: int, i: int)
    requires
        0 <= i <= s.len(),
        forall|k: int| i <= k < s.len() ==> #[trigger] s[k] != '`',
    ensures
        spans::find_run(s, n, i) is None,
    decreases s.len() - i,
{
    if i < s.len() {
        assert(s[i] != '`');
        lemma_no_run(s, n, i + 1);
    }
}

/// A line with one run of backticks: the later passes keep it.
proof fn lemma_ticks_later(a: Seq<char>, n: nat, b: Seq<char>)
    requires
        phrases::wordy(a) && pages::opener(a[0]),
        n > 0,
        phrases::wordy(b),
    ensures
        ({
            let s = a + phrases::ticks(n) + b;
            let i = a.len() as int;
            let e = i + n;
            &&& messages::single(s)
            &&& !tables::table_row(s) && !fences::opening_fence(s)
            &&& document::opening(s) is None
            &&& urls::wrap_line(s) == s
            &&& entities::escape_line(s) == s
            &&& spans::inline_line(s) == s
            &&& lines::list_item(s) == s
            &&& s[0] == a[0]
        }),
{
    let s = a + phrases::ticks(n) + b;
    let i = a.len() as int;
    let e = i + n;
    let len = s.len() as int;
    let none = Seq::<char>::empty();
    assert forall|k: int| 0 <= k < i implies #[trigger] s[k] == a[k] by {}
    assert forall|k: int| i <= k < e implies #[trigger] s[k] == '`' by {}
    assert forall|k: int| e <= k < len implies #[trigger] s[k] == b[k - e] by {}
    assert forall|k: int| 0 <= k < i implies constructs::plain_char(#[trigger] s[k]) by {
        assert(constructs::plain_char(a[k]));
    }
    assert forall|k: int| e <= k < len implies constructs::plain_char(#[trigger] s[k]) by {
        assert(constructs::plain_char(b[k - e]));
    }
    assert(s[0] == a[0] && s[i] == '`');
    assert(constructs::plain_char(a[0]));
    pages::lemma_no_opening(s);
    pages::lemma_no_row(s);
    pages::lemma_no_item(s);
    lemma_last_ticks(s, i, e);
    phrases::lemma_prefixes();
    assert forall|k: int| 0 <= k < i implies #[trigger] constructs::no_address_at(s, k) by {
        phrases::lemma_no_address_in(s, 0, a, k);
    }
    assert forall|k: int| e <= k < len implies #[trigger] constructs::no_address_at(s, k) by {
        phrases::lemma_no_address_in(s, e, b, k);
    }
    phrases::lemma_no_address_by(s, i);
    phrases::lemma_wrap_text(s, 0, i);
    phrases::lemma_wrap_text(s, e, len);
    constructs::lemma_escape_before(s, 0, i);
    constructs::lemma_escape_before(s, e, len);
    phrases::lemma_inline_quiet(s, 0, i);
    phrases::lemma_inline_quiet(s, e, len);
    assert(spans::inline_from(s, i) == s.subrange(i, e) + spans::inline_from(s, e)) by {
        assert(spans::inline_step(s, i) == (s.subrange(i, e), e));
    }
    assert(urls::wrap_from(s, i) == s.subrange(i, e) + urls::wrap_from(s, e));
    assert(entities::escape_from(s, i) == s.subrange(i, e) + entities::escape_from(s, e));
    assert(urls::wrap_from(s, len) == none);
    assert(entities::escape_from(s, len) == none);
    assert(spans::inline_from(s, len) == none);
    assert(s.subrange(0, i) + (s.subrange(i, e) + (s.subrange(e, len) + none)) == s);
}

/// Backticks that nothing closes are kept, however many they are.
pub proof fn law_open_backticks_are_kept(a: Seq<char>, n: nat, b: Seq<char>)
    requires
        phrases::wordy(a) && pages::opener(a[0]),
        n > 0,
        phrases::wordy(b),
    ensures
        document::mrkdwn(a + phrases::ticks(n) + b) == a + phrases::ticks(n) + b,
{
    let s = a + phrases::ticks(n) + b;
    lemma_ticks_later(a, n, b);
    assert(constructs::plain_char(a[0]));
    pages::lemma_no_rule(s);
    assert(!document::is_header(s));
    lemma_line_becomes(s, s);
}

/// A backtick behind a backslash opens no code, and loses its backslash.
pub proof fn law_backticks_are_escaped(a: Seq<char>, b: Seq<char>)
    requires
        phrases::wordy(a) && pages::opener(a[0]),
        phrases::wordy(b),
    ensures
        document::mrkdwn(a + seq!['\\', '`'] + b) == a + seq!['`'] + b,
{
    let s = a + seq!['\\', '`'] + b;
    let out = a + seq!['`'] + b;
    let i = a.len() as int;
    let n = i + 2;
    let len = s.len() as int;
    let none = Seq::<char>::empty();
    lemma_ticks_later(a, 1, b);
    assert(phrases::ticks(1) == seq!['`']);
    assert forall|k: int| 0 <= k < i implies #[trigger] s[k] == a[k] by {}
    assert forall|k: int| n <= k < len implies #[trigger] s[k] == b[k - n] by {}
    assert(s[i] == '\\' && s[i + 1] == '`');
    assert forall|k: int| 0 <= k < i implies phrases::quiet(#[trigger] s[k]) && s[k] != '\n' by {
        assert(constructs::plain_char(a[k]));
    }
    assert forall|k: int| n <= k < len implies phrases::quiet(#[trigger] s[k]) && s[k] != '\n' by {
        assert(constructs::plain_char(b[k - n]));
    }
    assert(messages::single(s));
    assert(s[0] == a[0]);
    assert(constructs::plain_char(a[0]));
    pages::lemma_no_opening(s);
    pages::lemma_no_rule(s);
    assert(!document::is_header(s));
    phrases::lemma_inline_quiet(s, 0, i);
    phrases::lemma_inline_quiet(s, n, len);
    assert(spans::inline_step(s, i) == (seq!['`'], n));
    assert(spans::inline_from(s, i) == seq!['`'] + spans::inline_from(s, n));
    assert(spans::inline_from(s, len) == none);
    assert(s.subrange(0, i) == a);
    assert(s.subrange(n, len) == b);
    assert(a + (seq!['`'] + (b + none)) == out);
    lemma_line_becomes(s, out);
}

/// A line of characters without a meaning, behind some that could begin a header or
/// a list, where neither begins.
proof fn lemma_beginning_kept(front: Seq<char>, b: Seq<char>)
    requires
        front.len() > 0,
        forall|k: int|
            0 <= k < front.len() ==> #[trigger] front[k] == '#' || front[k] == '-' || ('0'
                <= front[k] <= '9'),
        phrases::wordy(b),
        !lines::horizontal_rule(front + b),
        !document::is_header(front + b),
        lines::list_item(front + b) == front + b,
    ensures
        document::mrkdwn(front + b) == front + b,
{
    let s = front + b;
    let n = front.len() as int;
    let len = s.len() as int;
    let none = Seq::<char>::empty();
    assert(s[0] == front[0]);
    assert(!text::white_space(s[0]));
    assert(text::trim_start(s) == s);
    assert forall|k: int| 0 <= k < len implies #[trigger] s[k] != '`' && s[k] != '<' && s[k] != '&'
        && s[k] != '>' && s[k] != '\n' && phrases::quiet(s[k]) by {
        if k < n {
            assert(s[k] == front[k]);
        } else {
            assert(s[k] == b[k - n]);
            assert(constructs::plain_char(b[k - n]));
        }
    }
    assert forall|k: int| 0 <= k < n implies constructs::address_free(#[trigger] front[k]) by {}
    constructs::lemma_no_address(front, b, none);
    assert(front + b + none == s);
    phrases::lemma_inline_quiet(s, 0, len);
    assert(spans::inline_from(s, len) == none);
    assert(s.subrange(0, len) == s);
    lemma_settled(s);
}

/// Hashes without a space behind them begin no header.
pub proof fn law_hashes_alone_begin_no_header(level: nat, b: Seq<char>)
    requires
        level > 0,
        phrases::wordy(b) && b[0] != ' ',
    ensures
        document::mrkdwn(constructs::hash_marks(level) + b) == constructs::hash_marks(level) + b,
{
    let front = constructs::hash_marks(level);
    let s = front + b;
    let n = level as int;
    assert(s[0] == '#');
    pages::lemma_no_rule(s);
    pages::lemma_no_item(s);
    assert(s[n] == b[0]);
    assert(constructs::plain_char(b[0]));
    lemma_leading_is(s, '#', n);
    assert(text::trim_start(s) == s);
    lemma_beginning_kept(front, b);
}

/// The marks at the start of a text are counted.
proof fn lemma_leading_is(s: Seq<char>, c: char, n: int)
    requires
        0 <= n < s.len(),
        forall|k: int| 0 <= k < n ==> #[trigger] s[k] == c,
        s[n] != c,
    ensures
        text::leading(s, c) == n,
    decreases n,
{
    if n > 0 {
        let rest = s.skip(1);
        assert(s[0] == c);
        assert forall|k: int| 0 <= k < n - 1 implies #[trigger] rest[k] == c by {
            assert(rest[k] == s[k + 1]);
        }
        assert(rest[n - 1] == s[n]);
        lemma_leading_is(rest, c, n - 1);
    }
}

/// A number begins an item of a list only if a dot and a space stand behind it.
pub proof fn law_numbers_alone_begin_no_item(d: Seq<char>, b: Seq<char>)
    requires
        d.len() > 0,
        forall|k: int| 0 <= k < d.len() ==> '0' <= #[trigger] d[k] <= '9',
        phrases::wordy(b) && !('0' <= b[0] <= '9'),
        b[0] == '.' ==> b.len() > 1 && b[1] != ' ',
    ensures
        document::mrkdwn(d + b) == d + b,
{
    let s = d + b;
    let n = d.len() as int;
    reveal_strlit("- ");
    reveal_strlit("* ");
    reveal_strlit(". ");
    assert(s[0] == d[0]);
    assert(text::trim_start(s) == s);
    pages::lemma_other_first(s);
    if text::starts_with(s, "- "@) {
        assert(s.subrange(0, 2)[0] == s[0]);
    }
    if text::starts_with(s, "* "@) {
        assert(s.subrange(0, 2)[0] == s[0]);
    }
    text::lemma_find(s, ". "@, 0);
    if let Some(k) = text::find(s, ". "@, 0) {
        let sub = s.subrange(k, k + 2);
        assert(sub[0] == s[k] && sub[1] == s[k + 1]);
        if k < n {
            assert(s[k] == d[k]);
        } else if k == n {
            assert(s[k] == b[0] && s[k + 1] == b[1]);
        } else if text::all_digits(s.take(k)) {
            assert(text::digit(s.take(k)[n]));
            assert(s[n] == b[0]);
        }
    }
    assert(lines::list_item(s) == s);
    assert(!document::is_header(s));
    lemma_beginning_kept(d, b);
}

/// A dash begins an item of a list only if a space stands behind it.
pub proof fn law_dashes_alone_begin_no_item(b: Seq<char>)
    requires
        phrases::wordy(b) && !text::white_space(b[0]) && b[0] != '-',
    ensures
        document::mrkdwn(seq!['-'] + b) == seq!['-'] + b,
{
    let s = seq!['-'] + b;
    reveal_strlit("- ");
    reveal_strlit("* ");
    reveal_strlit(". ");
    assert(s[0] == '-' && s[1] == b[0]);
    assert(text::trim_start(s) == s);
    constructs::lemma_not_a_rule(s, 1);
    if text::starts_with(s, "- "@) {
        assert(s.subrange(0, 2)[1] == s[1]);
    }
    if text::starts_with(s, "* "@) {
        assert(s.subrange(0, 2)[0] == s[0]);
    }
    text::lemma_find(s, ". "@, 0);
    if let Some(k) = text::find(s, ". "@, 0) {
        if k > 0 && text::all_digits(s.take(k)) {
            assert(text::digit(s.take(k)[0]));
        }
    }
    assert(lines::list_item(s) == s);
    assert(!document::is_header(s));
    lemma_beginning_kept(seq!['-'], b);
}

/// No marker closes where its character does not stand.
pub proof fn lemma_not_closed(s: Seq<char>, m: Seq<char>, i: int)
    requires
        0 <= i <= s.len(),
        m.len() > 0,
        forall|k: int| i <= k < s.len() ==> #[trigger] s[k] != m[0] && s[k] != '`',
    ensures
        spans::closing(s, m, i) is None,
    decreases s.len() - i,
{
    if i < s.len() {
        assert(s[i] != m[0]);
        constructs::lemma_no_marker(s, i, m);
        lemma_not_closed(s, m, i + 1);
    }
}

/// A marker in the last run of its character closes nothing behind itself but at
/// once.
proof fn lemma_run_closes(s: Seq<char>, m: Seq<char>, i: int, n: int)
    requires
        0 <= i <= n < s.len(),
        m.len() > 0,
        m[0] != '`',
        forall|k: int| 0 <= k < m.len() ==> #[trigger] m[k] == m[0],
        forall|k: int| i <= k < n ==> #[trigger] s[k] == m[0],
        forall|k: int| n <= k < s.len() ==> #[trigger] s[k] != m[0] && s[k] != '`',
    ensures
        spans::closing(s, m, i) is None || spans::closing(s, m, i) == Some(i),
    decreases n - i,
{
    if i == n {
        lemma_not_closed(s, m, n);
    } else {
        assert(s[i] == m[0]);
        if !text::occurs_at(s, i, m) {
            lemma_run_closes(s, m, i + 1, n);
            if text::occurs_at(s, i + 1, m) {
                assert(s.subrange(i, i + m.len()) == m) by {
                    let sub = s.subrange(i + 1, i + 1 + m.len());
                    assert forall|k: int| 0 <= k < m.len() implies s.subrange(i, i + m.len())[k]
                        == m[k] by {
                        if k > 0 {
                            assert(sub[k - 1] == s[i + k]);
                            assert(sub[k - 1] == m[k - 1]);
                            assert(m[k - 1] == m[0]);
                        }
                        assert(m[k] == m[0]);
                    }
                }
            }
            if spans::closing(s, m, i + 1) == Some(i + 1) {
                spans::lemma_closing(s, m, i + 1);
            }
        }
    }
}

/// A marker in the last run of its character opens nothing.
proof fn lemma_run_opens_nothing(s: Seq<char>, m: Seq<char>, i: int, n: int)
    requires
        0 <= i < n < s.len(),
        m.len() > 0,
        m[0] != '`',
        forall|k: int| 0 <= k < m.len() ==> #[trigger] m[k] == m[0],
        forall|k: int| i <= k < n ==> #[trigger] s[k] == m[0],
        forall|k: int| n <= k < s.len() ==> #[trigger] s[k] != m[0] && s[k] != '`',
    ensures
        spans::span_end(s, m, i) is None,
{
    if text::occurs_at(s, i, m) {
        let e = i + m.len();
        if e > n {
            assert(s.subrange(i, e)[n - i] == s[n]);
            assert(m[n - i] == m[0]);
        }
        lemma_run_closes(s, m, e, n);
    }
}

/// Marks behind which no mark of their kind stands open nothing.
proof fn lemma_last_marks(s: Seq<char>, c: char, i: int, n: int)
    requires
        c == '*' || c == '_' || c == '~',
        0 <= i <= n < s.len(),
        forall|k: int| i <= k < n ==> #[trigger] s[k] == c,
        forall|k: int| n <= k < s.len() ==> constructs::plain_char(#[trigger] s[k]),
    ensures
        spans::inline_from(s, i) == s.subrange(i, n) + spans::inline_from(s, n),
    decreases n - i,
{
    if i == n {
        assert(s.subrange(i, n) + spans::inline_from(s, n) == spans::inline_from(s, n));
    } else {
        let one = seq![c];
        assert(s[i] == c);
        assert forall|k: int| n <= k < s.len() implies #[trigger] s[k] != c && s[k] != '`' by {
            assert(constructs::plain_char(s[k]));
        }
        if c == '*' {
            lemma_run_opens_nothing(s, seq!['*', '*', '*'], i, n);
            lemma_run_opens_nothing(s, seq!['*', '*'], i, n);
            lemma_run_opens_nothing(s, seq!['*'], i, n);
            constructs::lemma_no_marker(s, i, seq!['_', '_']);
            constructs::lemma_no_marker(s, i, seq!['~', '~']);
        } else {
            phrases::lemma_stars(s, i);
            lemma_run_opens_nothing(s, seq![c, c], i, n);
            if c == '_' {
                constructs::lemma_no_marker(s, i, seq!['~', '~']);
            } else {
                constructs::lemma_no_marker(s, i, seq!['_', '_']);
            }
        }
        assert(spans::inline_step(s, i) == (one, i + 1));
        assert(spans::inline_from(s, i) == one + spans::inline_from(s, i + 1));
        lemma_last_marks(s, c, i + 1, n);
        assert(s.subrange(i, n) == one + s.subrange(i + 1, n));
        assert(one + (s.subrange(i + 1, n) + spans::inline_from(s, n)) == s.subrange(i, n)
            + spans::inline_from(s, n));
    }
}

/// Two underscores or tildes that open nothing are kept.
proof fn lemma_pair_kept(s: Seq<char>, i: int, c: char)
    requires
        c == '_' || c == '~',
        0 <= i,
        i + 2 < s.len(),
        s[i] == c && s[i + 1] == c,
        constructs::plain_char(s[i + 2]),
        c == '_' ==> spans::underscore_end(s, i) is None,
        c == '~' ==> spans::span_end(s, seq!['~', '~'], i) is None,
    ensures
        spans::inline_from(s, i) == s.subrange(i, i + 2) + spans::inline_from(s, i + 2),
{
    phrases::lemma_stars(s, i);
    if c == '_' {
        constructs::lemma_no_marker(s, i, seq!['~', '~']);
    } else {
        constructs::lemma_no_marker(s, i, seq!['_', '_']);
    }
    assert(spans::inline_step(s, i) == (seq![c], i + 1));
    phrases::lemma_inline_lone(s, i + 1);
    let rest = spans::inline_from(s, i + 2);
    assert(spans::inline_from(s, i + 1) == seq![c] + rest);
    assert(spans::inline_from(s, i) == seq![c] + spans::inline_from(s, i + 1));
    assert(s.subrange(i, i + 2) == seq![c] + seq![c]);
    assert(seq![c] + (seq![c] + rest) == s.subrange(i, i + 2) + rest);
}

/// Where no address stands in a text between which marks stand, none does.
proof fn lemma_no_address_here(s: Seq<char>, i: int, x: Seq<char>)
    requires
        phrases::wordy(x),
        phrases::stands(s, i, x),
        i + x.len() < s.len() ==> s[(i + x.len()) as int] == '*' || s[(i + x.len()) as int] == '_'
            || s[(i + x.len()) as int] == '~',
    ensures
        forall|k: int| i <= k < i + x.len() ==> #[trigger] constructs::no_address_at(s, k),
{
    assert forall|k: int| i <= k < i + x.len() implies #[trigger] constructs::no_address_at(
        s,
        k,
    ) by {
        phrases::lemma_no_address_in(s, i, x, k);
    }
}

/// A number of marks.
pub open spec fn marks(c: char, n: nat) -> Seq<char> {
    Seq::new(n, |k: int| c)
}

/// Marks of emphasis that nothing closes are kept, however many they are: they open
/// nothing, and hold nothing between themselves.
#[verifier::rlimit(50)]
pub proof fn law_open_markers_are_kept(a: Seq<char>, c: char, count: nat, b: Seq<char>)
    requires
        phrases::wordy(a) && pages::opener(a[0]),
        c == '*' || c == '_' || c == '~',
        count > 0,
        phrases::wordy(b),
    ensures
        document::mrkdwn(a + marks(c, count) + b) == a + marks(c, count) + b,
{
    let m = marks(c, count);
    let s = a + m + b;
    let i = a.len() as int;
    let n = i + count;
    let len = s.len() as int;
    assert forall|k: int| 0 <= k < i implies #[trigger] s[k] == a[k] by {}
    assert forall|k: int| i <= k < n implies #[trigger] s[k] == c by {
        assert(s[k] == m[k - i]);
    }
    assert forall|k: int| n <= k < len implies #[trigger] s[k] == b[k - n] by {}
    assert forall|k: int| 0 <= k < len implies constructs::plain_char(#[trigger] s[k]) || s[k]
        == '*' || s[k] == '_' || s[k] == '~' by {
        if k < i {
            assert(constructs::plain_char(a[k]));
        } else if k >= n {
            assert(constructs::plain_char(b[k - n]));
        }
    }
    assert forall|k: int| n <= k < len implies constructs::plain_char(#[trigger] s[k]) by {
        assert(constructs::plain_char(b[k - n]));
    }
    assert(s[i] == c);
    lemma_no_address_here(s, 0, a);
    lemma_no_address_here(s, n, b);
    phrases::lemma_prefixes();
    assert forall|k: int| #[trigger] constructs::no_address_at(s, k) by {
        if i <= k < n {
            phrases::lemma_no_address_by(s, k);
        }
    }
    assert forall|k: int| 0 <= k < i implies phrases::quiet(#[trigger] s[k]) by {
        assert(constructs::plain_char(a[k]));
    }
    assert forall|k: int| n <= k < len implies phrases::quiet(#[trigger] s[k]) by {
        assert(constructs::plain_char(b[k - n]));
    }
    phrases::lemma_inline_quiet(s, 0, i);
    phrases::lemma_inline_quiet(s, n, len);
    lemma_last_marks(s, c, i, n);
    assert(spans::inline_from(s, len) == Seq::<char>::empty());
    assert(s.subrange(0, i) + (s.subrange(i, n) + (s.subrange(n, len) + Seq::<char>::empty()))
        == s);
    assert(constructs::plain_char(a[0]));
    lemma_steady(s);
}

/// A star before and one behind a text with white space next to either of them open
/// nothing.
#[verifier::rlimit(50)]
pub proof fn law_stars_next_to_white_space_are_kept(a: Seq<char>, t: Seq<char>, b: Seq<char>)
    requires
        phrases::wordy(a) && pages::opener(a[0]),
        phrases::wordy(t) && (text::white_space(t[0]) || text::white_space(t.last())),
        phrases::wordy(b),
    ensures
        document::mrkdwn(a + seq!['*'] + t + seq!['*'] + b) == a + seq!['*'] + t + seq!['*'] + b,
{
    let one = seq!['*'];
    let s = a + one + t + one + b;
    let i = a.len() as int;
    let j = i + 1 + t.len();
    let n = j + 1;
    let len = s.len() as int;
    assert forall|k: int| 0 <= k < i implies #[trigger] s[k] == a[k] by {}
    assert forall|k: int| i + 1 <= k < j implies #[trigger] s[k] == t[k - i - 1] by {}
    assert forall|k: int| n <= k < len implies #[trigger] s[k] == b[k - n] by {}
    assert(s[i] == '*' && s[j] == '*');
    assert forall|k: int| 0 <= k < len implies constructs::plain_char(#[trigger] s[k]) || s[k]
        == '*' || s[k] == '_' || s[k] == '~' by {
        if k < i {
            assert(constructs::plain_char(a[k]));
        } else if k >= n {
            assert(constructs::plain_char(b[k - n]));
        } else if i + 1 <= k < j {
            assert(constructs::plain_char(t[k - i - 1]));
        }
    }
    lemma_no_address_here(s, 0, a);
    lemma_no_address_here(s, i + 1, t);
    lemma_no_address_here(s, n, b);
    phrases::lemma_prefixes();
    assert forall|k: int| #[trigger] constructs::no_address_at(s, k) by {
        if k == i || k == j {
            phrases::lemma_no_address_by(s, k);
        }
    }
    assert forall|k: int| 0 <= k < i implies phrases::quiet(#[trigger] s[k]) by {
        assert(constructs::plain_char(a[k]));
    }
    assert forall|k: int| i + 1 <= k < j implies phrases::quiet(#[trigger] s[k]) && s[k] != '*'
        && s[k] != '`' by {
        assert(constructs::plain_char(t[k - i - 1]));
    }
    assert forall|k: int| n <= k < len implies phrases::quiet(#[trigger] s[k])
        && constructs::plain_char(s[k]) by {
        assert(constructs::plain_char(b[k - n]));
    }
    phrases::lemma_inline_quiet(s, 0, i);
    phrases::lemma_inline_quiet(s, i + 1, j);
    phrases::lemma_inline_quiet(s, n, len);
    lemma_last_marks(s, '*', j, n);
    assert(s[i + 1] == t[0]);
    assert(s[j - 1] == t.last());
    assert(s.subrange(j, j + 1) == one);
    constructs::lemma_closes(s, one, i + 1, j);
    assert(spans::italic_end(s, i) is None);
    phrases::lemma_shorter(s, i, one, seq!['*', '*']);
    phrases::lemma_shorter(s, i, one, seq!['*', '*', '*']);
    constructs::lemma_no_marker(s, i, seq!['_', '_']);
    constructs::lemma_no_marker(s, i, seq!['~', '~']);
    assert(spans::inline_step(s, i) == (one, i + 1));
    assert(s.subrange(i, i + 1) == one);
    assert(spans::inline_from(s, i) == s.subrange(i, i + 1) + spans::inline_from(s, i + 1));
    let none = Seq::<char>::empty();
    assert(spans::inline_from(s, len) == none);
    assert(s.subrange(0, i) + (s.subrange(i, i + 1) + (s.subrange(i + 1, j) + (s.subrange(j, n) + (
    s.subrange(n, len) + none)))) == s);
    assert(constructs::plain_char(a[0]));
    lemma_steady(s);
}

/// A backslash escapes marks only: before any other character both are kept.
#[verifier::rlimit(50)]
pub proof fn law_other_backslashes_are_kept(a: Seq<char>, b: Seq<char>)
    requires
        phrases::wordy(a) && pages::opener(a[0]),
        phrases::wordy(b),
        b[0] != '{' && b[0] != '}' && b[0] != '+' && b[0] != '-' && b[0] != '.',
    ensures
        document::mrkdwn(a + seq!['\\'] + b) == a + seq!['\\'] + b,
{
    let s = a + seq!['\\'] + b;
    let i = a.len() as int;
    let n = i + 1;
    let len = s.len() as int;
    assert forall|k: int| 0 <= k < i implies #[trigger] s[k] == a[k] by {}
    assert forall|k: int| n <= k < len implies #[trigger] s[k] == b[k - n] by {}
    assert(s[i] == '\\' && s[n] == b[0]);
    assert(constructs::plain_char(a[0]) && constructs::plain_char(b[0]));
    assert forall|k: int| 0 <= k < i implies phrases::quiet(#[trigger] s[k]) by {
        assert(constructs::plain_char(a[k]));
    }
    assert forall|k: int| n <= k < len implies phrases::quiet(#[trigger] s[k]) by {
        assert(constructs::plain_char(b[k - n]));
    }
    assert forall|k: int| 0 <= k < len implies #[trigger] s[k] != '`' && s[k] != '<' && s[k] != '&'
        && s[k] != '>' && s[k] != '\n' by {
        if k < i {
            assert(constructs::plain_char(a[k]));
        } else if k >= n {
            assert(constructs::plain_char(b[k - n]));
        }
    }
    phrases::lemma_prefixes();
    assert forall|k: int| #[trigger] constructs::no_address_at(s, k) by {
        if 0 <= k < i {
            phrases::lemma_no_address_in(s, 0, a, k);
        } else if k == i {
            phrases::lemma_no_address_by(s, k);
        } else if n <= k < len {
            phrases::lemma_no_address_in(s, n, b, k);
        }
    }
    phrases::lemma_stars(s, i);
    constructs::lemma_no_marker(s, i, seq!['_', '_']);
    constructs::lemma_no_marker(s, i, seq!['~', '~']);
    assert(spans::inline_step(s, i) == (seq!['\\'], n));
    phrases::lemma_inline_quiet(s, 0, i);
    phrases::lemma_inline_quiet(s, n, len);
    let none = Seq::<char>::empty();
    assert(spans::inline_from(s, len) == none);
    assert(spans::inline_from(s, i) == seq!['\\'] + spans::inline_from(s, n));
    assert(s.subrange(0, i) + (seq!['\\'] + (s.subrange(n, len) + none)) == s);
    assert(text::trim_start(s) == s);
    pages::lemma_no_rule(s);
    pages::lemma_no_item(s);
    assert(!document::is_header(s));
    lemma_settled(s);
}

/// A horizontal rule is made of one mark, which is a dash, a star or an underscore.
pub proof fn law_rules_are_of_one_kind(s: Seq<char>, i: int, j: int)
    requires
        lines::horizontal_rule(s),
        0 <= i < s.len() && s[i] != ' ',
        0 <= j < s.len() && s[j] != ' ',
    ensures
        s[i] == s[j],
        s[i] == '-' || s[i] == '*' || s[i] == '_',
{
    let solid = |c: char| c != ' ';
    let t = lines::without_spaces(s);
    s.lemma_filter_contains(solid, i);
    s.lemma_filter_contains(solid, j);
    let x = choose|x: int| 0 <= x < t.len() && t[x] == s[i];
    let y = choose|y: int| 0 <= y < t.len() && t[y] == s[j];
    assert(t[x] == t[0] && t[y] == t[0]);
}

/// Two marks make no horizontal rule.
pub proof fn law_two_marks_make_no_rule(a: nat, x: char, b: nat, y: char, d: nat)
    ensures
        !lines::horizontal_rule(
            pages::spaces(a) + seq![x] + pages::spaces(b) + seq![y] + pages::spaces(d),
        ),
{
    let solid = |c: char| c != ' ';
    let s1 = pages::spaces(a);
    let s2 = s1 + seq![x];
    let s3 = s2 + pages::spaces(b);
    let s4 = s3 + seq![y];
    Seq::filter_distributes_over_add(s4, pages::spaces(d), solid);
    Seq::filter_distributes_over_add(s3, seq![y], solid);
    Seq::filter_distributes_over_add(s2, pages::spaces(b), solid);
    Seq::filter_distributes_over_add(s1, seq![x], solid);
    lemma_spaces_filtered(a);
    lemma_spaces_filtered(b);
    lemma_spaces_filtered(d);
    seq![x].lemma_filter_len(solid);
    seq![y].lemma_filter_len(solid);
}

proof fn lemma_spaces_filtered(n: nat)
    ensures
        pages::spaces(n).filter(|c: char| c != ' ').len() == 0,
    decreases n,
{
    reveal(Seq::filter);
    if n > 0 {
        lemma_spaces_filtered((n - 1) as nat);
        assert(pages::spaces(n).drop_last() == pages::spaces((n - 1) as nat));
    }
}

/// Two underscores on either side of a text are kept where a letter or a digit
/// stands next to them, as inside of a word.
#[verifier::rlimit(50)]
pub proof fn law_underscores_in_words_are_kept(a: Seq<char>, t: Seq<char>, b: Seq<char>)
    requires
        phrases::wordy(a) && pages::opener(a[0]),
        phrases::wordy(t),
        phrases::wordy(b),
    ensures
        outside::alphanumeric(a.last()) || outside::alphanumeric(b[0]) ==> document::mrkdwn(
            a + seq!['_', '_'] + t + seq!['_', '_'] + b,
        ) == a + seq!['_', '_'] + t + seq!['_', '_'] + b,
{
    if outside::alphanumeric(a.last()) || outside::alphanumeric(b[0]) {
        let low = seq!['_', '_'];
        let s = a + low + t + low + b;
        let i = a.len() as int;
        let j = i + 2 + t.len();
        let n = j + 2;
        let len = s.len() as int;
        assert forall|k: int| 0 <= k < i implies #[trigger] s[k] == a[k] by {}
        assert forall|k: int| i + 2 <= k < j implies #[trigger] s[k] == t[k - i - 2] by {}
        assert forall|k: int| n <= k < len implies #[trigger] s[k] == b[k - n] by {}
        assert(s[i] == '_' && s[i + 1] == '_' && s[j] == '_' && s[j + 1] == '_');
        assert forall|k: int| 0 <= k < len implies constructs::plain_char(#[trigger] s[k]) || s[k]
            == '*' || s[k] == '_' || s[k] == '~' by {
            if k < i {
                assert(constructs::plain_char(a[k]));
            } else if k >= n {
                assert(constructs::plain_char(b[k - n]));
            } else if i + 2 <= k < j {
                assert(constructs::plain_char(t[k - i - 2]));
            }
        }
        lemma_no_address_here(s, 0, a);
        lemma_no_address_here(s, i + 2, t);
        lemma_no_address_here(s, n, b);
        phrases::lemma_prefixes();
        assert forall|k: int| #[trigger] constructs::no_address_at(s, k) by {
            if i <= k < i + 2 || j <= k < n {
                phrases::lemma_no_address_by(s, k);
            }
        }
        assert forall|k: int| 0 <= k < i implies phrases::quiet(#[trigger] s[k]) by {
            assert(constructs::plain_char(a[k]));
        }
        assert forall|k: int| i + 2 <= k < j implies phrases::quiet(#[trigger] s[k]) && s[k] != '_'
            && s[k] != '`' by {
            assert(constructs::plain_char(t[k - i - 2]));
        }
        assert forall|k: int| n <= k < len implies phrases::quiet(#[trigger] s[k]) && s[k] != '_'
            && s[k] != '`' by {
            assert(constructs::plain_char(b[k - n]));
        }
        phrases::lemma_inline_quiet(s, 0, i);
        phrases::lemma_inline_quiet(s, i + 2, j);
        phrases::lemma_inline_quiet(s, n, len);
        assert(s[i - 1] == a.last());
        assert(s[n] == b[0]);
        assert(s[i + 2] == t[0]);
        assert(constructs::plain_char(t[0]) && constructs::plain_char(b[0]));
        assert(s.subrange(j, j + 2) == low);
        constructs::lemma_closes(s, low, i + 2, j);
        assert(spans::underscore_end(s, i) is None);
        lemma_not_closed(s, low, n);
        assert(spans::underscore_end(s, j) is None);
        lemma_pair_kept(s, i, '_');
        lemma_pair_kept(s, j, '_');
        let none = Seq::<char>::empty();
        assert(spans::inline_from(s, len) == none);
        assert(s.subrange(0, i) + (s.subrange(i, i + 2) + (s.subrange(i + 2, j) + (s.subrange(j, n)
            + (s.subrange(n, len) + none)))) == s);
        assert(constructs::plain_char(a[0]));
        lemma_steady(s);
    }
}

/// Empty lines.
spec fn empties(n: nat) -> Seq<Seq<char>> {
    Seq::new(n, |k: int| Seq::<char>::empty())
}

/// Empty lines are line feeds.
proof fn lemma_empties(n: nat)
    ensures
        text::join(empties(n + 1), "\n"@) == pages::line_feeds(n),
    decreases n,
{
    laws::lemma_line_feed();
    let ls = empties(n + 1);
    if n > 0 {
        lemma_empties((n - 1) as nat);
        assert(ls.drop_last() == empties(n));
        assert(ls.last() == Seq::<char>::empty());
        assert(pages::line_feeds((n - 1) as nat) + seq!['\n'] + Seq::<char>::empty()
            == pages::line_feeds(n));
    } else {
        assert(ls[0] == Seq::<char>::empty());
        assert(pages::line_feeds(0) == Seq::<char>::empty());
    }
}

/// A message without anything but line feeds becomes empty.
pub proof fn law_line_feeds_alone_are_dropped(n: nat)
    ensures
        document::mrkdwn(pages::line_feeds(n)) == Seq::<char>::empty(),
        document::ascii_mrkdwn(pages::line_feeds(n)) == Seq::<char>::empty(),
{
    let none = Seq::<char>::empty();
    let s = pages::line_feeds(n);
    if n > 0 {
        let ls = empties(n + 1);
        laws::lemma_line_feed();
        lemma_empties(n);
        pages::lemma_empty();
        sheets::lemma_plain_message(ls, ls);
        messages::lemma_polish(ls);
        let done = Seq::new(ls.len(), |k: int| entities::escape_line(urls::wrap_line(ls[k])));
        assert(done == ls);
        assert(none + s == s);
        pages::lemma_feeds_dropped(none, n);
        assert forall|k: int| 0 <= k < ls.len() implies !titles::top_header(#[trigger] ls[k]) by {}
        titles::law_upper_case_is_for_top_headers_only(ls);
    }
}

} // verus!
