//! Headers: their marks, the bold markers in their titles, and upper case.

use vstd::prelude::*;
use crate::mrkdwn::constructs;
use crate::mrkdwn::document;
use crate::mrkdwn::document::Piece;
use crate::mrkdwn::laws;
use crate::mrkdwn::lines;
use crate::mrkdwn::messages;
use crate::mrkdwn::pages;
use crate::mrkdwn::phrases;
use crate::mrkdwn::spans;
use crate::outside;
use crate::promises::words;
use crate::text;

verus! {

/// The text holds neither the character nor a backtick.
pub open spec fn lacks(s: Seq<char>, c: char) -> bool {
    forall|k: int| 0 <= k < s.len() ==> #[trigger] s[k] != c && s[k] != '`'
}

/// The pieces one after the other.
pub open spec fn run_on(cs: Seq<Seq<char>>) -> Seq<char> {
    text::join(cs, Seq::empty())
}

/// The first marker between pieces stands behind the first of them.
proof fn lemma_first_marker(s: Seq<char>, c: char, i: int, n: int)
    requires
        0 <= i <= n,
        n + 2 <= s.len(),
        forall|k: int| i <= k < n ==> #[trigger] s[k] != c && s[k] != '`',
        s[n] == c && s[n + 1] == c && c != '`',
    ensures
        lines::first_outside(s, seq![c, c], i) == Some(n),
    decreases n - i,
{
    let m = seq![c, c];
    if i < n {
        assert(s[i] != c);
        constructs::lemma_no_marker(s, i, m);
        lemma_first_marker(s, c, i + 1, n);
    } else {
        assert(s.subrange(n, n + 2) == m);
    }
}

/// A text without the character of a marker has no marker.
proof fn lemma_no_marker_left(s: Seq<char>, c: char, i: int)
    requires
        0 <= i <= s.len(),
        forall|k: int| i <= k < s.len() ==> #[trigger] s[k] != c && s[k] != '`',
    ensures
        lines::first_outside(s, seq![c, c], i) is None,
        lines::last_outside(s, seq![c, c], i) is None,
    decreases s.len() - i,
{
    if i < s.len() {
        assert(s[i] != c);
        constructs::lemma_no_marker(s, i, seq![c, c]);
        lemma_no_marker_left(s, c, i + 1);
    }
}

/// The second character of a marker begins none where another character follows.
proof fn lemma_after_marker(s: Seq<char>, c: char, n: int)
    requires
        0 <= n,
        n + 2 <= s.len(),
        c != '`',
        s[n + 1] == c,
        n + 2 < s.len() ==> s[n + 2] != c,
    ensures
        lines::last_outside(s, seq![c, c], n + 1) == lines::last_outside(s, seq![c, c], n + 2),
{
    let m = seq![c, c];
    if text::occurs_at(s, n + 1, m) {
        assert(s.subrange(n + 1, n + 3)[1] == s[n + 2]);
    }
    assert(lines::first_outside(s, m, n + 1) == lines::first_outside(s, m, n + 2));
}

/// The pieces lack the character of the marker, and those between two markers are
/// not empty.
pub open spec fn marked_off(cs: Seq<Seq<char>>, c: char) -> bool {
    &&& forall|k: int| 0 <= k < cs.len() ==> lacks(#[trigger] cs[k], c)
    &&& forall|k: int| 0 < k < cs.len() - 1 ==> (#[trigger] cs[k]).len() > 0
}

/// The first marker stands behind the first piece, the last one before the last
/// piece.
proof fn lemma_last_marker(s: Seq<char>, c: char, i: int, cs: Seq<Seq<char>>)
    requires
        cs.len() > 1,
        c != '`',
        marked_off(cs, c),
        0 <= i <= s.len(),
        s.skip(i) == text::join(cs, seq![c, c]),
    ensures
        lines::last_outside(s, seq![c, c], i) == Some(s.len() - cs.last().len() - 2),
        lines::first_outside(s, seq![c, c], i) == Some((i + cs[0].len()) as int),
    decreases cs.len(),
{
    let m = seq![c, c];
    let first = cs[0];
    let rest = cs.skip(1);
    let x = s.skip(i);
    reveal_with_fuel(text::join, 2);
    assert(cs == seq![first] + rest);
    laws::lemma_join_runs(seq![first], rest, m);
    let tail = text::join(rest, m);
    assert(x == first + m + tail);
    let f = first.len() as int;
    let n = i + f;
    assert(lacks(cs[0], c));
    assert forall|k: int| i <= k < n implies #[trigger] s[k] != c && s[k] != '`' by {
        assert(s[k] == x[k - i]);
        assert(x[k - i] == first[k - i]);
    }
    assert(s[n] == x[f] && s[n + 1] == x[f + 1]);
    lemma_first_marker(s, c, i, n);
    let later = s.skip(n + 2);
    assert(later == x.skip(f + 2));
    assert(later == tail);
    assert(rest.last() == cs.last());
    assert(lacks(cs[1], c));
    assert(rest[0] == cs[1]);
    if rest.len() > 1 {
        assert(cs[1].len() > 0);
        assert forall|k: int| 0 <= k < rest.len() implies lacks(#[trigger] rest[k], c) by {
            assert(lacks(cs[k + 1], c));
        }
        assert forall|k: int| 0 < k < rest.len() - 1 implies (#[trigger] rest[k]).len() > 0 by {
            assert(cs[k + 1].len() > 0);
        }
        lemma_last_marker(s, c, n + 2, rest);
        assert(rest == seq![rest[0]] + rest.skip(1));
        laws::lemma_join_runs(seq![rest[0]], rest.skip(1), m);
        assert(tail[0] == rest[0][0]);
        assert(s[n + 2] == later[0]);
        lemma_after_marker(s, c, n);
    } else {
        assert(tail == rest[0]);
        assert forall|k: int| n + 2 <= k < s.len() implies #[trigger] s[k] != c && s[k]
            != '`' by {
            assert(s[k] == later[k - n - 2]);
        }
        lemma_no_marker_left(s, c, n + 2);
        lemma_after_marker(s, c, n);
    }
}

/// The pieces with the first two of them made one.
spec fn first_merged(cs: Seq<Seq<char>>) -> Seq<Seq<char>> {
    seq![cs[0] + cs[1]] + cs.skip(2)
}

/// The pieces with the last two of them made one.
spec fn last_merged(cs: Seq<Seq<char>>) -> Seq<Seq<char>> {
    cs.take(cs.len() - 2) + seq![cs[cs.len() - 2] + cs[cs.len() - 1]]
}

/// Two pieces made one are the same text.
proof fn lemma_run_on_merged(a: Seq<Seq<char>>, x: Seq<char>, y: Seq<char>, b: Seq<Seq<char>>)
    ensures
        run_on(a + seq![x + y] + b) == run_on(a + seq![x, y] + b),
{
    let none = Seq::<char>::empty();
    reveal_with_fuel(text::join, 3);
    assert(seq![x, y].drop_last() == seq![x]);
    assert(run_on(seq![x, y]) == x + none + y);
    assert(run_on(seq![x + y]) == x + y);
    assert(x + none + y == x + y);
    if a.len() > 0 {
        laws::lemma_join_runs(a, seq![x + y], none);
        laws::lemma_join_runs(a, seq![x, y], none);
    } else {
        assert(a + seq![x + y] == seq![x + y]);
        assert(a + seq![x, y] == seq![x, y]);
    }
    if b.len() > 0 {
        laws::lemma_join_runs(a + seq![x + y], b, none);
        laws::lemma_join_runs(a + seq![x, y], b, none);
    } else {
        assert(a + seq![x + y] + b == a + seq![x + y]);
        assert(a + seq![x, y] + b == a + seq![x, y]);
    }
}

/// Cutting the first marker makes the first two pieces one.
proof fn lemma_cut_first(cs: Seq<Seq<char>>, c: char)
    requires
        cs.len() > 1,
        c != '`',
        marked_off(cs, c),
    ensures
        ({
            let m = seq![c, c];
            let s = text::join(cs, m);
            let n = cs[0].len() as int;
            &&& lines::cut(s, n, n + 2) == text::join(first_merged(cs), m)
            &&& marked_off(first_merged(cs), c)
            &&& run_on(first_merged(cs)) == run_on(cs)
        }),
{
    let m = seq![c, c];
    let s = text::join(cs, m);
    let n = cs[0].len() as int;
    let rest = cs.skip(1);
    let ds = first_merged(cs);
    reveal_with_fuel(text::join, 2);
    assert(cs == seq![cs[0]] + rest);
    laws::lemma_join_runs(seq![cs[0]], rest, m);
    let tail = text::join(rest, m);
    assert(s == cs[0] + m + tail);
    assert(lines::cut(s, n, n + 2) == cs[0] + tail);
    let more = cs.skip(2);
    if more.len() > 0 {
        assert(rest == seq![cs[1]] + more);
        laws::lemma_join_runs(seq![cs[1]], more, m);
        laws::lemma_join_runs(seq![cs[0] + cs[1]], more, m);
        assert(cs[0] + (cs[1] + m + text::join(more, m)) == (cs[0] + cs[1]) + m + text::join(
            more,
            m,
        ));
    } else {
        assert(rest == seq![cs[1]]);
        assert(ds == seq![cs[0] + cs[1]]);
    }
    assert(lacks(cs[0], c) && lacks(cs[1], c));
    assert forall|k: int| 0 <= k < ds.len() implies lacks(#[trigger] ds[k], c) by {
        if k == 0 {
            let x = cs[0] + cs[1];
            assert forall|j: int| 0 <= j < x.len() implies #[trigger] x[j] != c && x[j] != '`' by {
                if j < n {
                    assert(x[j] == cs[0][j]);
                } else {
                    assert(x[j] == cs[1][j - n]);
                }
            }
        } else {
            assert(lacks(cs[k + 1], c));
        }
    }
    assert forall|k: int| 0 < k < ds.len() - 1 implies (#[trigger] ds[k]).len() > 0 by {
        assert(cs[k + 1].len() > 0);
    }
    let none = Seq::<Seq<char>>::empty();
    lemma_run_on_merged(none, cs[0], cs[1], more);
    assert(none + seq![cs[0] + cs[1]] + more == ds);
    assert(none + seq![cs[0], cs[1]] + more == cs);
}

/// Cutting the last marker makes the last two pieces one.
proof fn lemma_cut_last(cs: Seq<Seq<char>>, c: char)
    requires
        cs.len() > 1,
        c != '`',
        marked_off(cs, c),
    ensures
        ({
            let m = seq![c, c];
            let s = text::join(cs, m);
            &&& lines::cut_last(s, m) == text::join(last_merged(cs), m)
            &&& marked_off(last_merged(cs), c)
            &&& run_on(last_merged(cs)) == run_on(cs)
        }),
{
    let m = seq![c, c];
    let s = text::join(cs, m);
    let n = cs.len() - 1;
    let x = cs[n - 1];
    let y = cs[n];
    assert(s.skip(0) == s);
    lemma_last_marker(s, c, 0, cs);
    let at = s.len() - y.len() - 2;
    let before = cs.drop_last();
    let head = text::join(before, m);
    assert(s == head + m + y);
    assert(lines::cut(s, at, at + 2) == head + y);
    let fewer = cs.take(n - 1);
    let ds = last_merged(cs);
    reveal_with_fuel(text::join, 2);
    if fewer.len() > 0 {
        assert(before == fewer + seq![x]);
        laws::lemma_join_runs(fewer, seq![x], m);
        laws::lemma_join_runs(fewer, seq![x + y], m);
        assert(text::join(fewer, m) + m + x + y == text::join(fewer, m) + m + (x + y));
    } else {
        assert(before == seq![x]);
        assert(ds == seq![x + y]);
    }
    assert(lacks(cs[n - 1], c) && lacks(cs[n], c));
    assert forall|k: int| 0 <= k < ds.len() implies lacks(#[trigger] ds[k], c) by {
        if k == n - 1 {
            let z = x + y;
            assert(ds[k] == z);
            assert forall|j: int| 0 <= j < z.len() implies #[trigger] z[j] != c && z[j] != '`' by {
                if j < x.len() {
                    assert(z[j] == x[j]);
                } else {
                    assert(z[j] == y[j - x.len()]);
                }
            }
        } else {
            assert(ds[k] == cs[k]);
            assert(lacks(cs[k], c));
        }
    }
    assert forall|k: int| 0 < k < ds.len() - 1 implies (#[trigger] ds[k]).len() > 0 by {
        assert(ds[k] == cs[k]);
        assert(cs[k].len() > 0);
    }
    let none = Seq::<Seq<char>>::empty();
    lemma_run_on_merged(fewer, x, y, none);
    assert(fewer + seq![x + y] + none == ds);
    assert(fewer + seq![x, y] + none == cs);
}

/// Of markers in a text, all are cut where their number is even; a single one is
/// kept.
pub proof fn law_pairs_of_markers_are_cut(cs: Seq<Seq<char>>, c: char)
    requires
        cs.len() > 0,
        c != '`',
        marked_off(cs, c),
    ensures
        cs.len() % 2 == 1 ==> lines::without_pairs(text::join(cs, seq![c, c]), seq![c, c])
            == run_on(cs),
        cs.len() == 2 ==> lines::without_pairs(text::join(cs, seq![c, c]), seq![c, c])
            == text::join(cs, seq![c, c]),
    decreases cs.len(),
{
    let m = seq![c, c];
    let s = text::join(cs, m);
    assert(s.skip(0) == s);
    if cs.len() == 1 {
        assert(lacks(cs[0], c));
        lemma_no_marker_left(s, c, 0);
    } else if cs.len() == 2 {
        lemma_last_marker(s, c, 0, cs);
        reveal_with_fuel(text::join, 2);
        assert(s.len() == cs[0].len() + 2 + cs[1].len());
    } else if cs.len() % 2 == 1 {
        lemma_last_marker(s, c, 0, cs);
        let n = cs[0].len() as int;
        lemma_join_length(cs, m);
        lemma_cut_first(cs, c);
        let ds = first_merged(cs);
        lemma_cut_last(ds, c);
        law_pairs_of_markers_are_cut(last_merged(ds), c);
        lines::lemma_cut_shrinks(s, m);
    }
}

/// Three or more pieces with a marker between each two of them.
proof fn lemma_join_length(cs: Seq<Seq<char>>, m: Seq<char>)
    requires
        cs.len() > 2,
    ensures
        text::join(cs, m).len() >= cs[0].len() + 2 * m.len() + cs.last().len(),
{
    let before = cs.drop_last();
    reveal_with_fuel(text::join, 2);
    assert(before == seq![cs[0]] + before.skip(1));
    laws::lemma_join_runs(seq![cs[0]], before.skip(1), m);
}

/// A title: text, or text around inline code.
pub enum Title {
    /// Text without backticks, asterisks and underscores.
    Words(Seq<char>),
    /// Text, a number of backticks, code, the backticks again, and text.
    Coded(Seq<char>, nat, Seq<char>, Seq<char>),
}

/// The text of a title on one line, without backticks, asterisks and underscores.
pub open spec fn sober(s: Seq<char>) -> bool {
    forall|k: int|
        0 <= k < s.len() ==> #[trigger] s[k] != '`' && s[k] != '*' && s[k] != '_' && s[k] != '\n'
}

/// The title as it is written.
pub open spec fn wording(t: Title) -> Seq<char> {
    match t {
        Title::Words(w) => w,
        Title::Coded(a, n, c, b) => a + phrases::around(phrases::ticks(n), c, phrases::ticks(n))
            + b,
    }
}

/// The title is one of its kind, without white space around it. Code may hold
/// anything but backticks.
pub open spec fn sound_title(t: Title) -> bool {
    &&& words::bare(wording(t))
    &&& match t {
        Title::Words(w) => sober(w),
        Title::Coded(a, n, c, b) => sober(a) && n > 0 && c.len() > 0 && !c.contains('`')
            && !c.contains('\n') && sober(b),
    }
}

/// The title with its text, not its code, in upper case.
pub open spec fn shouted(t: Title) -> Title {
    match t {
        Title::Words(w) => Title::Words(outside::ascii_uppercase(w)),
        Title::Coded(a, n, c, b) => Title::Coded(
            outside::ascii_uppercase(a),
            n,
            c,
            outside::ascii_uppercase(b),
        ),
    }
}

/// A header line with white space around its title.
pub open spec fn header(level: nat, left: Seq<char>, title: Seq<char>, right: Seq<char>) -> Seq<
    char,
> {
    constructs::hash_marks(level) + seq![' '] + left + title + right
}

/// Text up to inline code, or up to the end of the title.
proof fn lemma_text_end_is(t: Seq<char>, i: int, n: int)
    requires
        0 <= i <= n <= t.len(),
        forall|k: int| i <= k < n ==> #[trigger] t[k] != '`',
        n < t.len() ==> spans::code_span(t, n) is Some,
    ensures
        document::text_end(t, i) == n,
    decreases n - i,
{
    if i < n {
        assert(t[i] != '`');
        assert(spans::code_span(t, i) is None);
        lemma_text_end_is(t, i + 1, n);
    }
}

/// The pieces of a title.
spec fn pieces_of(t: Title) -> Seq<Piece> {
    match t {
        Title::Words(w) => some_text(w),
        Title::Coded(a, n, c, b) => some_text(a) + seq![
            Piece { chars: phrases::around(phrases::ticks(n), c, phrases::ticks(n)), code: true },
        ] + some_text(b),
    }
}

/// A piece of text, or none.
spec fn some_text(w: Seq<char>) -> Seq<Piece> {
    if w.len() == 0 {
        Seq::empty()
    } else {
        seq![Piece { chars: w, code: false }]
    }
}

/// The code of a title stands where it stands.
proof fn lemma_code_there(t: Title)
    requires
        sound_title(t),
    ensures
        t matches Title::Coded(a, n, c, b) ==> {
            let e = (a.len() + 2 * n + c.len()) as int;
            &&& spans::code_span(wording(t), a.len() as int) == Some(e)
            &&& spans::ticks_end(wording(t), a.len() as int) == e
            &&& wording(t)[a.len() as int] == '`'
            &&& forall|k: int| 0 <= k < a.len() ==> #[trigger] wording(t)[k] == a[k]
            &&& forall|k: int| e <= k < wording(t).len() ==> #[trigger] wording(t)[k] == b[k - e]
        },
{
    if let Title::Coded(a, n, c, b) = t {
        let x = wording(t);
        let code = phrases::around(phrases::ticks(n), c, phrases::ticks(n));
        let i = a.len() as int;
        let e = (a.len() + 2 * n + c.len()) as int;
        assert(code.len() == 2 * n + c.len());
        assert forall|k: int| i <= k < e implies #[trigger] x[k] == code[k - i] by {}
        assert(e < x.len() ==> x[e] == b[0]);
        phrases::lemma_code_end(x, i, e, n, c);
    }
}

/// The pieces of a title are its text and its code.
proof fn lemma_pieces(t: Title)
    requires
        sound_title(t),
    ensures
        document::title_parts(wording(t), 0) == pieces_of(t),
{
    let x = wording(t);
    let len = x.len() as int;
    lemma_code_there(t);
    assert(document::title_parts(x, len) == Seq::<Piece>::empty());
    match t {
        Title::Words(w) => {
            lemma_text_end_is(x, 0, len);
            assert(x[0] != '`');
            assert(spans::code_span(x, 0) is None);
            assert(x.subrange(0, len) == w);
            assert(document::title_parts(x, 0) == pieces_of(t));
        },
        Title::Coded(a, n, c, b) => {
            let code = phrases::around(phrases::ticks(n), c, phrases::ticks(n));
            let i = a.len() as int;
            let e = (a.len() + 2 * n + c.len()) as int;
            assert(x.subrange(i, e) == code);
            assert(x.subrange(e, len) == b);
            assert(x.subrange(0, i) == a);
            if b.len() > 0 {
                lemma_text_end_is(x, e, len);
                assert(x[e] == b[0]);
                assert(spans::code_span(x, e) is None);
                assert(document::title_parts(x, e) == some_text(b) + document::title_parts(x, len));
            }
            assert(document::title_parts(x, e) == some_text(b));
            assert(document::title_parts(x, i) == seq![Piece { chars: code, code: true }]
                + some_text(b));
            if a.len() > 0 {
                lemma_text_end_is(x, 0, i);
                assert(x[0] == a[0]);
                assert(spans::code_span(x, 0) is None);
                assert(document::title_parts(x, 0) == some_text(a) + document::title_parts(x, i));
            }
            assert(document::title_parts(x, 0) == pieces_of(t));
        },
    }
}

/// What the pieces of a title spell, where each text is replaced.
proof fn lemma_spelling(t: Title, f: spec_fn(Seq<char>) -> Seq<char>)
    requires
        sound_title(t),
    ensures
        ({
            let ps = pieces_of(t);
            let out = document::spelled(ps, ps.map_values(|p: Piece| f(p.chars)));
            match t {
                Title::Words(w) => out == f(w),
                Title::Coded(a, n, c, b) => {
                    let code = phrases::around(phrases::ticks(n), c, phrases::ticks(n));
                    out == (if a.len() > 0 {
                        f(a)
                    } else {
                        a
                    }) + code + (if b.len() > 0 {
                        f(b)
                    } else {
                        b
                    })
                },
            }
        }),
{
    let g = |p: Piece| f(p.chars);
    let ps = pieces_of(t);
    let none = Seq::<Piece>::empty();
    reveal_with_fuel(document::spelled, 4);
    match t {
        Title::Words(w) => {
            assert(ps.drop_last() == none);
            assert(ps.map_values(g)[0] == f(w));
            assert(document::spelled(ps, ps.map_values(g)) == f(w));
        },
        Title::Coded(a, n, c, b) => {
            let code = phrases::around(phrases::ticks(n), c, phrases::ticks(n));
            let mid = seq![Piece { chars: code, code: true }];
            let texts = ps.map_values(g);
            let front = some_text(a) + mid;
            let fa = if a.len() > 0 {
                f(a)
            } else {
                a
            };
            assert(front.drop_last() == some_text(a));
            assert(some_text(a).len() > 0 ==> some_text(a).drop_last() == none && texts[0] == f(a));
            assert(document::spelled(some_text(a), texts) == fa);
            assert(document::spelled(front, texts) == fa + code);
            if b.len() > 0 {
                assert(ps.drop_last() == front);
                assert(texts[ps.len() - 1] == f(b));
                assert(document::spelled(ps, texts) == fa + code + f(b));
            } else {
                assert(ps == front);
                assert(fa + code + b == fa + code);
            }
        },
    }
}

/// A title has no bold markers to cut.
proof fn lemma_no_bold(t: Title)
    requires
        sound_title(t),
    ensures
        lines::without_bold(wording(t)) == wording(t),
{
    reveal_strlit("**");
    reveal_strlit("__");
    assert("**"@ == seq!['*', '*']);
    assert("__"@ == seq!['_', '_']);
    lemma_no_bold_of(t, '*');
    lemma_no_bold_of(t, '_');
}

proof fn lemma_no_bold_of(t: Title, c: char)
    requires
        sound_title(t),
        c == '*' || c == '_',
    ensures
        lines::first_outside(wording(t), seq![c, c], 0) is None,
{
    let x = wording(t);
    lemma_code_there(t);
    match t {
        Title::Words(w) => {
            lemma_no_marker_left(x, c, 0);
        },
        Title::Coded(a, n, code, b) => {
            let i = a.len() as int;
            let e = (a.len() + 2 * n + code.len()) as int;
            assert forall|k: int| e <= k < x.len() implies #[trigger] x[k] != c && x[k]
                != '`' by {
                assert(x[k] == b[k - e]);
            }
            lemma_no_marker_left(x, c, e);
            assert forall|k: int| 0 <= k < i implies #[trigger] x[k] != c && x[k] != '`' by {
                assert(x[k] == a[k]);
            }
            lemma_text_passed(x, c, 0, i);
        },
    }
}

proof fn lemma_text_passed(s: Seq<char>, c: char, i: int, n: int)
    requires
        0 <= i <= n <= s.len(),
        forall|k: int| i <= k < n ==> #[trigger] s[k] != c && s[k] != '`',
    ensures
        lines::first_outside(s, seq![c, c], i) == lines::first_outside(s, seq![c, c], n),
    decreases n - i,
{
    if i < n {
        assert(s[i] != c && s[i] != '`');
        constructs::lemma_no_marker(s, i, seq![c, c]);
        lemma_text_passed(s, c, i + 1, n);
    }
}

/// The level and the title of a header line.
proof fn lemma_header_of(level: nat, left: Seq<char>, title: Seq<char>, right: Seq<char>)
    requires
        level > 0,
        words::blank(left),
        words::bare(title),
        words::blank(right),
        messages::single(left) && messages::single(title) && messages::single(right),
    ensures
        ({
            let line = header(level, left, title, right);
            &&& document::hashes(line) == level
            &&& document::is_header(line)
            &&& document::header_title(line) == lines::without_bold(title)
            &&& !lines::horizontal_rule(text::trim_start(line))
            &&& document::opening(line) is None
            &&& messages::single(line)
        }),
{
    let line = header(level, left, title, right);
    let n = level as int;
    assert forall|k: int| 0 <= k < n implies #[trigger] line[k] == '#' by {}
    assert(line[n] == ' ');
    constructs::lemma_hashes(line, 0, n);
    assert(line.skip(0) == line);
    let pad = seq![' '] + left;
    assert forall|k: int| 0 <= k < pad.len() implies text::white_space(#[trigger] pad[k]) by {
        if k > 0 {
            assert(pad[k] == left[k - 1]);
        }
    }
    assert(line.skip(n) == words::padded(pad, title, right));
    words::law_trim_gives_what_is_padded(pad, title, right);
    assert(line[0] == '#');
    pages::lemma_no_rule(line);
    pages::lemma_no_opening(line);
    assert forall|k: int| 0 <= k < line.len() implies #[trigger] line[k] != '\n' by {
        let a = n + 1;
        let b = a + left.len();
        let c = b + title.len();
        if k < n {
        } else if k == n {
        } else if k < b {
            assert(line[k] == left[k - a]);
        } else if k < c {
            assert(line[k] == title[k - b]);
        } else {
            assert(line[k] == right[k - c]);
        }
    }
}

/// The title stands on one line.
proof fn lemma_title_single(t: Title)
    requires
        sound_title(t),
    ensures
        messages::single(wording(t)),
{
    if let Title::Coded(a, n, c, b) = t {
        let x = wording(t);
        let e = (a.len() + 2 * n + c.len()) as int;
        lemma_code_there(t);
        assert forall|k: int| 0 <= k < x.len() implies #[trigger] x[k] != '\n' by {
            if k < a.len() {
                assert(x[k] == a[k]);
            } else if k >= e {
                assert(x[k] == b[k - e]);
            } else {
                let code = phrases::around(phrases::ticks(n), c, phrases::ticks(n));
                let j = k - a.len();
                assert(x[k] == code[j]);
                if n <= j < n + c.len() {
                    assert(code[j] == c[j - n]);
                    assert(c.contains(c[j - n]));
                }
            }
        }
    }
}

/// The upper case form of an ASCII character.
proof fn lemma_upper_char(s: Seq<char>, k: int)
    requires
        0 <= k < s.len(),
    ensures
        ({
            let u = outside::ascii_uppercase(s)[k];
            &&& text::white_space(u) == text::white_space(s[k])
            &&& sober(seq![s[k]]) ==> u != '`' && u != '*' && u != '_' && u != '\n'
        }),
{
    assert(seq![s[k]][0] == s[k]);
    let c = s[k];
    if 'a' <= c <= 'z' {
        let u = outside::ascii_uppercase(s)[k];
        assert(u == (c as u32 - 32) as char);
        assert((u as u32) == (c as u32) - 32);
    }
}

/// The upper case form of the text of a title.
proof fn lemma_upper_sober(s: Seq<char>)
    requires
        sober(s),
    ensures
        sober(outside::ascii_uppercase(s)),
        outside::ascii_uppercase(s).len() == s.len(),
{
    let u = outside::ascii_uppercase(s);
    assert forall|k: int| 0 <= k < u.len() implies #[trigger] u[k] != '`' && u[k] != '*' && u[k]
        != '_' && u[k] != '\n' by {
        lemma_upper_char(s, k);
        assert(sober(seq![s[k]]));
    }
}

/// A title in upper case is a title.
proof fn lemma_shouted(t: Title)
    requires
        sound_title(t),
    ensures
        sound_title(shouted(t)),
{
    let x = wording(t);
    let y = wording(shouted(t));
    match t {
        Title::Words(w) => {
            lemma_upper_sober(w);
            lemma_upper_char(w, 0);
            lemma_upper_char(w, w.len() - 1);
        },
        Title::Coded(a, n, c, b) => {
            lemma_upper_sober(a);
            lemma_upper_sober(b);
            let ua = outside::ascii_uppercase(a);
            let ub = outside::ascii_uppercase(b);
            let code = phrases::around(phrases::ticks(n), c, phrases::ticks(n));
            assert(y == ua + code + ub);
            assert(code[0] == '`' && code.last() == '`');
            if a.len() > 0 {
                lemma_upper_char(a, 0);
                assert(x[0] == a[0]);
                assert(y[0] == ua[0]);
            } else {
                assert(y[0] == code[0]);
            }
            if b.len() > 0 {
                lemma_upper_char(b, b.len() - 1);
                assert(x[x.len() - 1] == b[b.len() - 1]);
                assert(y[y.len() - 1] == ub[ub.len() - 1]);
            } else {
                assert(y[y.len() - 1] == code.last());
            }
        },
    }
}

/// The line of a header: its title between asterisks, in upper case on the first
/// two levels, as it stands below; code is never in upper case.
pub proof fn law_headers_are_bold_lines(
    level: nat,
    left: Seq<char>,
    t: Title,
    right: Seq<char>,
)
    requires
        level > 0,
        words::blank(left) && messages::single(left),
        sound_title(t),
        words::blank(right) && messages::single(right),
    ensures
        ({
            let line = header(level, left, wording(t), right);
            &&& level <= 2 ==> document::ascii_line(line) == seq!['*'] + wording(shouted(t))
                + seq!['*']
            &&& level > 2 ==> document::ascii_line(line) == seq!['*'] + wording(t) + seq!['*']
            &&& level > 2 ==> document::plain_line(line) == seq!['*'] + wording(t) + seq!['*']
            &&& level <= 2 ==> document::plain_line(line) == seq!['*'] + (match t {
                Title::Words(w) => outside::uppercase(w),
                Title::Coded(a, n, c, b) => (if a.len() > 0 {
                    outside::uppercase(a)
                } else {
                    a
                }) + phrases::around(phrases::ticks(n), c, phrases::ticks(n)) + (if b.len() > 0 {
                    outside::uppercase(b)
                } else {
                    b
                }),
            }) + seq!['*']
        }),
{
    lemma_title_single(t);
    lemma_header_of(level, left, wording(t), right);
    lemma_no_bold(t);
    lemma_pieces(t);
    let ps = pieces_of(t);
    let same = |w: Seq<char>| w;
    let up = |w: Seq<char>| outside::uppercase(w);
    let ascii = |w: Seq<char>| outside::ascii_uppercase(w);
    lemma_spelling(t, same);
    lemma_spelling(t, up);
    lemma_spelling(t, ascii);
    assert(ps.map_values(|p: Piece| same(p.chars)) == document::chars_in(ps));
    assert(ps.map_values(|p: Piece| up(p.chars)) == document::upper_forms(ps));
    assert(ps.map_values(|p: Piece| ascii(p.chars)) == document::ascii_forms(ps));
    if let Title::Coded(a, n, c, b) = t {
        assert(a.len() == 0 ==> outside::ascii_uppercase(a) == a);
        assert(b.len() == 0 ==> outside::ascii_uppercase(b) == b);
    }
}

/// Bold markers in the title of a header are cut: those of asterisks and then those
/// of underscores.
pub proof fn law_headers_lose_bold_markers(
    level: nat,
    left: Seq<char>,
    stars: Seq<Seq<char>>,
    lows: Seq<Seq<char>>,
    right: Seq<char>,
)
    requires
        level > 0,
        words::blank(left) && messages::single(left),
        words::blank(right) && messages::single(right),
        stars.len() % 2 == 1 && marked_off(stars, '*'),
        lows.len() % 2 == 1 && marked_off(lows, '_'),
        run_on(stars) == text::join(lows, seq!['_', '_']),
        words::bare(text::join(stars, seq!['*', '*'])),
        messages::single(text::join(stars, seq!['*', '*'])),
    ensures
        document::header_title(header(level, left, text::join(stars, seq!['*', '*']), right))
            == run_on(lows),
{
    reveal_strlit("**");
    reveal_strlit("__");
    assert("**"@ == seq!['*', '*']);
    assert("__"@ == seq!['_', '_']);
    lemma_header_of(level, left, text::join(stars, seq!['*', '*']), right);
    law_pairs_of_markers_are_cut(stars, '*');
    law_pairs_of_markers_are_cut(lows, '_');
}

/// No line can open a code block.
pub open spec fn unfenced(ls: Seq<Seq<char>>) -> bool {
    forall|k: int| 0 <= k < ls.len() ==> no_marks(#[trigger] ls[k])
}

/// The line holds no backtick and no tilde.
pub open spec fn no_marks(l: Seq<char>) -> bool {
    forall|j: int| 0 <= j < l.len() ==> #[trigger] l[j] != '`' && l[j] != '~'
}

/// Lines without backticks and tildes open no code block.
proof fn lemma_not_open(ls: Seq<Seq<char>>, more: Seq<Seq<char>>, k: int)
    requires
        unfenced(ls),
        0 <= k <= ls.len(),
    ensures
        document::block(ls + more, k) is None,
    decreases k,
{
    if k > 0 {
        lemma_not_open(ls, more, k - 1);
        let l = (ls + more)[k - 1];
        assert(l == ls[k - 1]);
        assert(no_marks(ls[k - 1]));
        reveal_strlit("```");
        reveal_strlit("~~~");
        let t = text::trim_start(l);
        crate::laws::lemma_trim_start(l);
        if document::fence_of(l) is Some {
            assert(t.subrange(0, 3)[0] == t[0]);
            assert(t[0] == l[l.len() - t.len()]);
        }
    }
}

/// The blocks of two messages that differ in a line that opens none are the same.
proof fn lemma_same_blocks(a: Seq<Seq<char>>, b: Seq<Seq<char>>, at: int, k: int)
    requires
        0 <= at < a.len(),
        a.len() == b.len(),
        forall|j: int| 0 <= j < a.len() && j != at ==> a[j] == #[trigger] b[j],
        document::block(a, at) is None,
        document::opening(a[at]) is None && document::opening(b[at]) is None,
        0 <= k <= a.len(),
    ensures
        document::block(a, k) == document::block(b, k),
    decreases k,
{
    if k > 0 {
        lemma_same_blocks(a, b, at, k - 1);
        if k - 1 != at {
            assert(a[k - 1] == b[k - 1]);
        }
    }
}

/// A line outside of code blocks can be put in the place of another that becomes
/// the same.
proof fn lemma_exchange(pre: Seq<Seq<char>>, x: Seq<char>, y: Seq<char>, post: Seq<Seq<char>>)
    requires
        unfenced(pre),
        forall|k: int| 0 <= k < pre.len() ==> messages::single(#[trigger] pre[k]),
        forall|k: int| 0 <= k < post.len() ==> messages::single(#[trigger] post[k]),
        messages::single(x) && messages::single(y),
        x.len() > 0 && y.len() > 0,
        document::opening(x) is None && document::opening(y) is None,
    ensures
        document::plain_line(x) == document::plain_line(y) ==> document::mrkdwn(
            text::join(pre + seq![x] + post, seq!['\n']),
        ) == document::mrkdwn(text::join(pre + seq![y] + post, seq!['\n'])),
        document::ascii_line(x) == document::ascii_line(y) ==> document::ascii_mrkdwn(
            text::join(pre + seq![x] + post, seq!['\n']),
        ) == document::ascii_mrkdwn(text::join(pre + seq![y] + post, seq!['\n'])),
{
    let a = pre + seq![x] + post;
    let b = pre + seq![y] + post;
    let at = pre.len() as int;
    laws::lemma_line_feed();
    assert(a[at] == x && b[at] == y);
    lemma_lines_of(a);
    lemma_lines_of(b);
    assert(pre + (seq![x] + post) == a);
    lemma_not_open(pre, seq![x] + post, at);
    assert forall|j: int| 0 <= j < a.len() && j != at implies a[j] == #[trigger] b[j] by {}
    assert forall|k: int| 0 <= k < a.len() implies document::code_line(a, k)
        == #[trigger] document::code_line(b, k) && (k != at ==> document::converted(a, k)
        == document::converted(b, k)) by {
        lemma_same_blocks(a, b, at, k);
        if k != at {
            assert(a[k] == b[k]);
        }
    }
    if document::plain_line(x) == document::plain_line(y) {
        let p = document::convert_lines(a);
        let q = document::convert_lines(b);
        assert(p =~= q) by {
            assert forall|k: int| 0 <= k < p.len() implies p[k] == q[k] by {
                assert(document::code_line(a, k) == document::code_line(b, k));
            }
        }
    }
    if document::ascii_line(x) == document::ascii_line(y) {
        let p = document::convert_ascii_lines(a);
        let q = document::convert_ascii_lines(b);
        assert(p =~= q) by {
            assert forall|k: int| 0 <= k < p.len() implies p[k] == q[k] by {
                assert(document::code_line(a, k) == document::code_line(b, k));
                if k != at {
                    assert(a[k] == b[k]);
                }
            }
        }
    }
}

/// The lines of a message that is not empty.
proof fn lemma_lines_of(ls: Seq<Seq<char>>)
    requires
        exists|k: int| 0 <= k < ls.len() && (#[trigger] ls[k]).len() > 0,
        forall|k: int| 0 <= k < ls.len() ==> messages::single(#[trigger] ls[k]),
    ensures
        text::split(text::join(ls, "\n"@), '\n') == ls,
        text::join(ls, "\n"@).len() > 0,
{
    messages::lemma_split_lines(ls);
    let s = text::join(ls, "\n"@);
    if s.len() == 0 {
        assert(ls == seq![Seq::<char>::empty()]);
        let k = choose|k: int| 0 <= k < ls.len() && (#[trigger] ls[k]).len() > 0;
        assert(ls[k].len() == 0);
    }
}

/// Anywhere in a message, outside of code blocks, a header of the first two levels
/// is one of a deeper level with its text in upper case.
pub proof fn law_top_headers_are_in_upper_case(
    pre: Seq<Seq<char>>,
    level: nat,
    t: Title,
    post: Seq<Seq<char>>,
    deeper: nat,
)
    requires
        unfenced(pre),
        forall|k: int| 0 <= k < pre.len() ==> messages::single(#[trigger] pre[k]),
        forall|k: int| 0 <= k < post.len() ==> messages::single(#[trigger] post[k]),
        level == 1 || level == 2,
        deeper > 2,
        sound_title(t),
    ensures
        ({
            let none = Seq::<char>::empty();
            let top = header(level, none, wording(t), none);
            let low = header(deeper, none, wording(shouted(t)), none);
            document::ascii_mrkdwn(text::join(pre + seq![top] + post, seq!['\n']))
                == document::ascii_mrkdwn(text::join(pre + seq![low] + post, seq!['\n']))
        }),
{
    let none = Seq::<char>::empty();
    lemma_shouted(t);
    law_headers_are_bold_lines(level, none, t, none);
    law_headers_are_bold_lines(deeper, none, shouted(t), none);
    lemma_title_single(t);
    lemma_title_single(shouted(t));
    lemma_header_of(level, none, wording(t), none);
    lemma_header_of(deeper, none, wording(shouted(t)), none);
    lemma_exchange(
        pre,
        header(level, none, wording(t), none),
        header(deeper, none, wording(shouted(t)), none),
        post,
    );
}

/// Anywhere in a message, outside of code blocks, bold markers in the title of a
/// header, and white space around it, change nothing.
pub proof fn law_bold_markers_in_headers_change_nothing(
    pre: Seq<Seq<char>>,
    level: nat,
    left: Seq<char>,
    stars: Seq<Seq<char>>,
    lows: Seq<Seq<char>>,
    t: Title,
    right: Seq<char>,
    post: Seq<Seq<char>>,
)
    requires
        unfenced(pre),
        forall|k: int| 0 <= k < pre.len() ==> messages::single(#[trigger] pre[k]),
        forall|k: int| 0 <= k < post.len() ==> messages::single(#[trigger] post[k]),
        level > 0,
        words::blank(left) && messages::single(left),
        words::blank(right) && messages::single(right),
        stars.len() % 2 == 1 && marked_off(stars, '*'),
        lows.len() % 2 == 1 && marked_off(lows, '_'),
        run_on(stars) == text::join(lows, seq!['_', '_']),
        words::bare(text::join(stars, seq!['*', '*'])),
        messages::single(text::join(stars, seq!['*', '*'])),
        sound_title(t),
        run_on(lows) == wording(t),
    ensures
        ({
            let none = Seq::<char>::empty();
            let bold = header(level, left, text::join(stars, seq!['*', '*']), right);
            let bare = header(level, none, wording(t), none);
            &&& document::mrkdwn(text::join(pre + seq![bold] + post, seq!['\n']))
                == document::mrkdwn(text::join(pre + seq![bare] + post, seq!['\n']))
            &&& document::ascii_mrkdwn(text::join(pre + seq![bold] + post, seq!['\n']))
                == document::ascii_mrkdwn(text::join(pre + seq![bare] + post, seq!['\n']))
        }),
{
    let none = Seq::<char>::empty();
    let s = text::join(stars, seq!['*', '*']);
    law_headers_lose_bold_markers(level, left, stars, lows, right);
    lemma_header_of(level, left, s, right);
    lemma_title_single(t);
    lemma_header_of(level, none, wording(t), none);
    lemma_no_bold(t);
    lemma_exchange(pre, header(level, left, s, right), header(level, none, wording(t), none), post);
}

/// The line is a header of one of the first two levels.
pub open spec fn top_header(l: Seq<char>) -> bool {
    l.len() > 1 && l[0] == '#' && (l[1] == ' ' || (l[1] == '#' && l.len() > 2 && l[2] == ' '))
}

/// Without headers of the first two levels, nothing depends on upper case.
pub proof fn law_upper_case_is_for_top_headers_only(ls: Seq<Seq<char>>)
    requires
        ls.len() > 0,
        forall|k: int| 0 <= k < ls.len() ==> messages::single(#[trigger] ls[k]),
        forall|k: int| 0 <= k < ls.len() ==> !top_header(#[trigger] ls[k]),
    ensures
        document::ascii_mrkdwn(text::join(ls, seq!['\n'])) == document::mrkdwn(
            text::join(ls, seq!['\n']),
        ),
{
    laws::lemma_line_feed();
    messages::lemma_split_lines(ls);
    let p = document::convert_lines(ls);
    let q = document::convert_ascii_lines(ls);
    assert(p =~= q) by {
        assert forall|k: int| 0 <= k < p.len() implies p[k] == q[k] by {
            let l = ls[k];
            assert(!top_header(l));
            if document::is_header(l) {
                lemma_level(l);
            }
        }
    }
}

proof fn lemma_level(l: Seq<char>)
    requires
        document::is_header(l),
        !top_header(l),
    ensures
        document::hashes(l) > 2,
{
    reveal_with_fuel(text::leading, 4);
    assert(l.skip(1).skip(1) == l.skip(2));
}

} // verus!
