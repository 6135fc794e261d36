//! Tables, written cell by cell, and the lists that they become.

use vstd::prelude::*;
use crate::mrkdwn::constructs;
use crate::mrkdwn::document;
use crate::mrkdwn::entities;
use crate::mrkdwn::fences;
use crate::mrkdwn::laws;
use crate::mrkdwn::messages;
use crate::mrkdwn::pages;
use crate::mrkdwn::pages::Line;
use crate::mrkdwn::phrases;
use crate::mrkdwn::spans;
use crate::mrkdwn::tables;
use crate::mrkdwn::urls;
use crate::promises::words;
use crate::text;

verus! {

/// A cell of a table: text, or text around inline code.
pub enum Cell {
    /// Text without bars and backticks.
    Words(Seq<char>),
    /// Text, a number of backticks, code, the backticks again, and text.
    Code(Seq<char>, nat, Seq<char>, Seq<char>),
}

/// The text holds no bar and no backtick, and stands on one line.
pub open spec fn open_text(s: Seq<char>) -> bool {
    forall|k: int| 0 <= k < s.len() ==> #[trigger] s[k] != '|' && s[k] != '`' && s[k] != '\n'
}

/// The cell is one of its kind. Code may hold bars.
pub open spec fn sound_cell(c: Cell) -> bool {
    match c {
        Cell::Words(t) => t.len() > 0 && open_text(t),
        Cell::Code(a, n, t, b) => open_text(a) && n > 0 && t.len() > 0 && !t.contains('`')
            && !t.contains('\n') && open_text(b),
    }
}

/// The cell as it stands between bars.
pub open spec fn cell(c: Cell) -> Seq<char> {
    match c {
        Cell::Words(t) => t,
        Cell::Code(a, n, t, b) => a + phrases::around(phrases::ticks(n), t, phrases::ticks(n)) + b,
    }
}

/// The cell without white space around it.
pub open spec fn neat(c: Cell) -> Seq<char> {
    text::trim(cell(c))
}

/// A row of a table: cells with a bar between each two of them, one or more bars
/// before the first one and, where there are any, bars and white space behind the
/// last one; the row may be indented.
pub struct Row {
    pub indent: Seq<char>,
    pub left: nat,
    pub cells: Seq<Cell>,
    pub right: nat,
    pub trail: Seq<char>,
}

/// A number of bars.
pub open spec fn bars(n: nat) -> Seq<char> {
    Seq::new(n, |k: int| '|')
}

/// The cells of a row as they stand between bars.
pub open spec fn between_bars(cs: Seq<Cell>) -> Seq<Seq<char>> {
    Seq::new(cs.len(), |k: int| cell(cs[k]))
}

/// The cells of a row without white space around them.
pub open spec fn neat_cells(cs: Seq<Cell>) -> Seq<Seq<char>> {
    Seq::new(cs.len(), |k: int| neat(cs[k]))
}

/// What stands between the first bar of the row and the white space at its end.
pub open spec fn body(r: Row) -> Seq<char> {
    text::join(between_bars(r.cells), seq!['|'])
}

/// The row.
pub open spec fn row(r: Row) -> Seq<char> {
    if r.right > 0 {
        r.indent + (bars(r.left) + body(r) + bars(r.right)) + r.trail
    } else {
        r.indent + (bars(r.left) + body(r))
    }
}

/// The row is one of its kind.
pub open spec fn sound_row(r: Row) -> bool {
    &&& r.cells.len() > 0
    &&& forall|k: int| 0 <= k < r.cells.len() ==> sound_cell(#[trigger] r.cells[k])
    &&& words::blank(r.indent) && words::blank(r.trail)
    &&& messages::single(r.indent) && messages::single(r.trail)
    &&& r.left > 0
    &&& r.right == 0 ==> !text::white_space(cell(r.cells.last()).last())
}

/// A cell ends at the next bar behind it.
proof fn lemma_cell_ends(s: Seq<char>, i: int, c: Cell)
    requires
        sound_cell(c),
        phrases::stands(s, i, cell(c)),
        i + cell(c).len() < s.len() ==> s[i + cell(c).len()] == '|',
    ensures
        tables::next_bar(s, i) == i + cell(c).len(),
{
    match c {
        Cell::Words(t) => {
            lemma_text_passed(s, i, (i + t.len()) as int);
        },
        Cell::Code(a, n, t, b) => {
            let x = cell(c);
            let code = phrases::around(phrases::ticks(n), t, phrases::ticks(n));
            let from = (i + a.len()) as int;
            let to = (from + code.len()) as int;
            let end = (i + x.len()) as int;
            assert forall|k: int| i <= k < from implies #[trigger] s[k] != '|' && s[k] != '`' by {
                assert(s[k] == x[k - i]);
                assert(x[k - i] == a[k - i]);
            }
            assert forall|k: int| to <= k < end implies #[trigger] s[k] != '|' && s[k] != '`' by {
                assert(s[k] == x[k - i]);
                assert(x[k - i] == b[k - to]);
            }
            assert forall|k: int| from <= k < to implies #[trigger] s[k] == code[k - from] by {
                assert(s[k] == x[k - i]);
                assert(x[k - i] == code[k - from]);
            }
            if to < s.len() {
                if to < end {
                    assert(s[to] == x[to - i]);
                    assert(x[to - i] == b[0]);
                }
            }
            phrases::lemma_code_end(s, from, to, n, t);
            lemma_text_passed(s, i, from);
            lemma_text_passed(s, to, end);
        },
    }
}

/// Text without bars and backticks holds no bar.
proof fn lemma_text_passed(s: Seq<char>, i: int, n: int)
    requires
        0 <= i <= n <= s.len(),
        forall|k: int| i <= k < n ==> #[trigger] s[k] != '|' && s[k] != '`',
    ensures
        tables::next_bar(s, i) == tables::next_bar(s, n),
    decreases n - i,
{
    if i < n {
        assert(s[i] != '|' && s[i] != '`');
        lemma_text_passed(s, i + 1, n);
    }
}

/// Cells with bars between them are found.
proof fn lemma_cells_split(s: Seq<char>, i: int, cs: Seq<Cell>)
    requires
        cs.len() > 0,
        forall|k: int| 0 <= k < cs.len() ==> sound_cell(#[trigger] cs[k]),
        0 <= i <= s.len(),
        s.skip(i) == text::join(between_bars(cs), seq!['|']),
    ensures
        tables::split_from(s, i) == between_bars(cs),
    decreases cs.len(),
{
    let bar = seq!['|'];
    let all = between_bars(cs);
    let c = cs[0];
    assert(sound_cell(cs[0]));
    let n = cell(c).len() as int;
    reveal_with_fuel(text::join, 2);
    if cs.len() == 1 {
        assert(s.skip(i) == cell(c));
        assert forall|k: int| i <= k < i + n implies #[trigger] s[k] == cell(c)[k - i] by {
            assert(s.skip(i)[k - i] == s[k]);
        }
        lemma_cell_ends(s, i, c);
        assert(all == seq![cell(c)]);
    } else {
        let more = cs.skip(1);
        let rest = between_bars(more);
        assert(all == seq![cell(c)] + rest);
        laws::lemma_join_runs(seq![cell(c)], rest, bar);
        let x = s.skip(i);
        assert(x == cell(c) + bar + text::join(rest, bar));
        assert forall|k: int| i <= k < i + n implies #[trigger] s[k] == cell(c)[k - i] by {
            assert(x[k - i] == s[k]);
        }
        assert(x[n] == s[i + n]);
        lemma_cell_ends(s, i, c);
        let next = i + n + 1;
        assert(s.skip(next) == x.skip(n + 1));
        assert(x.skip(n + 1) == text::join(rest, bar));
        assert forall|k: int| 0 <= k < more.len() implies sound_cell(#[trigger] more[k]) by {
            assert(sound_cell(cs[k + 1]));
        }
        lemma_cells_split(s, next, more);
        assert(s.subrange(i, i + n) == cell(c));
    }
}

/// A cell begins and ends with something other than a bar.
proof fn lemma_cell_borders(c: Cell)
    requires
        sound_cell(c),
    ensures
        cell(c).len() > 0,
        cell(c)[0] != '|',
        cell(c).last() != '|',
        messages::single(cell(c)),
{
    let x = cell(c);
    if let Cell::Code(a, n, t, b) = c {
        let code = phrases::around(phrases::ticks(n), t, phrases::ticks(n));
        assert(code[0] == '`' && code.last() == '`');
        assert(x[0] == if a.len() > 0 {
            a[0]
        } else {
            code[0]
        });
        assert(x.last() == if b.len() > 0 {
            b.last()
        } else {
            code.last()
        });
        assert forall|k: int| 0 <= k < x.len() implies #[trigger] x[k] != '\n' by {
            if k < a.len() {
                assert(x[k] == a[k]);
            } else if k < a.len() + code.len() {
                assert(x[k] == code[k - a.len()]);
                let j = k - a.len();
                if n <= j < n + t.len() {
                    assert(code[j] == t[j - n]);
                    assert(t.contains(t[j - n]));
                }
            } else {
                assert(x[k] == b[k - a.len() - code.len()]);
            }
        }
    }
}

/// The cells between bars begin and end like the first and the last of them.
proof fn lemma_body_borders(r: Row)
    requires
        sound_row(r),
    ensures
        body(r).len() > 0,
        body(r)[0] != '|',
        body(r).last() == cell(r.cells.last()).last(),
        body(r).last() != '|',
        messages::single(body(r)),
{
    let bar = seq!['|'];
    let all = between_bars(r.cells);
    let n = all.len() as int;
    assert(sound_cell(r.cells[0]));
    assert(sound_cell(r.cells[n - 1]));
    lemma_cell_borders(r.cells[0]);
    lemma_cell_borders(r.cells[n - 1]);
    assert(all.last() == cell(r.cells.last()));
    assert forall|k: int| 0 <= k < all.len() implies messages::single(#[trigger] all[k]) by {
        assert(sound_cell(r.cells[k]));
        lemma_cell_borders(r.cells[k]);
    }
    lemma_joined_single(all, bar);
    reveal_with_fuel(text::join, 2);
    if n > 1 {
        let rest = all.skip(1);
        assert(all == seq![all[0]] + rest);
        laws::lemma_join_runs(seq![all[0]], rest, bar);
        assert(body(r)[0] == all[0][0]);
        assert(body(r) == text::join(all.drop_last(), bar) + bar + all.last());
    }
}

/// Joined pieces on one line stand on one line.
proof fn lemma_joined_single(ps: Seq<Seq<char>>, sep: Seq<char>)
    requires
        messages::single(sep),
        forall|k: int| 0 <= k < ps.len() ==> messages::single(#[trigger] ps[k]),
    ensures
        messages::single(text::join(ps, sep)),
    decreases ps.len(),
{
    if ps.len() == 1 {
        assert(messages::single(ps[0]));
    } else if ps.len() > 1 {
        let before = ps.drop_last();
        assert forall|k: int| 0 <= k < before.len() implies messages::single(
            #[trigger] before[k],
        ) by {
            assert(messages::single(ps[k]));
        }
        lemma_joined_single(before, sep);
        assert(messages::single(ps[ps.len() - 1]));
        let a = text::join(before, sep);
        let x = text::join(ps, sep);
        assert forall|k: int| 0 <= k < x.len() implies #[trigger] x[k] != '\n' by {
            if k < a.len() {
                assert(x[k] == a[k]);
            } else if k < a.len() + sep.len() {
                assert(x[k] == sep[k - a.len()]);
            } else {
                assert(x[k] == ps.last()[k - a.len() - sep.len()]);
            }
        }
    }
}

/// The row from its first bar to the end of its last cell or the last bar behind it.
pub open spec fn stem(r: Row) -> Seq<char> {
    bars(r.left) + body(r) + bars(r.right)
}

/// The row without the white space around it.
proof fn lemma_row_trimmed(r: Row)
    requires
        sound_row(r),
    ensures
        text::trim(row(r)) == stem(r),
        text::trim(stem(r)) == stem(r),
        tables::table_row(row(r)),
        messages::single(row(r)),
{
    let none = Seq::<char>::empty();
    let x = stem(r);
    lemma_body_borders(r);
    assert(x[0] == '|');
    assert(x.last() == if r.right > 0 {
        '|'
    } else {
        body(r).last()
    });
    let trail = if r.right > 0 {
        r.trail
    } else {
        none
    };
    assert(row(r) == words::padded(r.indent, x, trail));
    words::law_trim_gives_what_is_padded(r.indent, x, trail);
    assert(words::padded(none, x, none) == x);
    words::law_trim_gives_what_is_padded(none, x, none);
    let line = row(r);
    assert forall|k: int| 0 <= k < line.len() implies #[trigger] line[k] != '\n' by {
        if k < r.indent.len() {
            assert(line[k] == r.indent[k]);
        } else if k < r.indent.len() + x.len() {
            assert(line[k] == x[k - r.indent.len()]);
            let j = k - r.indent.len();
            if r.left <= j < r.left + body(r).len() {
                assert(x[j] == body(r)[j - r.left]);
            }
        } else {
            assert(line[k] == trail[k - r.indent.len() - x.len()]);
        }
    }
}

/// Bars at the start are dropped.
proof fn lemma_start_bars(n: nat, y: Seq<char>)
    requires
        y.len() > 0,
        y[0] != '|',
    ensures
        tables::trim_start_bars(bars(n) + y) == y,
    decreases n,
{
    let x = bars(n) + y;
    if n > 0 {
        lemma_start_bars((n - 1) as nat, y);
        assert(x[0] == '|');
        assert(x.skip(1) == bars((n - 1) as nat) + y);
    } else {
        assert(x == y);
    }
}

/// Bars at the end are dropped.
proof fn lemma_end_bars(y: Seq<char>, n: nat)
    requires
        y.len() > 0,
        y.last() != '|',
    ensures
        tables::trim_end_bars(y + bars(n)) == y,
    decreases n,
{
    let x = y + bars(n);
    if n > 0 {
        lemma_end_bars(y, (n - 1) as nat);
        assert(x[x.len() - 1] == '|');
        assert(x.take(x.len() - 1) == y + bars((n - 1) as nat));
    } else {
        assert(x == y);
    }
}

/// The cells of a row are what stands between its bars, without white space
/// around it; bars in inline code end no cell.
pub proof fn law_cells_stand_between_bars(r: Row)
    requires
        sound_row(r),
    ensures
        tables::cells(row(r)) == neat_cells(r.cells),
        tables::raw_cells(row(r)) == between_bars(r.cells),
{
    let b = body(r);
    let x = stem(r);
    lemma_row_trimmed(r);
    lemma_body_borders(r);
    let y = b + bars(r.right);
    assert(x == bars(r.left) + y);
    assert(y[0] == b[0]);
    lemma_start_bars(r.left, y);
    lemma_end_bars(b, r.right);
    assert(b.skip(0) == b);
    lemma_cells_split(b, 0, r.cells);
    assert(tables::raw_cells(row(r)) == between_bars(r.cells));
    assert(tables::cells(row(r)) == neat_cells(r.cells));
}

/// The cell is made of dashes, colons and spaces, and not of spaces alone.
pub open spec fn dashes(c: Cell) -> bool {
    c matches Cell::Words(t) && (forall|k: int|
        0 <= k < t.len() ==> #[trigger] t[k] == '-' || t[k] == ':' || t[k] == ' ') && (exists|
        k: int,
    | 0 <= k < t.len() && #[trigger] t[k] != ' ')
}

/// The cell is blank, or holds something other than dashes, colons and white
/// space.
pub open spec fn telling(c: Cell) -> bool {
    words::blank(cell(c)) || exists|k: int|
        0 <= k < cell(c).len() && telling_char(#[trigger] cell(c)[k])
}

/// The character is none of a separator.
pub open spec fn telling_char(c: char) -> bool {
    c != '-' && c != ':' && !text::white_space(c)
}

/// The row separates the header of a table from its data.
pub open spec fn ruled(r: Row) -> bool {
    sound_row(r) && forall|k: int| 0 <= k < r.cells.len() ==> dashes(#[trigger] r.cells[k])
}

/// The row holds data.
pub open spec fn worded(r: Row) -> bool {
    sound_row(r) && exists|k: int| 0 <= k < r.cells.len() && telling(#[trigger] r.cells[k])
}

/// A cell of dashes is one of a separator.
proof fn lemma_dashes(c: Cell)
    requires
        dashes(c),
    ensures
        tables::dash_cell(cell(c)),
{
    let t = cell(c);
    let k = choose|k: int| 0 <= k < t.len() && #[trigger] t[k] != ' ';
    assert(!text::white_space(t[k]));
    let (a, m, b) = words::lemma_padded(t);
    words::law_trim_gives_what_is_padded(a, m, b);
    assert forall|i: int| 0 <= i < m.len() implies #[trigger] m[i] == '-' || m[i] == ':' || m[i]
        == ' ' by {
        assert(m[i] == t[a.len() + i]);
    }
}

/// A cell of data is none of a separator.
proof fn lemma_telling(c: Cell)
    requires
        telling(c),
    ensures
        !tables::dash_cell(cell(c)),
{
    let t = cell(c);
    if words::blank(t) {
        words::law_trim_leaves_nothing_of_blanks(t);
    } else {
        let k = choose|k: int| 0 <= k < t.len() && telling_char(#[trigger] t[k]);
        let (a, m, b) = words::lemma_padded(t);
        words::law_trim_gives_what_is_padded(a, m, b);
        if k < a.len() {
            assert(a[k] == t[k]);
        } else if k >= a.len() + m.len() {
            assert(b[k - a.len() - m.len()] == t[k]);
        }
        assert(m[k - a.len()] == t[k]);
    }
}

/// Rows that separate are told from rows of data.
proof fn lemma_separators(r: Row)
    ensures
        ruled(r) ==> tables::separator(stem(r)),
        worded(r) ==> !tables::separator(stem(r)),
        sound_row(r) ==> tables::cells(stem(r)) == neat_cells(r.cells),
{
    if sound_row(r) {
        lemma_row_trimmed(r);
        law_cells_stand_between_bars(r);
        let raw = tables::raw_cells(stem(r));
        assert(raw == between_bars(r.cells));
        if ruled(r) {
            assert forall|k: int| 0 <= k < raw.len() implies tables::dash_cell(
                #[trigger] raw[k],
            ) by {
                assert(dashes(r.cells[k]));
                lemma_dashes(r.cells[k]);
            }
        }
        if worded(r) {
            let k = choose|k: int| 0 <= k < r.cells.len() && telling(#[trigger] r.cells[k]);
            lemma_telling(r.cells[k]);
            assert(!tables::dash_cell(raw[k]));
        }
    }
}

/// The lines of the rows.
pub open spec fn rows_raw(rs: Seq<Row>) -> Seq<Seq<char>> {
    Seq::new(rs.len(), |k: int| row(rs[k]))
}

/// The line that a header row becomes: its cells in bold.
pub open spec fn heading(r: Row) -> Seq<char> {
    text::join(
        Seq::new(r.cells.len(), |k: int| seq!['*'] + neat(r.cells[k]) + seq!['*']),
        seq![' ', '|', ' '],
    )
}

/// The line that a row of data becomes: a bullet and its cells.
pub open spec fn item(r: Row) -> Seq<char> {
    seq!['•', ' '] + text::join(neat_cells(r.cells), seq![' ', '|', ' '])
}

/// The lines that the rows behind the header become: rows that separate are
/// left out.
pub open spec fn items(rs: Seq<Row>) -> Seq<Seq<char>>
    decreases rs.len(),
{
    if rs.len() == 0 {
        Seq::empty()
    } else if ruled(rs.last()) {
        items(rs.drop_last())
    } else {
        items(rs.drop_last()).push(item(rs.last()))
    }
}

/// The rows without white space around them.
spec fn stems(rs: Seq<Row>) -> Seq<Seq<char>> {
    Seq::new(rs.len(), |k: int| stem(rs[k]))
}

/// The rows of data, each as a line of a list.
proof fn lemma_items(rs: Seq<Row>)
    requires
        forall|k: int| 0 <= k < rs.len() ==> ruled(#[trigger] rs[k]) || worded(rs[k]),
    ensures
        tables::content_rows(stems(rs)).map_values(|r: Seq<char>| tables::data_line(r)) == items(
            rs,
        ),
        (forall|k: int| 0 <= k < rs.len() ==> ruled(#[trigger] rs[k])) ==> tables::content_rows(
            stems(rs),
        ).len() == 0,
    decreases rs.len(),
{
    reveal(Seq::filter);
    let f = |r: Seq<char>| tables::data_line(r);
    if rs.len() > 0 {
        let last = rs.last();
        let before = rs.drop_last();
        assert(ruled(rs[rs.len() - 1]) || worded(rs[rs.len() - 1]));
        assert forall|k: int| 0 <= k < before.len() implies ruled(#[trigger] before[k]) || worded(
            before[k],
        ) by {
            assert(ruled(rs[k]) || worded(rs[k]));
        }
        lemma_items(before);
        lemma_separators(last);
        assert(stems(rs).drop_last() == stems(before));
        assert(stems(rs).last() == stem(last));
        let kept = tables::content_rows(stems(before));
        if ruled(last) {
            assert(tables::content_rows(stems(rs)) == kept);
            if forall|k: int| 0 <= k < rs.len() ==> ruled(#[trigger] rs[k]) {
                assert forall|k: int| 0 <= k < before.len() implies ruled(#[trigger] before[k]) by {
                    assert(ruled(rs[k]));
                }
            }
        } else {
            assert(tables::content_rows(stems(rs)) == kept.push(stem(last)));
            lemma_bars();
            assert(tables::data_line(stem(last)) == item(last));
            assert(kept.push(stem(last)).map_values(f) == kept.map_values(f).push(item(last)));
            assert(!ruled(rs[rs.len() - 1]));
        }
    } else {
        assert(stems(rs).len() == 0);
        assert(tables::content_rows(stems(rs)).len() == 0);
        assert(tables::content_rows(stems(rs)).map_values(f) == items(rs));
    }
}

proof fn lemma_bars()
    ensures
        " | "@ == seq![' ', '|', ' '],
        "• "@ == seq!['•', ' '],
{
    reveal_strlit(" | ");
    reveal_strlit("• ");
    assert(" | "@ == seq![' ', '|', ' ']);
    assert("• "@ == seq!['•', ' ']);
}

/// The lines that the rows of a table become.
proof fn lemma_table(ahead: Seq<Row>, head: Row, rest: Seq<Row>)
    requires
        forall|k: int| 0 <= k < ahead.len() ==> ruled(#[trigger] ahead[k]),
        worded(head),
        forall|k: int| 0 <= k < rest.len() ==> ruled(#[trigger] rest[k]) || worded(rest[k]),
        ahead.len() + rest.len() > 0,
    ensures
        tables::table_lines(stems(ahead + seq![head] + rest)) == seq![heading(head)] + items(rest),
{
    let all = ahead + seq![head] + rest;
    let one = seq![stem(head)];
    lemma_content(ahead, head, rest);
    lemma_items(rest);
    let content = tables::content_rows(stems(all));
    let later = tables::content_rows(stems(rest));
    assert(content == one + later);
    assert(content[0] == stem(head));
    assert(content.skip(1) == later);
    lemma_heading(head);
}

/// The line of a header row.
proof fn lemma_heading(head: Row)
    requires
        worded(head),
    ensures
        tables::header_line(stem(head)) == heading(head),
{
    lemma_separators(head);
    lemma_bars();
    assert(tables::cells(stem(head)).map_values(|c: Seq<char>| seq!['*'] + c + seq!['*'])
        == Seq::new(head.cells.len(), |k: int| seq!['*'] + neat(head.cells[k]) + seq!['*']));
}

/// The rows of a table that hold data.
proof fn lemma_content(ahead: Seq<Row>, head: Row, rest: Seq<Row>)
    requires
        forall|k: int| 0 <= k < ahead.len() ==> ruled(#[trigger] ahead[k]),
        worded(head),
    ensures
        tables::content_rows(stems(ahead + seq![head] + rest)) == seq![stem(head)]
            + tables::content_rows(stems(rest)),
{
    let all = ahead + seq![head] + rest;
    let keep = |r: Seq<char>| !tables::separator(r);
    let one = seq![stem(head)];
    assert(stems(all) == stems(ahead) + one + stems(rest));
    Seq::filter_distributes_over_add(stems(ahead) + one, stems(rest), keep);
    Seq::filter_distributes_over_add(stems(ahead), one, keep);
    lemma_items(ahead);
    lemma_separators(head);
    assert(one.filter(keep) == one) by {
        reveal(Seq::filter);
        assert(one.drop_last() == Seq::<Seq<char>>::empty());
        assert(one.drop_last().filter(keep) == Seq::<Seq<char>>::empty());
        assert(one.last() == stem(head));
    }
    assert(stems(ahead).filter(keep) == Seq::<Seq<char>>::empty());
    assert(Seq::<Seq<char>>::empty() + one == one);
}

/// Runs of rows behind other lines.
proof fn lemma_run_behind(a: Seq<Seq<char>>, b: Seq<Seq<char>>, j: int)
    requires
        0 <= j <= b.len(),
    ensures
        tables::run_end(a + b, a.len() + j) == a.len() + tables::run_end(b, j),
    decreases b.len() - j,
{
    if j < b.len() {
        assert((a + b)[a.len() + j] == b[j]);
        lemma_run_behind(a, b, j + 1);
    }
}

/// Lines behind other lines are converted as if they stood alone.
proof fn lemma_convert_behind(a: Seq<Seq<char>>, b: Seq<Seq<char>>, j: int)
    requires
        0 <= j <= b.len(),
    ensures
        tables::convert_from(a + b, a.len() + j) == tables::convert_from(b, j),
    decreases b.len() - j,
{
    if j < b.len() {
        let m = a.len() as int;
        assert((a + b)[m + j] == b[j]);
        if tables::table_row(b[j]) {
            let e = tables::run_end(b, j);
            tables::lemma_run_end(b, j);
            lemma_run_behind(a, b, j);
            assert((a + b).subrange(m + j, m + e) == b.subrange(j, e));
            lemma_convert_behind(a, b, e);
        } else {
            lemma_convert_behind(a, b, j + 1);
        }
    }
}

/// No run of rows goes on from the first lines to the second ones.
pub open spec fn parted(a: Seq<Seq<char>>, b: Seq<Seq<char>>) -> bool {
    a.len() == 0 || b.len() == 0 || !bar_first(a.last()) || !bar_first(b[0])
}

/// The first character of the line is a bar, white space aside.
pub open spec fn bar_first(line: Seq<char>) -> bool {
    text::trim(line).len() > 0 && text::trim(line)[0] == '|'
}

/// A run of rows ends where the lines are parted.
proof fn lemma_run_before(a: Seq<Seq<char>>, b: Seq<Seq<char>>, i: int)
    requires
        parted(a, b),
        0 <= i < a.len(),
    ensures
        tables::run_end(a + b, i) == tables::run_end(a, i),
    decreases a.len() - i,
{
    assert((a + b)[i] == a[i]);
    if tables::table_row(a[i]) {
        if i + 1 < a.len() {
            lemma_run_before(a, b, i + 1);
        } else {
            if b.len() > 0 {
                assert((a + b)[i + 1] == b[0]);
                assert(a.last() == a[i]);
            }
            assert(tables::run_end(a + b, i + 1) == i + 1);
            assert(tables::run_end(a, i + 1) == i + 1);
        }
    }
}

/// Where lines are parted, both sides are converted by themselves.
proof fn lemma_convert_apart(a: Seq<Seq<char>>, b: Seq<Seq<char>>, i: int)
    requires
        parted(a, b),
        0 <= i <= a.len(),
    ensures
        tables::convert_from(a + b, i) == tables::convert_from(a, i) + tables::convert_from(b, 0),
    decreases a.len() - i,
{
    let rest = tables::convert_from(b, 0);
    if i == a.len() {
        lemma_convert_behind(a, b, 0);
        assert(tables::convert_from(a, i) + rest == rest);
    } else {
        assert((a + b)[i] == a[i]);
        if tables::table_row(a[i]) {
            let e = tables::run_end(a, i);
            tables::lemma_run_end(a, i);
            lemma_run_before(a, b, i);
            assert((a + b).subrange(i, e) == a.subrange(i, e));
            lemma_convert_apart(a, b, e);
            let own = tables::table_lines(tables::run_rows(a, i));
            assert(own + (tables::convert_from(a, e) + rest) == own + tables::convert_from(a, e)
                + rest);
        } else {
            lemma_convert_apart(a, b, i + 1);
            let own = seq![a[i]];
            assert(own + (tables::convert_from(a, i + 1) + rest) == own + tables::convert_from(
                a,
                i + 1,
            ) + rest);
        }
    }
}

/// A run of rows goes to the end of the lines.
proof fn lemma_run_all(ls: Seq<Seq<char>>, i: int)
    requires
        0 <= i <= ls.len(),
        forall|k: int| 0 <= k < ls.len() ==> tables::table_row(#[trigger] ls[k]),
    ensures
        tables::run_end(ls, i) == ls.len(),
    decreases ls.len() - i,
{
    if i < ls.len() {
        assert(tables::table_row(ls[i]));
        lemma_run_all(ls, i + 1);
    }
}

/// The rows of a table become the lines of a list.
proof fn lemma_rows_converted(rs: Seq<Row>)
    requires
        rs.len() > 0,
        forall|k: int| 0 <= k < rs.len() ==> sound_row(#[trigger] rs[k]),
    ensures
        tables::convert_from(rows_raw(rs), 0) == tables::table_lines(stems(rs)),
        forall|k: int| 0 <= k < rs.len() ==> bar_first(#[trigger] rows_raw(rs)[k]),
        forall|k: int| 0 <= k < rs.len() ==> messages::single(#[trigger] rows_raw(rs)[k]),
{
    let ls = rows_raw(rs);
    assert forall|k: int| 0 <= k < ls.len() implies tables::table_row(#[trigger] ls[k])
        && messages::single(ls[k]) && text::trim(ls[k]) == stem(rs[k]) by {
        assert(sound_row(rs[k]));
        lemma_row_trimmed(rs[k]);
    }
    lemma_run_all(ls, 0);
    assert(tables::table_row(ls[0]));
    assert(tables::run_rows(ls, 0) == stems(rs)) by {
        assert forall|k: int| 0 <= k < rs.len() implies tables::run_rows(ls, 0)[k] == stems(
            rs,
        )[k] by {
            assert(ls.subrange(0, ls.len() as int)[k] == ls[k]);
            assert(text::trim(ls[k]) == stem(rs[k]));
        }
    }
    assert(tables::convert_from(ls, ls.len() as int) == Seq::<Seq<char>>::empty());
    let own = tables::table_lines(stems(rs));
    assert(own + Seq::<Seq<char>>::empty() == own);
}

/// The converted text of lines, as one piece, or as none where there are no lines.
pub open spec fn rendered(ls: Seq<Seq<char>>) -> Seq<Seq<char>> {
    if ls.len() == 0 {
        Seq::empty()
    } else {
        seq![tables::tables(text::join(ls, seq!['\n']))]
    }
}

/// Lines with something between them.
proof fn lemma_lines_between(
    pre: Seq<Seq<char>>,
    mid: Seq<Seq<char>>,
    out: Seq<Seq<char>>,
    post: Seq<Seq<char>>,
)
    requires
        mid.len() > 0 && out.len() > 0,
        forall|k: int| 0 <= k < pre.len() ==> messages::single(#[trigger] pre[k]),
        forall|k: int| 0 <= k < mid.len() ==> messages::single(#[trigger] mid[k]),
        forall|k: int| 0 <= k < post.len() ==> messages::single(#[trigger] post[k]),
        tables::convert_from(mid, 0) == out,
        parted(pre, mid),
        parted(mid, post),
    ensures
        tables::tables(text::join(pre + mid + post, seq!['\n'])) == text::join(
            rendered(pre) + out + rendered(post),
            seq!['\n'],
        ),
{
    let sep = "\n"@;
    laws::lemma_line_feed();
    let all = pre + mid + post;
    assert forall|k: int| 0 <= k < all.len() implies messages::single(#[trigger] all[k]) by {
        if k < pre.len() {
            assert(all[k] == pre[k]);
        } else if k < pre.len() + mid.len() {
            assert(all[k] == mid[k - pre.len()]);
        } else {
            assert(all[k] == post[k - pre.len() - mid.len()]);
        }
    }
    messages::lemma_split_lines(all);
    assert((pre + mid).last() == mid.last());
    lemma_convert_apart(pre + mid, post, 0);
    lemma_convert_apart(pre, mid, 0);
    let a = tables::convert_from(pre, 0);
    let c = tables::convert_from(post, 0);
    assert(tables::tables(text::join(all, sep)) == text::join(a + out + c, sep));
    lemma_some(pre);
    lemma_some(post);
    reveal_with_fuel(text::join, 2);
    if post.len() > 0 {
        messages::lemma_split_lines(post);
        laws::lemma_join_runs(a + out, c, sep);
        laws::lemma_join_runs(rendered(pre) + out, rendered(post), sep);
    } else {
        assert(a + out + c == a + out);
        assert(rendered(pre) + out + rendered(post) == rendered(pre) + out);
    }
    if pre.len() > 0 {
        messages::lemma_split_lines(pre);
        laws::lemma_join_runs(a, out, sep);
        laws::lemma_join_runs(rendered(pre), out, sep);
    } else {
        assert(a + out == out);
        assert(rendered(pre) + out == out);
    }
}

/// Lines become lines.
proof fn lemma_some(ls: Seq<Seq<char>>)
    ensures
        ls.len() > 0 ==> tables::convert_from(ls, 0).len() > 0,
        ls.len() == 0 ==> tables::convert_from(ls, 0).len() == 0,
{
    if ls.len() > 0 && tables::table_row(ls[0]) {
        tables::lemma_run_end(ls, 0);
    }
}

/// A table of two or more rows, anywhere in a text, becomes a line with the cells
/// of its header in bold, and for each row of data behind it a bullet with its
/// cells, in order; rows of dashes are left out. What stands before and behind the
/// table is converted as if it stood alone.
pub proof fn law_tables_become_lists(
    pre: Seq<Seq<char>>,
    ahead: Seq<Row>,
    head: Row,
    rest: Seq<Row>,
    post: Seq<Seq<char>>,
)
    requires
        forall|k: int| 0 <= k < pre.len() ==> messages::single(#[trigger] pre[k]),
        pre.len() > 0 ==> !bar_first(pre.last()),
        forall|k: int| 0 <= k < ahead.len() ==> ruled(#[trigger] ahead[k]),
        worded(head),
        forall|k: int| 0 <= k < rest.len() ==> ruled(#[trigger] rest[k]) || worded(rest[k]),
        ahead.len() + rest.len() > 0,
        forall|k: int| 0 <= k < post.len() ==> messages::single(#[trigger] post[k]),
        post.len() > 0 ==> !bar_first(post[0]),
    ensures
        tables::tables(
            text::join(pre + rows_raw(ahead + seq![head] + rest) + post, seq!['\n']),
        ) == text::join(
            rendered(pre) + (seq![heading(head)] + items(rest)) + rendered(post),
            seq!['\n'],
        ),
{
    let all = ahead + seq![head] + rest;
    assert forall|k: int| 0 <= k < all.len() implies sound_row(#[trigger] all[k]) by {
        if k < ahead.len() {
            assert(ruled(ahead[k]));
        } else if k > ahead.len() {
            assert(ruled(rest[k - ahead.len() - 1]) || worded(rest[k - ahead.len() - 1]));
        }
    }
    lemma_rows_converted(all);
    lemma_table(ahead, head, rest);
    lemma_lines_between(pre, rows_raw(all), seq![heading(head)] + items(rest), post);
}

/// A single row, or rows of dashes alone, are no table: they are kept, without the
/// white space around them.
pub proof fn law_lone_rows_are_kept(pre: Seq<Seq<char>>, rs: Seq<Row>, post: Seq<Seq<char>>)
    requires
        forall|k: int| 0 <= k < pre.len() ==> messages::single(#[trigger] pre[k]),
        pre.len() > 0 ==> !bar_first(pre.last()),
        rs.len() > 0,
        forall|k: int| 0 <= k < rs.len() ==> sound_row(#[trigger] rs[k]),
        rs.len() == 1 || forall|k: int| 0 <= k < rs.len() ==> ruled(#[trigger] rs[k]),
        forall|k: int| 0 <= k < post.len() ==> messages::single(#[trigger] post[k]),
        post.len() > 0 ==> !bar_first(post[0]),
    ensures
        tables::tables(text::join(pre + rows_raw(rs) + post, seq!['\n'])) == text::join(
            rendered(pre) + Seq::new(rs.len(), |k: int| stem(rs[k])) + rendered(post),
            seq!['\n'],
        ),
{
    lemma_rows_converted(rs);
    if rs.len() > 1 {
        lemma_items(rs);
    }
    lemma_lines_between(pre, rows_raw(rs), stems(rs), post);
}

/// Lines that are no rows are kept.
pub proof fn law_other_lines_are_no_table(ls: Seq<Seq<char>>)
    requires
        ls.len() > 0,
        forall|k: int| 0 <= k < ls.len() ==> messages::single(#[trigger] ls[k]),
        forall|k: int| 0 <= k < ls.len() ==> !bar_first(#[trigger] ls[k]),
    ensures
        tables::tables(text::join(ls, seq!['\n'])) == text::join(ls, seq!['\n']),
{
    laws::lemma_line_feed();
    messages::lemma_split_lines(ls);
    assert forall|k: int| 0 <= k < ls.len() implies !tables::table_row(#[trigger] ls[k]) by {
        assert(!bar_first(ls[k]));
    }
    laws::lemma_no_tables(ls, 0);
    assert(ls.skip(0) == ls);
}

/// The row is not indented, and its cells hold text without markup.
pub open spec fn simple(r: Row) -> bool {
    &&& r.indent.len() == 0
    &&& forall|k: int| 0 <= k < r.cells.len() ==> simple_cell(#[trigger] r.cells[k])
    &&& forall|k: int| 0 <= k < r.trail.len() ==> #[trigger] r.trail[k] == ' '
}

/// The cell holds text without markup.
pub open spec fn simple_cell(c: Cell) -> bool {
    c matches Cell::Words(t) && forall|k: int|
        0 <= k < t.len() ==> constructs::plain_char(#[trigger] t[k])
}

/// No cell of the row holds a colon.
pub open spec fn no_colons(r: Row) -> bool {
    forall|k: int| 0 <= k < r.cells.len() ==> !(#[trigger] cell(r.cells[k])).contains(':')
}

/// The lines in Markdown.
pub open spec fn raws(ls: Seq<Line>) -> Seq<Seq<char>> {
    Seq::new(ls.len(), |k: int| pages::raw(ls[k]))
}

/// The lines in Slack's markup.
pub open spec fn dones(ls: Seq<Line>) -> Seq<Seq<char>> {
    Seq::new(ls.len(), |k: int| pages::done(ls[k]))
}

/// What holds of each character of the pieces and of what stands between them
/// holds of each character of the joined pieces.
proof fn lemma_joined_each(ps: Seq<Seq<char>>, sep: Seq<char>, p: spec_fn(char) -> bool)
    requires
        forall|i: int| 0 <= i < sep.len() ==> p(#[trigger] sep[i]),
        forall|k: int, i: int| 0 <= k < ps.len() && 0 <= i < ps[k].len() ==> p(#[trigger] ps[k][i]),
    ensures
        forall|i: int| 0 <= i < text::join(ps, sep).len() ==> p(#[trigger] text::join(ps, sep)[i]),
    decreases ps.len(),
{
    let x = text::join(ps, sep);
    if ps.len() > 1 {
        let before = ps.drop_last();
        assert forall|k: int, i: int| 0 <= k < before.len() && 0 <= i < before[k].len() implies p(
            #[trigger] before[k][i],
        ) by {
            assert(p(ps[k][i]));
        }
        lemma_joined_each(before, sep, p);
        let a = text::join(before, sep);
        let n = ps.len() - 1;
        assert forall|i: int| 0 <= i < x.len() implies p(#[trigger] x[i]) by {
            if i < a.len() {
                assert(x[i] == a[i]);
            } else if i < a.len() + sep.len() {
                assert(x[i] == sep[i - a.len()]);
            } else {
                assert(x[i] == ps[n][i - a.len() - sep.len()]);
            }
        }
    } else if ps.len() == 1 {
        assert forall|i: int| 0 <= i < x.len() implies p(#[trigger] x[i]) by {
            assert(x[i] == ps[0][i]);
        }
    }
}

/// Trimming leaves characters of the text.
proof fn lemma_trim_each(s: Seq<char>, p: spec_fn(char) -> bool)
    requires
        forall|i: int| 0 <= i < s.len() ==> p(#[trigger] s[i]),
    ensures
        forall|i: int| 0 <= i < text::trim(s).len() ==> p(#[trigger] text::trim(s)[i]),
{
    if words::blank(s) {
        words::law_trim_leaves_nothing_of_blanks(s);
    } else {
        let (a, m, b) = words::lemma_padded(s);
        words::law_trim_gives_what_is_padded(a, m, b);
        assert forall|i: int| 0 <= i < m.len() implies p(#[trigger] m[i]) by {
            assert(m[i] == s[a.len() + i]);
        }
    }
}

/// The pass on lines keeps a row of text without markup.
proof fn lemma_row_kept(r: Row)
    requires
        sound_row(r),
        simple(r),
    ensures
        document::plain_line(row(r)) == row(r),
        document::opening(row(r)) is None,
        messages::single(row(r)),
{
    let s = row(r);
    let p = |c: char| constructs::plain_char(c) || c == '|';
    lemma_row_trimmed(r);
    let all = between_bars(r.cells);
    assert forall|k: int, i: int| 0 <= k < all.len() && 0 <= i < all[k].len() implies p(
        #[trigger] all[k][i],
    ) by {
        assert(simple_cell(r.cells[k]));
    }
    lemma_joined_each(all, seq!['|'], p);
    let b = body(r);
    let t = r.trail;
    assert(s == if r.right > 0 {
        bars(r.left) + b + bars(r.right) + t
    } else {
        bars(r.left) + b
    });
    assert forall|i: int| 0 <= i < s.len() implies p(#[trigger] s[i]) by {
        if r.left <= i < r.left + b.len() {
            assert(s[i] == b[i - r.left]);
            assert(p(b[i - r.left]));
        } else if i >= r.left + b.len() + r.right {
            assert(s[i] == t[i - r.left - b.len() - r.right]);
        }
    }
    assert(s[0] == '|');
    pages::lemma_no_opening(s);
    pages::lemma_no_rule(s);
    pages::lemma_no_item(s);
    assert(!document::is_header(s));
    assert forall|i: int| 0 <= i < s.len() implies phrases::quiet(#[trigger] s[i]) by {
        assert(p(s[i]));
    }
    phrases::lemma_inline_quiet(s, 0, s.len() as int);
    assert(s.subrange(0, s.len() as int) == s);
    assert(spans::inline_from(s, s.len() as int) == Seq::<char>::empty());
}

/// The character can stand in a line of a converted table.
spec fn listed_char(c: char) -> bool {
    (constructs::plain_char(c) && c != ':') || c == '|' || c == '*'
}

/// The later passes keep a line without addresses and control characters.
proof fn lemma_listed(s: Seq<char>)
    requires
        s.len() > 0,
        s[0] == '*' || s[0] == '•',
        forall|i: int| 0 <= i < s.len() ==> listed_char(#[trigger] s[i]),
    ensures
        messages::single(s),
        !tables::table_row(s),
        !fences::opening_fence(s),
        entities::escape_line(urls::wrap_line(s)) == s,
{
    let n = s.len() as int;
    pages::lemma_no_opening(s);
    pages::lemma_no_row(s);
    assert forall|i: int| 0 <= i < n implies #[trigger] s[i] != '`' && s[i] != '<' && s[i] != '&'
        && s[i] != '>' && s[i] != '\n' && s[i] != ':' by {
        assert(listed_char(s[i]));
    }
    reveal_strlit("http://");
    reveal_strlit("https://");
    assert forall|k: int| #[trigger] constructs::no_address_at(s, k) by {
        if text::occurs_at(s, k, "http://"@) {
            assert(s.subrange(k, k + 7)[4] == s[k + 4]);
        }
        if text::occurs_at(s, k, "https://"@) {
            assert(s.subrange(k, k + 8)[5] == s[k + 5]);
        }
    }
    phrases::lemma_wrap_text(s, 0, n);
    constructs::lemma_escape_before(s, 0, n);
    assert(s.subrange(0, n) == s);
    assert(urls::wrap_from(s, n) == Seq::<char>::empty());
    assert(entities::escape_from(s, n) == Seq::<char>::empty());
}

/// The lines of a converted table stay as they are.
proof fn lemma_row_listed(r: Row)
    requires
        sound_row(r),
        simple(r),
        no_colons(r),
    ensures
        heading(r).len() > 0 && item(r).len() > 0,
        heading(r)[0] == '*' && item(r)[0] == '•',
        forall|i: int| 0 <= i < heading(r).len() ==> listed_char(#[trigger] heading(r)[i]),
        forall|i: int| 0 <= i < item(r).len() ==> listed_char(#[trigger] item(r)[i]),
{
    let p = |c: char| listed_char(c);
    let sep = seq![' ', '|', ' '];
    let plain = neat_cells(r.cells);
    let bold = Seq::new(r.cells.len(), |k: int| seq!['*'] + neat(r.cells[k]) + seq!['*']);
    assert forall|k: int, i: int| 0 <= k < plain.len() && 0 <= i < plain[k].len() implies p(
        #[trigger] plain[k][i],
    ) by {
        let t = cell(r.cells[k]);
        assert(simple_cell(r.cells[k]));
        assert(!cell(r.cells[k]).contains(':'));
        assert forall|j: int| 0 <= j < t.len() implies p(#[trigger] t[j]) by {
            assert(constructs::plain_char(t[j]));
            assert(t.contains(t[j]));
        }
        lemma_trim_each(t, p);
    }
    assert forall|k: int, i: int| 0 <= k < bold.len() && 0 <= i < bold[k].len() implies p(
        #[trigger] bold[k][i],
    ) by {
        if 1 <= i < bold[k].len() - 1 {
            assert(bold[k][i] == plain[k][i - 1]);
        }
    }
    lemma_joined_each(plain, sep, p);
    lemma_joined_each(bold, sep, p);
    lemma_joined_first(bold, sep);
    let x = text::join(plain, sep);
    assert forall|i: int| 0 <= i < item(r).len() implies listed_char(#[trigger] item(r)[i]) by {
        if i >= 2 {
            assert(item(r)[i] == x[i - 2]);
            assert(p(x[i - 2]));
        }
    }
    assert forall|i: int| 0 <= i < heading(r).len() implies listed_char(
        #[trigger] heading(r)[i],
    ) by {
        assert(p(heading(r)[i]));
    }
}

/// Joined pieces begin with the first of them.
proof fn lemma_joined_first(ps: Seq<Seq<char>>, sep: Seq<char>)
    requires
        ps.len() > 0,
        ps[0].len() > 0,
    ensures
        text::join(ps, sep).len() > 0,
        text::join(ps, sep)[0] == ps[0][0],
    decreases ps.len(),
{
    if ps.len() > 1 {
        lemma_joined_first(ps.drop_last(), sep);
        assert(ps.drop_last()[0] == ps[0]);
    }
}

/// The lines that rows of data become stay as they are.
proof fn lemma_items_listed(rs: Seq<Row>)
    requires
        forall|k: int| 0 <= k < rs.len() ==> ruled(#[trigger] rs[k]) || worded(rs[k]),
        forall|k: int| 0 <= k < rs.len() ==> simple(#[trigger] rs[k]),
        forall|k: int| 0 <= k < rs.len() ==> ruled(#[trigger] rs[k]) || no_colons(rs[k]),
    ensures
        forall|k: int| 0 <= k < items(rs).len() ==> kept_later(#[trigger] items(rs)[k]),
    decreases rs.len(),
{
    if rs.len() > 0 {
        let before = rs.drop_last();
        let last = rs[rs.len() - 1];
        assert(ruled(last) || worded(last));
        assert(simple(last));
        assert(ruled(last) || no_colons(last));
        assert forall|k: int| 0 <= k < before.len() implies (ruled(#[trigger] before[k]) || worded(
            before[k],
        )) && simple(before[k]) && (ruled(before[k]) || no_colons(before[k])) by {
            assert(before[k] == rs[k]);
            assert(ruled(rs[k]) || worded(rs[k]));
            assert(simple(rs[k]));
        }
        lemma_items_listed(before);
        if !ruled(last) {
            lemma_row_listed(last);
            lemma_listed(item(last));
            assert(kept_later(item(last)));
            let fewer = items(before);
            assert forall|k: int| 0 <= k < items(rs).len() implies kept_later(
                #[trigger] items(rs)[k],
            ) by {
                if k < fewer.len() {
                    assert(items(rs)[k] == fewer[k]);
                }
            }
        }
    }
}

/// The passes on whole texts keep the line.
spec fn kept_later(s: Seq<char>) -> bool {
    &&& s.len() > 0
    &&& messages::single(s)
    &&& !tables::table_row(s)
    &&& !fences::opening_fence(s)
    &&& entities::escape_line(urls::wrap_line(s)) == s
}

/// Lines outside of code blocks are finished together.
proof fn lemma_no_code(ls: Seq<Seq<char>>, k: int)
    requires
        forall|j: int| 0 <= j < ls.len() ==> document::opening(#[trigger] ls[j]) is None,
        0 <= k <= ls.len(),
    ensures
        document::block(ls, k) is None,
    decreases k,
{
    if k > 0 {
        lemma_no_code(ls, k - 1);
        assert(document::opening(ls[k - 1]) is None);
    }
}

/// The run of lines outside of code blocks goes to the end of the lines.
proof fn lemma_all_plain(ps: Seq<document::Piece>, i: int)
    requires
        0 <= i <= ps.len(),
        forall|k: int| 0 <= k < ps.len() ==> !(#[trigger] ps[k]).code,
    ensures
        document::plain_end(ps, i) == ps.len(),
    decreases ps.len() - i,
{
    if i < ps.len() {
        assert(!ps[i].code);
        lemma_all_plain(ps, i + 1);
    }
}

/// A message without code blocks, whose lines become the given ones.
pub proof fn lemma_plain_message(ls: Seq<Seq<char>>, mid: Seq<Seq<char>>)
    requires
        ls.len() > 0,
        text::join(ls, "\n"@).len() > 0,
        mid.len() == ls.len(),
        forall|k: int| 0 <= k < ls.len() ==> messages::single(#[trigger] ls[k]),
        forall|k: int| 0 <= k < ls.len() ==> document::opening(#[trigger] ls[k]) is None,
        forall|k: int| 0 <= k < ls.len() ==> document::plain_line(#[trigger] ls[k]) == mid[k],
    ensures
        document::mrkdwn(text::join(ls, "\n"@)) == document::trim_end_newlines(
            document::polish(mid),
        ),
{
    messages::lemma_split_lines(ls);
    let ps = document::convert_lines(ls);
    assert forall|k: int| 0 <= k < ps.len() implies !(#[trigger] ps[k]).code && ps[k].chars
        == mid[k] by {
        lemma_no_code(ls, k);
        assert(document::opening(ls[k]) is None);
        assert(document::plain_line(ls[k]) == mid[k]);
    }
    let n = ps.len() as int;
    lemma_all_plain(ps, 0);
    assert(!ps[0].code);
    assert(ps.subrange(0, n) == ps);
    assert(document::chars_in(ps) == mid);
    assert(document::parts_from(ps, n) == Seq::<Seq<char>>::empty());
    assert(document::parts_from(ps, 0) == seq![document::polish(mid)]);
    reveal_with_fuel(text::join, 2);
}

/// A table in a message becomes a list, as in any text: the cells of its header in
/// bold, and a bullet with the cells of each row of data. The lines before and
/// behind it become what they are in Slack's markup.
#[verifier::rlimit(30)]
pub proof fn law_messages_have_their_tables_converted(
    pre: Seq<Line>,
    ahead: Seq<Row>,
    head: Row,
    rest: Seq<Row>,
    post: Seq<Line>,
)
    requires
        forall|k: int| 0 <= k < pre.len() ==> pages::proper(#[trigger] pre[k]),
        forall|k: int| 0 <= k < ahead.len() ==> ruled(#[trigger] ahead[k]) && simple(ahead[k]),
        worded(head) && simple(head) && no_colons(head),
        forall|k: int| 0 <= k < rest.len() ==> ruled(#[trigger] rest[k]) || worded(rest[k]),
        forall|k: int| 0 <= k < rest.len() ==> simple(#[trigger] rest[k]),
        forall|k: int| 0 <= k < rest.len() ==> ruled(#[trigger] rest[k]) || no_colons(rest[k]),
        ahead.len() + rest.len() > 0,
        forall|k: int| 0 <= k < post.len() ==> pages::proper(#[trigger] post[k]),
        post.len() > 0 ==> post.last() != Line::Empty,
    ensures
        (forall|k: int| 0 <= k < pre.len() ==> pages::spaced(#[trigger] pre[k])) && (forall|k: int|
            0 <= k < post.len() ==> pages::spaced(#[trigger] post[k])) ==> document::mrkdwn(
            text::join(
                raws(pre) + rows_raw(ahead + seq![head] + rest) + raws(post),
                seq!['\n'],
            ),
        ) == text::join(
            dones(pre) + (seq![heading(head)] + items(rest)) + dones(post),
            seq!['\n'],
        ),
{
    if (forall|k: int| 0 <= k < pre.len() ==> pages::spaced(#[trigger] pre[k])) && (forall|k: int|
        0 <= k < post.len() ==> pages::spaced(#[trigger] post[k])) {
        let sep = "\n"@;
        laws::lemma_line_feed();
        let all = ahead + seq![head] + rest;
        let a = raws(pre);
        let c = raws(post);
        let rows = rows_raw(all);
        let ls = a + rows + c;
        let mid_pre = Seq::new(pre.len(), |k: int| document::plain_line(pages::raw(pre[k])));
        let mid_post = Seq::new(post.len(), |k: int| document::plain_line(pages::raw(post[k])));
        let mid = mid_pre + rows + mid_post;
        let own = seq![heading(head)] + items(rest);
        lemma_page_lines(pre, mid_pre);
        lemma_page_lines(post, mid_post);
        lemma_rows_kept(ahead, head, rest);
        assert forall|k: int| 0 <= k < ls.len() implies messages::single(#[trigger] ls[k])
            && document::opening(ls[k]) is None && document::plain_line(ls[k]) == mid[k] by {
            if k < a.len() {
                assert(ls[k] == a[k] && mid[k] == mid_pre[k]);
                assert(becomes_through(a[k], mid_pre[k], dones(pre)[k]));
            } else if k < a.len() + rows.len() {
                assert(ls[k] == rows[k - a.len()] && mid[k] == rows[k - a.len()]);
            } else {
                let j = k - a.len() - rows.len();
                assert(ls[k] == c[j] && mid[k] == mid_post[j]);
                assert(becomes_through(c[j], mid_post[j], dones(post)[j]));
            }
        }
        assert(rows[ahead.len() as int] == row(head));
        assert(ls[(a.len() + ahead.len()) as int].len() > 0) by {
            assert(ls[(a.len() + ahead.len()) as int] == row(head));
        }
        lemma_joined_some(ls, sep, (a.len() + ahead.len()) as int);
        lemma_plain_message(ls, mid);
        assert forall|k: int| 0 <= k < mid_pre.len() implies messages::single(#[trigger] mid_pre[k])
            && !bar_first(mid_pre[k]) by {
            assert(becomes_through(a[k], mid_pre[k], dones(pre)[k]));
        }
        assert forall|k: int| 0 <= k < mid_post.len() implies messages::single(
            #[trigger] mid_post[k],
        ) && !bar_first(mid_post[k]) by {
            assert(becomes_through(c[k], mid_post[k], dones(post)[k]));
        }
        law_tables_become_lists(mid_pre, ahead, head, rest, mid_post);
        let flat = mid_pre + own + mid_post;
        lemma_rendered(mid_pre, own, mid_post);
        lemma_row_listed(head);
        lemma_listed(heading(head));
        lemma_items_listed(rest);
        assert forall|k: int| 0 <= k < own.len() implies kept_later(#[trigger] own[k]) by {
            if k > 0 {
                assert(own[k] == items(rest)[k - 1]);
                assert(kept_later(items(rest)[k - 1]));
            }
        }
        lemma_finished(pre, mid_pre, own, post, mid_post);
        lemma_good_end(pre, own, post);
    }
}

/// What becomes of the lines of a page by itself, with what they are in between.
spec fn becomes_through(line: Seq<char>, mid: Seq<char>, out: Seq<char>) -> bool {
    document::plain_line(line) == mid && pages::becomes(line, out)
}

proof fn lemma_page_lines(ls: Seq<Line>, mid: Seq<Seq<char>>)
    requires
        forall|k: int| 0 <= k < ls.len() ==> pages::proper(#[trigger] ls[k]),
        forall|k: int| 0 <= k < ls.len() ==> pages::spaced(#[trigger] ls[k]),
        mid == Seq::new(ls.len(), |k: int| document::plain_line(pages::raw(ls[k]))),
    ensures
        forall|k: int|
            0 <= k < ls.len() ==> #[trigger] becomes_through(raws(ls)[k], mid[k], dones(ls)[k]),
{
    assert forall|k: int| 0 <= k < ls.len() implies #[trigger] becomes_through(
        raws(ls)[k],
        mid[k],
        dones(ls)[k],
    ) by {
        assert(pages::proper(ls[k]));
        assert(pages::spaced(ls[k]));
        pages::lemma_line(ls[k]);
    }
}

proof fn lemma_rows_kept(ahead: Seq<Row>, head: Row, rest: Seq<Row>)
    requires
        forall|k: int| 0 <= k < ahead.len() ==> ruled(#[trigger] ahead[k]) && simple(ahead[k]),
        worded(head) && simple(head),
        forall|k: int| 0 <= k < rest.len() ==> ruled(#[trigger] rest[k]) || worded(rest[k]),
        forall|k: int| 0 <= k < rest.len() ==> simple(#[trigger] rest[k]),
    ensures
        ({
            let rows = rows_raw(ahead + seq![head] + rest);
            forall|k: int|
                0 <= k < rows.len() ==> document::plain_line(#[trigger] rows[k]) == rows[k]
                    && document::opening(rows[k]) is None && messages::single(rows[k])
        }),
        row(head).len() > 0,
{
    let all = ahead + seq![head] + rest;
    let rows = rows_raw(all);
    assert forall|k: int| 0 <= k < rows.len() implies document::plain_line(#[trigger] rows[k])
        == rows[k] && document::opening(rows[k]) is None && messages::single(rows[k]) by {
        if k < ahead.len() {
            assert(all[k] == ahead[k]);
            assert(ruled(ahead[k]) && simple(ahead[k]));
        } else if k > ahead.len() {
            let j = k - ahead.len() - 1;
            assert(all[k] == rest[j]);
            assert(ruled(rest[j]) || worded(rest[j]));
            assert(simple(rest[j]));
        } else {
            assert(all[k] == head);
        }
        lemma_row_kept(all[k]);
    }
}

/// Joined pieces of which one is not empty are not empty.
proof fn lemma_joined_some(ps: Seq<Seq<char>>, sep: Seq<char>, k: int)
    requires
        0 <= k < ps.len(),
        ps[k].len() > 0,
    ensures
        text::join(ps, sep).len() > 0,
    decreases ps.len(),
{
    if ps.len() > 1 {
        if k < ps.len() - 1 {
            assert(ps.drop_last()[k] == ps[k]);
            lemma_joined_some(ps.drop_last(), sep, k);
        }
    }
}

/// Lines without rows are the text that they make.
proof fn lemma_rendered(a: Seq<Seq<char>>, own: Seq<Seq<char>>, c: Seq<Seq<char>>)
    requires
        own.len() > 0,
        forall|k: int| 0 <= k < a.len() ==> messages::single(#[trigger] a[k]) && !bar_first(a[k]),
        forall|k: int| 0 <= k < c.len() ==> messages::single(#[trigger] c[k]) && !bar_first(c[k]),
    ensures
        text::join(rendered(a) + own + rendered(c), "\n"@) == text::join(a + own + c, "\n"@),
{
    let sep = "\n"@;
    laws::lemma_line_feed();
    reveal_with_fuel(text::join, 2);
    if c.len() > 0 {
        law_other_lines_are_no_table(c);
        laws::lemma_join_runs(a + own, c, sep);
        laws::lemma_join_runs(rendered(a) + own, rendered(c), sep);
    } else {
        assert(a + own + c == a + own);
        assert(rendered(a) + own + rendered(c) == rendered(a) + own);
    }
    if a.len() > 0 {
        law_other_lines_are_no_table(a);
        laws::lemma_join_runs(a, own, sep);
        laws::lemma_join_runs(rendered(a), own, sep);
    } else {
        assert(a + own == own);
        assert(rendered(a) + own == own);
    }
}

/// Lines around those of a converted table are finished one by one.
proof fn lemma_finished(
    pre: Seq<Line>,
    mid_pre: Seq<Seq<char>>,
    own: Seq<Seq<char>>,
    post: Seq<Line>,
    mid_post: Seq<Seq<char>>,
)
    requires
        own.len() > 0,
        mid_pre.len() == pre.len() && mid_post.len() == post.len(),
        forall|k: int|
            0 <= k < pre.len() ==> #[trigger] becomes_through(
                raws(pre)[k],
                mid_pre[k],
                dones(pre)[k],
            ),
        forall|k: int|
            0 <= k < post.len() ==> #[trigger] becomes_through(
                raws(post)[k],
                mid_post[k],
                dones(post)[k],
            ),
        forall|k: int| 0 <= k < own.len() ==> kept_later(#[trigger] own[k]),
    ensures
        entities::escape_entities(
            urls::wrap_urls(text::join(mid_pre + own + mid_post, "\n"@)),
        ) == text::join(dones(pre) + own + dones(post), "\n"@),
{
    let flat = mid_pre + own + mid_post;
    let out = dones(pre) + own + dones(post);
    let fin = Seq::new(flat.len(), |k: int| entities::escape_line(urls::wrap_line(flat[k])));
    assert forall|k: int| 0 <= k < flat.len() implies messages::single(#[trigger] flat[k])
        && !tables::table_row(flat[k]) && !fences::opening_fence(flat[k]) && fin[k] == out[k] by {
        if k < mid_pre.len() {
            assert(flat[k] == mid_pre[k]);
            assert(becomes_through(raws(pre)[k], mid_pre[k], dones(pre)[k]));
        } else if k < mid_pre.len() + own.len() {
            assert(flat[k] == own[k - mid_pre.len()]);
            assert(kept_later(own[k - mid_pre.len()]));
        } else {
            let j = k - mid_pre.len() - own.len();
            assert(flat[k] == mid_post[j]);
            assert(becomes_through(raws(post)[j], mid_post[j], dones(post)[j]));
        }
    }
    messages::lemma_polish(flat);
    assert(fin == out);
    messages::lemma_split_lines(flat);
    laws::lemma_no_tables(flat, 0);
    assert(flat.skip(0) == flat);
}

/// A message that ends with a line that is not empty ends with no line feed.
proof fn lemma_good_end(pre: Seq<Line>, own: Seq<Seq<char>>, post: Seq<Line>)
    requires
        own.len() > 0,
        forall|k: int| 0 <= k < own.len() ==> kept_later(#[trigger] own[k]),
        forall|k: int| 0 <= k < post.len() ==> pages::proper(#[trigger] post[k]),
        post.len() > 0 ==> post.last() != Line::Empty,
    ensures
        ({
            let x = text::join(dones(pre) + own + dones(post), "\n"@);
            document::trim_end_newlines(x) == x
        }),
{
    let out = dones(pre) + own + dones(post);
    let x = text::join(out, "\n"@);
    if post.len() > 0 {
        let b = pages::Block::Plain(post.last());
        assert(pages::proper(post[post.len() - 1]));
        pages::lemma_done_not_empty(b);
        pages::lemma_done_single(b);
        assert(pages::done_lines(b).last() == pages::done(post.last()));
        assert(out.last() == pages::done(post.last()));
    } else {
        assert(out.last() == own[own.len() - 1]);
        assert(kept_later(own[own.len() - 1]));
    }
    assert(out.last().len() > 0 && messages::single(out.last()));
    assert(x.last() == out.last().last());
    assert(out.last()[out.last().len() - 1] != '\n');
}

} // verus!
