//! Markdown tables.

use vstd::prelude::*;
use crate::mrkdwn::spans;
use crate::text;

verus! {

/// The line is a row of a table: after white space it begins with a bar.
pub open spec fn table_row(line: Seq<char>) -> bool {
    let t = text::trim(line);
    t.len() > 0 && t[0] == '|'
}

/// The text without the bars at its start.
pub open spec fn trim_start_bars(s: Seq<char>) -> Seq<char>
    decreases s.len(),
{
    if s.len() > 0 && s[0] == '|' {
        trim_start_bars(s.skip(1))
    } else {
        s
    }
}

/// The text without the bars at its end.
pub open spec fn trim_end_bars(s: Seq<char>) -> Seq<char>
    decreases s.len(),
{
    if s.len() > 0 && s[s.len() - 1] == '|' {
        trim_end_bars(s.take(s.len() - 1))
    } else {
        s
    }
}

/// The first bar at or after `i` that stands outside of inline code, or the end
/// of the row.
pub open spec fn next_bar(s: Seq<char>, i: int) -> int
    decreases s.len() - i,
{
    if i < 0 || i >= s.len() {
        s.len() as int
    } else if s[i] == '`' {
        proof {
            spans::lemma_code_span(s, i);
        }
        next_bar(s, spans::ticks_end(s, i))
    } else if s[i] == '|' {
        i
    } else {
        next_bar(s, i + 1)
    }
}

/// A bar stands within the row.
pub proof fn lemma_next_bar(s: Seq<char>, i: int)
    requires
        0 <= i <= s.len(),
    ensures
        i <= next_bar(s, i) <= s.len(),
    decreases s.len() - i,
{
    if i < s.len() {
        if s[i] == '`' {
            spans::lemma_code_span(s, i);
            lemma_next_bar(s, spans::ticks_end(s, i));
        } else if s[i] != '|' {
            lemma_next_bar(s, i + 1);
        }
    }
}

/// The pieces from `i` on between the bars outside of inline code.
pub open spec fn split_from(s: Seq<char>, i: int) -> Seq<Seq<char>>
    decreases s.len() - i,
{
    if 0 <= i <= s.len() && next_bar(s, i) < s.len() {
        proof {
            lemma_next_bar(s, i);
        }
        seq![s.subrange(i, next_bar(s, i))] + split_from(s, next_bar(s, i) + 1)
    } else {
        seq![s.skip(i)]
    }
}

/// The raw cells of a row: what stands between its bars. A bar in inline code
/// does not end a cell.
pub open spec fn raw_cells(row: Seq<char>) -> Seq<Seq<char>> {
    split_from(trim_end_bars(trim_start_bars(text::trim(row))), 0)
}

/// The cells of a row, without white space around them.
pub open spec fn cells(row: Seq<char>) -> Seq<Seq<char>> {
    raw_cells(row).map_values(|c: Seq<char>| text::trim(c))
}

/// The cell is made of dashes, colons and inner spaces only.
pub open spec fn dash_cell(cell: Seq<char>) -> bool {
    let t = text::trim(cell);
    t.len() > 0 && forall|i: int|
        0 <= i < t.len() ==> #[trigger] t[i] == '-' || t[i] == ':' || t[i] == ' '
}

/// The row separates the header from the data: all of its cells are dashes.
pub open spec fn separator(row: Seq<char>) -> bool {
    forall|i: int| 0 <= i < raw_cells(row).len() ==> dash_cell(#[trigger] raw_cells(row)[i])
}

/// The header line of a table: each cell in bold.
pub open spec fn header_line(row: Seq<char>) -> Seq<char> {
    text::join(
        cells(row).map_values(|c: Seq<char>| seq!['*'] + c + seq!['*']),
        " | "@,
    )
}

/// The line of a data row: a bullet and the cells.
pub open spec fn data_line(row: Seq<char>) -> Seq<char> {
    "• "@ + text::join(cells(row), " | "@)
}

/// The rows that are not separators.
pub open spec fn content_rows(rows: Seq<Seq<char>>) -> Seq<Seq<char>> {
    rows.filter(|r: Seq<char>| !separator(r))
}

/// The lines that the rows of one table become. A table has at least two
/// rows and at least one that is not a separator; other rows are kept.
pub open spec fn table_lines(rows: Seq<Seq<char>>) -> Seq<Seq<char>> {
    let content = content_rows(rows);
    if rows.len() < 2 || content.len() == 0 {
        rows
    } else {
        seq![header_line(content[0])] + content.skip(1).map_values(|r: Seq<char>| data_line(r))
    }
}

/// The end of the run of table rows that begins at `i`.
pub open spec fn run_end(lines: Seq<Seq<char>>, i: int) -> int
    decreases lines.len() - i,
{
    if i < 0 || i >= lines.len() || !table_row(lines[i]) {
        i
    } else {
        run_end(lines, i + 1)
    }
}

/// The rows of the run that begins at `i`, without white space around them.
pub open spec fn run_rows(lines: Seq<Seq<char>>, i: int) -> Seq<Seq<char>> {
    lines.subrange(i, run_end(lines, i)).map_values(|l: Seq<char>| text::trim(l))
}

/// The lines from `i` on with their tables converted.
pub open spec fn convert_from(lines: Seq<Seq<char>>, i: int) -> Seq<Seq<char>>
    decreases lines.len() - i,
{
    if i < 0 || i >= lines.len() {
        Seq::empty()
    } else if !table_row(lines[i]) {
        seq![lines[i]] + convert_from(lines, i + 1)
    } else {
        proof {
            lemma_run_end(lines, i);
        }
        table_lines(run_rows(lines, i)) + convert_from(lines, run_end(lines, i))
    }
}

/// The text with its tables converted to lists.
pub open spec fn tables(s: Seq<char>) -> Seq<char> {
    text::join(convert_from(text::split(s, '\n'), 0), "\n"@)
}

/// A run of table rows is not empty and lies within the lines.
pub proof fn lemma_run_end(lines: Seq<Seq<char>>, i: int)
    requires
        0 <= i <= lines.len(),
    ensures
        i <= run_end(lines, i) <= lines.len(),
        i < lines.len() && table_row(lines[i]) ==> i < run_end(lines, i),
    decreases lines.len() - i,
{
    if i < lines.len() && table_row(lines[i]) {
        lemma_run_end(lines, i + 1);
    }
}

/// Whether the line is a row of a table.
fn is_table_row(line: &[char]) -> (r: bool)
    ensures
        r == table_row(line@),
{
    let t = text::trim_of(line);
    t.len() > 0 && t[0] == '|'
}

/// The slice without the bars at its two ends.
fn trim_bars(s: &[char]) -> (r: &[char])
    ensures
        r@ == trim_end_bars(trim_start_bars(s@)),
{
    let mut i: usize = 0;
    proof {
        assert(s@.skip(0) == s@);
    }
    while i < s.len() && s[i] == '|'
        invariant
            i <= s.len(),
            trim_start_bars(s@.skip(i as int)) == trim_start_bars(s@),
        decreases s.len() - i,
    {
        proof {
            assert(s@.skip(i as int).skip(1) == s@.skip(i + 1));
        }
        i += 1;
    }
    let t = vstd::slice::slice_subrange(s, i, s.len());
    let mut n: usize = t.len();
    proof {
        assert(t@.take(n as int) == t@);
    }
    while n > 0 && t[n - 1] == '|'
        invariant
            n <= t.len(),
            trim_end_bars(t@.take(n as int)) == trim_end_bars(t@),
        decreases n,
    {
        proof {
            assert(t@.take(n as int).take(n - 1) == t@.take(n - 1));
        }
        n -= 1;
    }
    vstd::slice::slice_subrange(t, 0, n)
}

/// The raw cells of a row.
fn raw_cells_of(row: &[char]) -> (r: Vec<Vec<char>>)
    ensures
        text::texts(r@) == raw_cells(row@),
{
    let s = trim_bars(text::trim_of(row));
    let n: usize = s.len();
    let mut out: Vec<Vec<char>> = Vec::new();
    let mut start: usize = 0;
    proof {
        assert(text::texts(out@) + split_from(s@, 0) == split_from(s@, 0));
    }
    loop
        invariant
            n == s@.len(),
            start <= n,
            text::texts(out@) + split_from(s@, start as int) == split_from(s@, 0),
            split_from(s@, 0) == raw_cells(row@),
        decreases n - start,
    {
        let bar: usize = find_bar(s, start);
        let ghost before = text::texts(out@);
        let piece = vstd::slice::slice_to_vec(vstd::slice::slice_subrange(s, start, bar));
        let ghost t = piece@;
        out.push(piece);
        proof {
            assert(text::texts(out@) == before.push(t));
            if bar == n {
                assert(s@.subrange(start as int, n as int) == s@.skip(start as int));
                assert(before + seq![t] == before.push(t));
            } else {
                assert(before + split_from(s@, start as int) == text::texts(out@) + split_from(
                    s@,
                    bar + 1,
                ));
            }
        }
        if bar == n {
            return out;
        }
        start = bar + 1;
    }
}

/// Finds the first bar at or after `i` that stands outside of inline code.
fn find_bar(s: &[char], i: usize) -> (r: usize)
    requires
        i <= s@.len(),
    ensures
        r == next_bar(s@, i as int),
        i <= r <= s@.len(),
{
    proof {
        lemma_next_bar(s@, i as int);
    }
    let mut k: usize = i;
    while k < s.len()
        invariant
            i <= k <= s.len(),
            i <= next_bar(s@, i as int) <= s.len(),
            next_bar(s@, k as int) == next_bar(s@, i as int),
        decreases s.len() - k,
    {
        if s[k] == '`' {
            k = spans::find_ticks_end(s, k);
        } else if s[k] == '|' {
            return k;
        } else {
            k += 1;
        }
    }
    k
}

/// Whether the cell is made of dashes, colons and inner spaces only.
fn is_dash_cell(cell: &[char]) -> (r: bool)
    ensures
        r == dash_cell(cell@),
{
    let t = text::trim_of(cell);
    if t.len() == 0 {
        return false;
    }
    let mut i: usize = 0;
    while i < t.len()
        invariant
            i <= t.len(),
            t@ == text::trim(cell@),
            forall|j: int|
                0 <= j < i ==> #[trigger] t@[j] == '-' || t@[j] == ':' || t@[j] == ' ',
        decreases t.len() - i,
    {
        if !(t[i] == '-' || t[i] == ':' || t[i] == ' ') {
            return false;
        }
        i += 1;
    }
    true
}

/// Whether the row separates the header from the data.
fn is_separator(row: &[char]) -> (r: bool)
    ensures
        r == separator(row@),
{
    let raw = raw_cells_of(row);
    let mut i: usize = 0;
    while i < raw.len()
        invariant
            i <= raw.len(),
            text::texts(raw@) == raw_cells(row@),
            forall|j: int| 0 <= j < i ==> dash_cell(#[trigger] raw_cells(row@)[j]),
        decreases raw.len() - i,
    {
        proof {
            assert(raw@[i as int]@ == raw_cells(row@)[i as int]);
        }
        if !is_dash_cell(raw[i].as_slice()) {
            return false;
        }
        i += 1;
    }
    true
}

/// The cells of a row, each between the two given marks.
fn marked_cells(row: &[char], mark: &str) -> (r: Vec<Vec<char>>)
    ensures
        text::texts(r@) == cells(row@).map_values(|c: Seq<char>| mark@ + c + mark@),
{
    let raw = raw_cells_of(row);
    let mut out: Vec<Vec<char>> = Vec::new();
    let mut i: usize = 0;
    let ghost all = cells(row@).map_values(|c: Seq<char>| mark@ + c + mark@);
    while i < raw.len()
        invariant
            i <= raw.len(),
            text::texts(raw@) == raw_cells(row@),
            all == cells(row@).map_values(|c: Seq<char>| mark@ + c + mark@),
            text::texts(out@) == all.take(i as int),
        decreases raw.len() - i,
    {
        let ghost before = text::texts(out@);
        let mut cell: Vec<char> = Vec::new();
        text::extend_str(&mut cell, mark);
        text::extend(&mut cell, text::trim_of(raw[i].as_slice()));
        text::extend_str(&mut cell, mark);
        out.push(cell);
        proof {
            assert(raw@[i as int]@ == raw_cells(row@)[i as int]);
            assert(text::texts(out@) == before.push(cell@));
            assert(all.take(i + 1) == all.take(i as int).push(all[i as int]));
            assert(cell@ == all[i as int]);
        }
        i += 1;
    }
    proof {
        assert(all.take(i as int) == all);
    }
    out
}

/// Appends the lines that the rows of one table become.
fn push_table(out: &mut Vec<Vec<char>>, rows: &Vec<Vec<char>>)
    ensures
        text::texts(final(out)@) == text::texts(old(out)@) + table_lines(text::texts(rows@)),
{
    let ghost view = text::texts(rows@);
    let ghost keep = |r: Seq<char>| !separator(r);
    let mut content: Vec<Vec<char>> = Vec::new();
    let mut i: usize = 0;
    while i < rows.len()
        invariant
            i <= rows.len(),
            view == text::texts(rows@),
            keep == (|r: Seq<char>| !separator(r)),
            text::texts(content@) == view.take(i as int).filter(keep),
        decreases rows.len() - i,
    {
        let ghost before = text::texts(content@);
        proof {
            assert(view.take(i + 1).drop_last() == view.take(i as int));
            assert(rows@[i as int]@ == view[i as int]);
            reveal(Seq::filter);
        }
        if !is_separator(rows[i].as_slice()) {
            let row = vstd::slice::slice_to_vec(rows[i].as_slice());
            content.push(row);
            proof {
                assert(text::texts(content@) == before.push(row@));
            }
        }
        i += 1;
    }
    proof {
        assert(view.take(i as int) == view);
        assert(text::texts(content@) == content_rows(view));
    }
    if rows.len() < 2 || content.len() == 0 {
        let mut k: usize = 0;
        while k < rows.len()
            invariant
                k <= rows.len(),
                view == text::texts(rows@),
                text::texts(out@) == text::texts(old(out)@) + view.take(k as int),
            decreases rows.len() - k,
        {
            let ghost before = text::texts(out@);
            let row = vstd::slice::slice_to_vec(rows[k].as_slice());
            out.push(row);
            proof {
                assert(text::texts(out@) == before.push(row@));
                assert(view.take(k + 1) == view.take(k as int).push(view[k as int]));
            }
            k += 1;
        }
        proof {
            assert(view.take(k as int) == view);
        }
        return;
    }
    let ghost lines = table_lines(view);
    let first = content[0].as_slice();
    let marked = marked_cells(first, "*");
    let header = text::join_with(&marked, " | ");
    out.push(header);
    proof {
        reveal_strlit("*");
        assert("*"@ == seq!['*']);
        assert(first@ == content_rows(view)[0]);
        assert(header@ == header_line(first@)) by {
            assert(cells(first@).map_values(|c: Seq<char>| "*"@ + c + "*"@) == cells(
                first@,
            ).map_values(|c: Seq<char>| seq!['*'] + c + seq!['*']));
        }
        assert(text::texts(out@) == text::texts(old(out)@) + lines.take(1));
    }
    let mut k: usize = 1;
    while k < content.len()
        invariant
            1 <= k <= content.len(),
            text::texts(content@) == content_rows(view),
            view.len() >= 2,
            lines == table_lines(view),
            text::texts(out@) == text::texts(old(out)@) + lines.take(k as int),
        decreases content.len() - k,
    {
        let ghost before = text::texts(out@);
        let plain = marked_cells(content[k].as_slice(), "");
        let joined = text::join_with(&plain, " | ");
        let mut line: Vec<char> = text::chars_of("• ");
        text::extend(&mut line, joined.as_slice());
        out.push(line);
        proof {
            reveal_strlit("");
            let row = content@[k as int]@;
            assert(row == content_rows(view)[k as int]);
            assert(cells(row).map_values(|c: Seq<char>| ""@ + c + ""@) == cells(row));
            assert(line@ == data_line(row));
            assert(lines[k as int] == data_line(row));
            assert(text::texts(out@) == before.push(line@));
            assert(lines.take(k + 1) == lines.take(k as int).push(lines[k as int]));
        }
        k += 1;
    }
    proof {
        assert(lines.take(k as int) == lines);
    }
}

/// Converts Markdown tables to Slack-friendly bullet-point lists.
///
/// ```text
/// | Name  | Age | Role |
/// |-------|-----|------|
/// | Alice | 30  | Eng  |
/// ```
///
/// becomes
///
/// ```text
/// *Name* | *Age* | *Role*
/// • Alice | 30 | Eng
/// ```
pub fn convert_tables(s: &str) -> (r: String)
    ensures
        r@ == tables(s@),
{
    let chars = text::chars_of(s);
    let lines = text::split_on(chars.as_slice(), '\n');
    let ghost view = text::texts(lines@);
    let mut result: Vec<Vec<char>> = Vec::new();
    let mut i: usize = 0;
    while i < lines.len()
        invariant
            i <= lines.len(),
            view == text::texts(lines@),
            text::texts(result@) + convert_from(view, i as int) == convert_from(view, 0),
        decreases lines.len() - i,
    {
        let ghost start = i as int;
        let ghost before = text::texts(result@);
        let line = lines[i].as_slice();
        proof {
            assert(line@ == view[i as int]);
            lemma_run_end(view, start);
        }
        if !is_table_row(line) {
            let kept = vstd::slice::slice_to_vec(line);
            result.push(kept);
            i += 1;
            proof {
                assert(text::texts(result@) == before.push(kept@));
            }
        } else {
            let mut rows: Vec<Vec<char>> = Vec::new();
            while i < lines.len() && is_table_row(lines[i].as_slice())
                invariant
                    0 <= start <= i <= lines.len(),
                    view == text::texts(lines@),
                    run_end(view, i as int) == run_end(view, start),
                    text::texts(rows@) == view.subrange(start, i as int).map_values(
                        |l: Seq<char>| text::trim(l),
                    ),
                decreases lines.len() - i,
            {
                let ghost so_far = text::texts(rows@);
                let row = vstd::slice::slice_to_vec(text::trim_of(lines[i].as_slice()));
                rows.push(row);
                proof {
                    assert(lines@[i as int]@ == view[i as int]);
                    assert(text::texts(rows@) == so_far.push(row@));
                    assert(view.subrange(start, i + 1) == view.subrange(start, i as int).push(
                        view[i as int],
                    ));
                    assert(text::texts(rows@) == view.subrange(start, i + 1).map_values(
                        |l: Seq<char>| text::trim(l),
                    ));
                }
                i += 1;
            }
            proof {
                if i < lines.len() {
                    assert(lines@[i as int]@ == view[i as int]);
                }
            }
            push_table(&mut result, &rows);
        }
        proof {
            assert(text::texts(result@) + convert_from(view, i as int) == before + convert_from(
                view,
                start,
            ));
        }
    }
    proof {
        assert(text::texts(result@) + convert_from(view, i as int) == text::texts(result@));
    }
    text::string_of(text::join_with(&result, "\n").as_slice())
}

} // verus!
