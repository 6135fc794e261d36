//! What holds of messages line by line: each line outside of tables is
//! converted by itself.

use vstd::prelude::*;
use crate::mrkdwn::brackets;
use crate::mrkdwn::code;
use crate::mrkdwn::document;
use crate::mrkdwn::document::Piece;
use crate::mrkdwn::entities;
use crate::mrkdwn::fences;
use crate::mrkdwn::laws;
use crate::mrkdwn::lines;
use crate::mrkdwn::spans;
use crate::mrkdwn::tables;
use crate::mrkdwn::ticks;
use crate::mrkdwn::urls;
use crate::mrkdwn::wrapping;
use crate::text;

verus! {

/// The text is a single line.
pub open spec fn single(s: Seq<char>) -> bool {
    forall|k: int| 0 <= k < s.len() ==> #[trigger] s[k] != '\n'
}

/// The inside of a bold span stays on its line.
proof fn lemma_bold_single(s: Seq<char>, i: int)
    requires
        single(s),
        0 <= i <= s.len(),
    ensures
        single(spans::bold_from(s, i)),
    decreases s.len() - i,
{
    if i < s.len() {
        spans::lemma_bold_step(s, i);
        spans::lemma_span_end(s, seq!['*'], i);
        lemma_bold_single(s, spans::bold_step(s, i).1);
        assert(single(spans::bold_step(s, i).0));
    }
}

/// The destination of a link stays on its line.
proof fn lemma_url_single(raw: Seq<char>)
    requires
        single(raw),
    ensures
        single(spans::link_url(raw)),
{
    let t = text::trim(raw);
    lemma_trim_single(raw);
    if t.len() > 0 && spans::title_opener(t.last()) is Some {
        let w = t.drop_last();
        let c = spans::title_opener(t.last())->0;
        code::lemma_rfind_char(w, c, w.len() as int);
        if let Some(k) = text::rfind_char(w, c, w.len() as int) {
            if k > 0 {
                assert(single(w.take(k - 1)));
                lemma_trim_single(w.take(k - 1));
            }
        }
    }
}

/// What trimming leaves of a line is one.
proof fn lemma_trim_single(s: Seq<char>)
    requires
        single(s),
    ensures
        single(text::trim(s)),
        single(text::trim_end(s)),
        single(text::trim_start(s)),
{
    crate::laws::lemma_trim_start(s);
    crate::laws::lemma_trim_end(s);
    crate::laws::lemma_trim_end(text::trim_start(s));
}

/// A step of the inline pass stays on its line.
#[verifier::rlimit(30)]
proof fn lemma_inline_step_single(s: Seq<char>, i: int)
    requires
        single(s),
        0 <= i < s.len(),
    ensures
        single(spans::inline_step(s, i).0),
{
    spans::lemma_inline_step(s, i);
    spans::lemma_code_span(s, i);
    spans::lemma_span_end(s, seq!['*', '*', '*'], i);
    spans::lemma_span_end(s, seq!['*', '*'], i);
    spans::lemma_span_end(s, seq!['*'], i);
    spans::lemma_span_end(s, seq!['_', '_'], i);
    spans::lemma_span_end(s, seq!['~', '~'], i);
    spans::lemma_link_at(s, i);
    spans::lemma_link_at(s, i + 1);
    if let Some(e) = spans::span_end(s, seq!['*', '*'], i) {
        let inner = s.subrange(i + 2, e);
        assert(single(inner));
        lemma_bold_single(inner, 0);
    }
    if let Some((b, p)) = spans::link_at(s, i + 1) {
        assert(single(s.subrange(b + 2, p)));
        lemma_url_single(s.subrange(b + 2, p));
    }
    if let Some((b, p)) = spans::link_at(s, i) {
        assert(single(s.subrange(b + 2, p)));
        assert(single(s.subrange(i + 1, b)));
        lemma_url_single(s.subrange(b + 2, p));
    }
}

/// The inline pass stays on its line.
proof fn lemma_inline_single(s: Seq<char>, i: int)
    requires
        single(s),
        0 <= i <= s.len(),
    ensures
        single(spans::inline_from(s, i)),
    decreases s.len() - i,
{
    if i < s.len() {
        spans::lemma_inline_step(s, i);
        lemma_inline_step_single(s, i);
        lemma_inline_single(s, spans::inline_step(s, i).1);
    }
}

/// A list item stays on its line.
proof fn lemma_item_single(line: Seq<char>)
    requires
        single(line),
    ensures
        single(lines::list_item(line)),
{
    reveal_strlit("• ");
    reveal_strlit(". ");
    reveal_strlit(".  ");
    reveal_strlit("- ");
    reveal_strlit("* ");
    let t = text::trim_start(line);
    lemma_trim_single(line);
    crate::laws::lemma_trim_start(line);
    text::lemma_find(t, ". "@, 0);
    let indent = line.take(line.len() - t.len());
    assert(single(indent));
    if text::starts_with(t, "- "@) || text::starts_with(t, "* "@) {
        assert(single(t.skip(2)));
        assert(single(indent + "• "@));
    } else if let Some(k) = text::find(t, ". "@, 0) {
        assert(single(t.take(k)));
        assert(single(t.skip(k + 2)));
        assert(single(indent + t.take(k)));
        assert(single(indent + t.take(k) + ".  "@));
    }
}

/// The parts of a title, spelled out, stay on the line.
proof fn lemma_spelled_single(parts: Seq<Piece>)
    requires
        forall|k: int| 0 <= k < parts.len() ==> single((#[trigger] parts[k]).chars),
    ensures
        single(document::spelled(parts, document::chars_in(parts))),
    decreases parts.len(),
{
    if parts.len() > 0 {
        let front = parts.drop_last();
        let texts = document::chars_in(parts);
        lemma_spelled_single(front);
        code::lemma_spelled_fewer(front, texts);
        assert(texts.drop_last() == document::chars_in(front));
        let n = parts.len() - 1;
        assert(single(parts[n].chars));
        assert(texts[n] == parts[n].chars);
    }
}

/// A line whose conversion involves no upper case form stays a line.
proof fn lemma_plain_single(line: Seq<char>)
    requires
        single(line),
        !code::upper_header(line),
    ensures
        single(document::plain_line(line)),
{
    if lines::horizontal_rule(text::trim_start(line)) {
        reveal_strlit("───────────────────────");
    } else if document::is_header(line) {
        let parts = document::title_parts(document::header_title(line), 0);
        let p = |c: char| c != '\n';
        assert(text::each(line, p));
        assert forall|k: int| 0 <= k < parts.len() implies single((#[trigger] parts[k]).chars) by {
            document::lemma_title_each(line, p, k);
            let t = parts[k].chars;
            assert forall|j: int| 0 <= j < t.len() implies #[trigger] t[j] != '\n' by {
                assert(p(t[j]));
            }
        }
        lemma_spelled_single(parts);
    } else {
        lemma_inline_single(line, 0);
        lemma_item_single(spans::inline_line(line));
    }
}

/// Wrapping stays on the line.
proof fn lemma_wrap_single(s: Seq<char>, i: int)
    requires
        single(s),
        0 <= i <= s.len(),
    ensures
        single(urls::wrap_from(s, i)),
    decreases s.len() - i,
{
    if i < s.len() {
        urls::lemma_wrap_step(s, i);
        lemma_wrap_single(s, urls::wrap_step(s, i).1);
        spans::lemma_code_span(s, i);
        brackets::lemma_bracket_end(s, i);
        assert(single(urls::wrap_step(s, i).0));
    }
}

/// Lines outside of code blocks and tables are finished one by one.
pub proof fn lemma_polish(ls: Seq<Seq<char>>)
    requires
        ls.len() > 0,
        forall|k: int|
            0 <= k < ls.len() ==> single(#[trigger] ls[k]) && !tables::table_row(ls[k])
                && !fences::opening_fence(ls[k]),
    ensures
        document::polish(ls) == text::join(
            Seq::new(
                ls.len(),
                |k: int| entities::escape_line(urls::wrap_line(ls[k])),
            ),
            "\n"@,
        ),
{
    laws::lemma_line_feed();
    let f = |l: Seq<char>| urls::wrap_line(l);
    let g = |l: Seq<char>| entities::escape_line(l);
    let wrapped = Seq::new(ls.len(), |k: int| urls::wrap_line(ls[k]));
    let escaped = Seq::new(ls.len(), |k: int| entities::escape_line(urls::wrap_line(ls[k])));
    assert forall|k: int| 0 <= k < ls.len() implies single(#[trigger] wrapped[k])
        && !fences::opening_fence(wrapped[k]) by {
        lemma_wrap_single(ls[k], 0);
        wrapping::lemma_wrap_opening(ls[k]);
    }
    lemma_split_lines(ls);
    lemma_split_lines(wrapped);
    laws::lemma_no_tables(ls, 0);
    assert(ls.skip(0) == ls);
    lemma_unfenced(ls);
    lemma_unfenced(wrapped);
    assert(fences::map_unfenced(ls, f) == wrapped);
    assert(fences::map_unfenced(wrapped, g) == escaped);
}

/// The lines of joined lines are these.
pub proof fn lemma_split_lines(ls: Seq<Seq<char>>)
    requires
        ls.len() > 0,
        forall|k: int| 0 <= k < ls.len() ==> single(#[trigger] ls[k]),
    ensures
        text::split(text::join(ls, "\n"@), '\n') == ls,
{
    laws::lemma_line_feed();
    assert forall|k: int| 0 <= k < ls.len() implies !(#[trigger] ls[k]).contains('\n') by {
        assert(single(ls[k]));
    }
    laws::law_split_undoes_join(ls, '\n');
}

/// Where no line opens a block, no line belongs to one.
proof fn lemma_unfenced(ls: Seq<Seq<char>>)
    requires
        forall|k: int| 0 <= k < ls.len() ==> !fences::opening_fence(#[trigger] ls[k]),
    ensures
        forall|k: int| 0 <= k < ls.len() ==> !#[trigger] fences::fenced(ls, k),
{
    assert forall|k: int| 0 <= k < ls.len() implies !#[trigger] fences::fenced(ls, k) by {
        laws::lemma_no_block(ls, k);
        assert(!fences::opening_fence(ls[k]));
    }
}

/// Line `k` of a message belongs to a code block, or it has clear inline code
/// and becomes neither upper case, nor a row of a table, nor a fence.
pub open spec fn clear_line(ls: Seq<Seq<char>>, k: int) -> bool {
    document::code_line(ls, k) || {
        &&& code::clear_code(ls[k])
        &&& !code::upper_header(ls[k])
        &&& !tables::table_row(document::plain_line(ls[k]))
        &&& !fences::opening_fence(document::plain_line(ls[k]))
    }
}

/// What becomes of the lines of a message, each one by itself.
pub open spec fn final_lines(ls: Seq<Seq<char>>) -> Seq<Seq<char>> {
    Seq::new(
        ls.len(),
        |k: int|
            if document::code_line(ls, k) {
                document::converted(ls, k)
            } else {
                code::finished_line(ls[k])
            },
    )
}

/// Line `k` of a message belongs to a code block, or becomes a single line that is
/// neither a row of a table nor a fence.
pub open spec fn even_line(ls: Seq<Seq<char>>, k: int) -> bool {
    document::code_line(ls, k) || {
        &&& single(document::plain_line(ls[k]))
        &&& !tables::table_row(document::plain_line(ls[k]))
        &&& !fences::opening_fence(document::plain_line(ls[k]))
    }
}

/// The parts of a message from line `i` on are its lines, each one converted by
/// itself.
#[verifier::rlimit(30)]
pub proof fn lemma_final_parts(ls: Seq<Seq<char>>, i: int)
    requires
        0 <= i < ls.len(),
        forall|k: int| 0 <= k < ls.len() ==> single(#[trigger] ls[k]),
        forall|k: int| 0 <= k < ls.len() ==> #[trigger] even_line(ls, k),
    ensures
        ({
            let parts = document::parts_from(document::convert_lines(ls), i);
            parts.len() > 0 && text::join(parts, "\n"@) == text::join(
                final_lines(ls).skip(i),
                "\n"@,
            )
        }),
    decreases ls.len() - i,
{
    let ps = document::convert_lines(ls);
    let fs = final_lines(ls);
    let sep = "\n"@;
    document::lemma_plain_end(ps, i);
    let e = if ps[i].code {
        i + 1
    } else {
        document::plain_end(ps, i)
    };
    let run = fs.subrange(i, e);
    let mid = document::chars_in(ps.subrange(i, e));
    let first = if ps[i].code {
        ps[i].chars
    } else {
        document::polish(mid)
    };
    reveal_with_fuel(text::join, 2);
    if ps[i].code {
        assert(run == seq![first]);
    } else {
        assert forall|k: int| 0 <= k < mid.len() implies single(#[trigger] mid[k])
            && !tables::table_row(mid[k]) && !fences::opening_fence(mid[k]) by {
            assert(!ps[i + k].code);
            assert(even_line(ls, i + k));
            assert(mid[k] == document::plain_line(ls[i + k]));
        }
        lemma_polish(mid);
        assert(Seq::new(mid.len(), |k: int| entities::escape_line(urls::wrap_line(mid[k])))
            == run) by {
            assert forall|k: int| 0 <= k < run.len() implies entities::escape_line(
                urls::wrap_line(mid[k]),
            ) == #[trigger] run[k] by {
                assert(!ps[i + k].code);
                assert(mid[k] == document::plain_line(ls[i + k]));
            }
        }
    }
    assert(first == text::join(run, sep));
    let parts = document::parts_from(ps, i);
    let rest = document::parts_from(ps, e);
    assert(parts == seq![first] + rest);
    if e < ls.len() {
        lemma_final_parts(ls, e);
        laws::lemma_join_runs(seq![first], rest, sep);
        laws::lemma_join_runs(run, fs.skip(e), sep);
        assert(fs.skip(i) == run + fs.skip(e));
    } else {
        assert(parts == seq![first]);
        assert(fs.skip(i) == run);
    }
}

/// A message is converted line by line, and on every line outside of its code
/// blocks inline code is kept verbatim. Left out are messages with tables or
/// with headers whose text becomes upper case, which have laws of their own,
/// those with a line whose inline code is not clear of other constructs, and
/// those with a line that becomes a fence.
pub proof fn law_message_keeps_inline_code(s: Seq<char>)
    requires
        s.len() > 0,
        forall|k: int|
            0 <= k < text::split(s, '\n').len() ==> #[trigger] clear_line(text::split(s, '\n'), k),
    ensures
        ({
            let ls = text::split(s, '\n');
            &&& document::mrkdwn(s) == document::trim_end_newlines(
                text::join(final_lines(ls), "\n"@),
            )
            &&& forall|k: int|
                0 <= k < ls.len() && !document::code_line(ls, k) ==> ticks::inline_code(
                    #[trigger] final_lines(ls)[k],
                ) == ticks::inline_code(ls[k])
        }),
{
    let ls = text::split(s, '\n');
    laws::law_join_undoes_split(s, '\n');
    assert forall|k: int| 0 <= k < ls.len() implies single(#[trigger] ls[k]) by {
        laws::law_split_pieces_hold_no_separator(s, '\n', k);
        assert forall|j: int| 0 <= j < ls[k].len() implies #[trigger] ls[k][j] != '\n' by {
            assert(ls[k].contains(ls[k][j]));
        }
    }
    assert forall|k: int| 0 <= k < ls.len() implies #[trigger] even_line(ls, k) by {
        assert(clear_line(ls, k));
        if !document::code_line(ls, k) {
            lemma_plain_single(ls[k]);
        }
    }
    lemma_final_parts(ls, 0);
    assert(final_lines(ls).skip(0) == final_lines(ls));
    assert forall|k: int| 0 <= k < ls.len() && !document::code_line(ls, k) implies ticks::inline_code(
        #[trigger] final_lines(ls)[k],
    ) == ticks::inline_code(ls[k]) by {
        assert(clear_line(ls, k));
        code::law_inline_code_is_kept(ls[k]);
    }
}

} // verus!
