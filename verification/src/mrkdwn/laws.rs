//! What holds of the conversion as a whole.

use vstd::prelude::*;
use crate::mrkdwn::brackets;
use crate::mrkdwn::document;
use crate::mrkdwn::document::{Fence, Piece};
use crate::mrkdwn::entities;
use crate::mrkdwn::fences;
use crate::mrkdwn::lines;
use crate::mrkdwn::spans;
use crate::mrkdwn::tables;
use crate::mrkdwn::urls;
use crate::text;

verus! {

/// Joining undoes splitting.
pub proof fn law_join_undoes_split(s: Seq<char>, sep: char)
    ensures
        text::split(s, sep).len() > 0,
        text::join(text::split(s, sep), seq![sep]) == s,
    decreases s.len(),
{
    if s.len() > 0 {
        let front = text::split(s.drop_last(), sep);
        law_join_undoes_split(s.drop_last(), sep);
        assert(s == s.drop_last().push(s.last()));
        if s.last() == sep {
            assert(front.push(Seq::<char>::empty()).drop_last() == front);
            assert(text::join(front.push(Seq::empty()), seq![sep]) == s.drop_last() + seq![sep]
                + Seq::<char>::empty());
        } else {
            let last = front.last().push(s.last());
            let parts = front.drop_last().push(last);
            assert(parts.drop_last() == front.drop_last());
            if front.len() > 1 {
                assert(text::join(parts, seq![sep]) == text::join(front.drop_last(), seq![sep])
                    + seq![sep] + last);
                assert(text::join(parts, seq![sep]) == text::join(front, seq![sep]).push(s.last()));
            } else {
                assert(parts[0] == front[0].push(s.last()));
            }
        }
    }
}

/// The pieces of a text that is split hold no separator.
pub proof fn law_split_pieces_hold_no_separator(s: Seq<char>, sep: char, k: int)
    requires
        0 <= k < text::split(s, sep).len(),
    ensures
        !text::split(s, sep)[k].contains(sep),
    decreases s.len(),
{
    if s.len() > 0 {
        let front = text::split(s.drop_last(), sep);
        law_join_undoes_split(s.drop_last(), sep);
        if k < front.len() {
            law_split_pieces_hold_no_separator(s.drop_last(), sep, k);
        }
        let piece = text::split(s, sep)[k];
        if piece.contains(sep) {
            let j = choose|j: int| 0 <= j < piece.len() && piece[j] == sep;
            if s.last() != sep && k == front.len() - 1 {
                if j < front[k].len() {
                    assert(front[k][j] == sep);
                }
            } else if k < front.len() {
                assert(front[k][j] == sep);
            }
        }
    }
}

/// A text without a separator joins the last piece of the text before it.
proof fn lemma_split_append(a: Seq<char>, b: Seq<char>, sep: char)
    requires
        !b.contains(sep),
    ensures
        text::split(a + b, sep) == text::split(a, sep).drop_last().push(
            text::split(a, sep).last() + b,
        ),
    decreases b.len(),
{
    law_join_undoes_split(a, sep);
    let base = text::split(a, sep);
    if b.len() == 0 {
        assert(a + b == a);
        assert(base.last() + b == base.last());
        assert(base == base.drop_last().push(base.last()));
    } else {
        let c = b.drop_last();
        assert(b[b.len() - 1] == b.last());
        assert forall|j: int| 0 <= j < c.len() implies c[j] != sep by {
            assert(b[j] == c[j]);
        }
        lemma_split_append(a, c, sep);
        assert((a + b).drop_last() == a + c);
        let front = text::split(a + c, sep);
        assert(front.drop_last() == base.drop_last());
        assert((base.last() + c).push(b.last()) == base.last() + b);
    }
}

/// Splitting undoes joining, where no piece holds the separator.
pub proof fn law_split_undoes_join(parts: Seq<Seq<char>>, sep: char)
    requires
        parts.len() > 0,
        forall|k: int| 0 <= k < parts.len() ==> !(#[trigger] parts[k]).contains(sep),
    ensures
        text::split(text::join(parts, seq![sep]), sep) == parts,
    decreases parts.len(),
{
    let empty = Seq::<char>::empty();
    if parts.len() == 1 {
        lemma_split_append(empty, parts[0], sep);
        assert(empty + parts[0] == parts[0]);
        assert(text::split(empty, sep) == seq![empty]);
        assert(seq![empty].drop_last().push(empty + parts[0]) == parts);
    } else {
        let front = parts.drop_last();
        assert forall|k: int| 0 <= k < front.len() implies !(#[trigger] front[k]).contains(sep) by {
            assert(front[k] == parts[k]);
        }
        law_split_undoes_join(front, sep);
        let a = text::join(front, seq![sep]).push(sep);
        assert(a.drop_last() == text::join(front, seq![sep]));
        assert(text::split(a, sep) == front.push(empty));
        lemma_split_append(a, parts.last(), sep);
        assert(a + parts.last() == text::join(parts, seq![sep]));
        assert(front.push(empty).drop_last() == front);
        assert(empty + parts.last() == parts.last());
        assert(front.push(parts.last()) == parts);
    }
}

/// The separator of lines as a text.
pub proof fn lemma_line_feed()
    ensures
        "\n"@ == seq!['\n'],
{
    reveal_strlit("\n");
    assert("\n"@ == seq!['\n']);
}

/// A construct of Markdown begins at `i`.
pub open spec fn construct_at(s: Seq<char>, i: int) -> bool {
    ||| spans::escape_at(s, i)
    ||| spans::span_end(s, seq!['*', '*', '*'], i) is Some
    ||| spans::span_end(s, seq!['*', '*'], i) is Some
    ||| spans::italic_end(s, i) is Some
    ||| spans::underscore_end(s, i) is Some
    ||| spans::span_end(s, seq!['~', '~'], i) is Some
    ||| s[i] == '!' && spans::link_at(s, i + 1) is Some
    ||| spans::link_at(s, i) is Some
}

/// From `i` on, no construct of Markdown begins outside of code spans.
pub open spec fn unformatted_from(s: Seq<char>, i: int) -> bool
    decreases s.len() - i,
{
    if i < 0 || i >= s.len() {
        true
    } else if s[i] == '`' {
        proof {
            spans::lemma_code_span(s, i);
        }
        unformatted_from(s, spans::ticks_end(s, i))
    } else {
        !construct_at(s, i) && unformatted_from(s, i + 1)
    }
}

/// From `i` on, no web address begins and no control character of Slack's
/// stands outside of code spans and Slack's syntax in angle brackets, but for
/// the mark of a quote.
pub open spec fn encoded_from(s: Seq<char>, i: int) -> bool
    decreases s.len() - i,
{
    if i < 0 || i >= s.len() {
        true
    } else if s[i] == '`' {
        proof {
            spans::lemma_code_span(s, i);
        }
        encoded_from(s, spans::ticks_end(s, i))
    } else if brackets::bracket_end(s, i) is Some {
        proof {
            brackets::lemma_bracket_end(s, i);
        }
        encoded_from(s, brackets::bracket_end(s, i)->0)
    } else {
        &&& !urls::address_at(s, i)
        &&& s[i] != '&' && s[i] != '<' && (s[i] != '>' || i == 0)
        &&& encoded_from(s, i + 1)
    }
}

/// The line is an item of a list.
pub open spec fn list_line(line: Seq<char>) -> bool {
    let t = text::trim_start(line);
    ||| text::starts_with(t, "- "@)
    ||| text::starts_with(t, "* "@)
    ||| match text::find(t, ". "@, 0) {
        Some(k) => k > 0 && text::all_digits(t.take(k)),
        None => false,
    }
}

/// The line is Slack's markup already: no rule, header, item of a list, row of
/// a table or fence, and with nothing inside of it that is Markdown only.
pub open spec fn settled_line(line: Seq<char>) -> bool {
    &&& unformatted_from(line, 0)
    &&& encoded_from(line, 0)
    &&& document::opening(line) is None
    &&& !lines::horizontal_rule(text::trim_start(line))
    &&& !document::is_header(line)
    &&& !list_line(line)
    &&& !tables::table_row(line)
}

/// The inline constructs of a line without any are kept.
pub proof fn lemma_inline_kept(s: Seq<char>, i: int)
    requires
        0 <= i <= s.len(),
        unformatted_from(s, i),
    ensures
        spans::inline_from(s, i) == s.skip(i),
    decreases s.len() - i,
{
    if i < s.len() {
        if s[i] == '`' {
            spans::lemma_code_span(s, i);
            let e = spans::ticks_end(s, i);
            lemma_inline_kept(s, e);
            assert(s.subrange(i, e) + s.skip(e) == s.skip(i));
        } else {
            lemma_inline_kept(s, i + 1);
            assert(spans::inline_step(s, i) == (seq![s[i]], i + 1));
            assert(seq![s[i]] + s.skip(i + 1) == s.skip(i));
        }
    }
}

/// A line without bare web addresses and bare control characters is kept.
pub proof fn lemma_encoded_kept(s: Seq<char>, i: int)
    requires
        0 <= i <= s.len(),
        encoded_from(s, i),
    ensures
        urls::wrap_from(s, i) == s.skip(i),
        entities::escape_from(s, i) == s.skip(i),
    decreases s.len() - i,
{
    if i < s.len() {
        spans::lemma_code_span(s, i);
        brackets::lemma_bracket_end(s, i);
        if s[i] == '`' {
            let e = spans::ticks_end(s, i);
            lemma_encoded_kept(s, e);
            assert(s.subrange(i, e) + s.skip(e) == s.skip(i));
        } else if brackets::bracket_end(s, i) is Some {
            let e = brackets::bracket_end(s, i)->0;
            lemma_encoded_kept(s, e);
            assert(s.subrange(i, e) + s.skip(e) == s.skip(i));
        } else {
            lemma_encoded_kept(s, i + 1);
            if urls::address_at(s, i + 1) {
                urls::lemma_address(s, None, i + 1);
                assert(brackets::bracket_end(s, i + 1) is None);
                assert(!encoded_from(s, i + 1));
            }
            assert(entities::escape_step(s, i) == (seq![s[i]], i + 1));
            assert(seq![s[i]] + s.skip(i + 1) == s.skip(i));
        }
    }
}

/// A line that opens a block of Slack's opens one of Markdown's.
pub proof fn lemma_fences(line: Seq<char>)
    ensures
        fences::opening_fence(line) ==> document::opening(line) is Some,
{
    reveal_strlit("```");
    let t = text::trim_start(line);
    crate::laws::lemma_trim_end(t);
    if fences::backtick_fence(line) {
        let n = text::trim_end(t).len() as int;
        assert(t.subrange(0, 3) == t.take(n).subrange(0, 3));
    }
}

/// Where no line opens a block of Slack's, no line stands inside of one.
pub proof fn lemma_no_block(ls: Seq<Seq<char>>, k: int)
    requires
        0 <= k <= ls.len(),
        forall|j: int| 0 <= j < k ==> !fences::opening_fence(#[trigger] ls[j]),
    ensures
        fences::open_len(ls, k) == 0,
    decreases k,
{
    if k > 0 {
        lemma_no_block(ls, k - 1);
        assert(!fences::opening_fence(ls[k - 1]));
    }
}

/// Where no line is a row of a table, the lines are kept.
pub proof fn lemma_no_tables(ls: Seq<Seq<char>>, i: int)
    requires
        0 <= i <= ls.len(),
        forall|k: int| 0 <= k < ls.len() ==> !tables::table_row(#[trigger] ls[k]),
    ensures
        tables::convert_from(ls, i) == ls.skip(i),
    decreases ls.len() - i,
{
    if i < ls.len() {
        lemma_no_tables(ls, i + 1);
        assert(seq![ls[i]] + ls.skip(i + 1) == ls.skip(i));
    }
}

/// Lines outside of code blocks that no pass changes make up the text of which
/// they are the lines.
pub proof fn lemma_polish_keeps(ls: Seq<Seq<char>>)
    requires
        ls.len() > 0,
        forall|k: int| 0 <= k < ls.len() ==> !(#[trigger] ls[k]).contains('\n'),
        forall|k: int|
            0 <= k < ls.len() ==> !tables::table_row(#[trigger] ls[k]) && document::opening(
                ls[k],
            ) is None && urls::wrap_line(ls[k]) == ls[k] && entities::escape_line(ls[k]) == ls[k],
    ensures
        document::polish(ls) == text::join(ls, "\n"@),
{
    lemma_line_feed();
    let s = text::join(ls, "\n"@);
    law_split_undoes_join(ls, '\n');
    lemma_no_tables(ls, 0);
    assert(ls.skip(0) == ls);
    let f = |l: Seq<char>| urls::wrap_line(l);
    let g = |l: Seq<char>| entities::escape_line(l);
    assert forall|k: int| 0 <= k < ls.len() implies !fences::fenced(ls, k) by {
        assert forall|j: int| 0 <= j < ls.len() implies !fences::opening_fence(
            #[trigger] ls[j],
        ) by {
            lemma_fences(ls[j]);
        }
        lemma_no_block(ls, k);
        assert(!fences::opening_fence(ls[k]));
    }
    assert(fences::map_unfenced(ls, f) == ls);
    assert(fences::map_unfenced(ls, g) == ls);
}

/// Two runs of pieces, joined one after the other.
pub proof fn lemma_join_runs(a: Seq<Seq<char>>, b: Seq<Seq<char>>, sep: Seq<char>)
    requires
        a.len() > 0,
        b.len() > 0,
    ensures
        text::join(a + b, sep) == text::join(a, sep) + sep + text::join(b, sep),
    decreases b.len(),
{
    assert((a + b).drop_last() == a + b.drop_last());
    if b.len() == 1 {
        assert(a + b.drop_last() == a);
        assert((a + b).last() == b[0]);
    } else {
        lemma_join_runs(a, b.drop_last(), sep);
        assert(text::join(a, sep) + sep + text::join(b.drop_last(), sep) + sep + b.last()
            == text::join(a, sep) + sep + (text::join(b.drop_last(), sep) + sep + b.last()));
    }
}

/// The line stays as it is: it is part of a code block without a fence of
/// tildes, or Slack's markup outside of code blocks.
pub open spec fn kept_line(ls: Seq<Seq<char>>, k: int) -> bool {
    if document::code_line(ls, k) {
        !(document::block_fence(ls, k) && document::fence_of(ls[k]) == Some(Fence::Tildes))
    } else {
        settled_line(ls[k])
    }
}

/// A line that stays as it is, converted by itself.
proof fn lemma_line_kept(ls: Seq<Seq<char>>, k: int)
    requires
        0 <= k < ls.len(),
        kept_line(ls, k),
    ensures
        document::converted(ls, k) == ls[k],
{
    if document::code_line(ls, k) {
        if document::block_fence(ls, k) {
            reveal_strlit("```");
            reveal_strlit("~~~");
            let t = text::trim_start(ls[k]);
            if text::starts_with(t, "```"@) {
                assert(t.subrange(0, 3)[0] == '`');
            }
        }
    } else {
        lemma_inline_kept(ls[k], 0);
        assert(ls[k].skip(0) == ls[k]);
    }
}

/// Lines outside of code blocks that stay as they are make up the text of which
/// they are the lines.
proof fn lemma_run_kept(ls: Seq<Seq<char>>, i: int, e: int)
    requires
        0 <= i < e <= ls.len(),
        forall|k: int| 0 <= k < ls.len() ==> !(#[trigger] ls[k]).contains('\n'),
        forall|k: int| 0 <= k < ls.len() ==> #[trigger] kept_line(ls, k),
        forall|k: int| i <= k < e ==> !#[trigger] document::code_line(ls, k),
    ensures
        document::polish(ls.subrange(i, e)) == text::join(ls.subrange(i, e), "\n"@),
{
    let run = ls.subrange(i, e);
    assert forall|k: int| 0 <= k < run.len() implies !(#[trigger] run[k]).contains('\n')
        && !tables::table_row(run[k]) && document::opening(run[k]) is None && urls::wrap_line(
        run[k],
    ) == run[k] && entities::escape_line(run[k]) == run[k] by {
        assert(!document::code_line(ls, i + k));
        assert(kept_line(ls, i + k));
        assert(run[k] == ls[i + k]);
        lemma_encoded_kept(run[k], 0);
        assert(run[k].skip(0) == run[k]);
    }
    lemma_polish_keeps(run);
}

/// Lines that stay as they are make up the text of which they are the lines.
#[verifier::rlimit(30)]
proof fn lemma_parts_kept(ls: Seq<Seq<char>>, i: int)
    requires
        0 <= i < ls.len(),
        forall|k: int| 0 <= k < ls.len() ==> !(#[trigger] ls[k]).contains('\n'),
        forall|k: int| 0 <= k < ls.len() ==> #[trigger] kept_line(ls, k),
    ensures
        ({
            let parts = document::parts_from(document::convert_lines(ls), i);
            parts.len() > 0 && text::join(parts, "\n"@) == text::join(ls.skip(i), "\n"@)
        }),
    decreases ls.len() - i,
{
    let ps = document::convert_lines(ls);
    let sep = "\n"@;
    assert forall|k: int| 0 <= k < ls.len() implies (#[trigger] ps[k]).chars == ls[k] by {
        lemma_line_kept(ls, k);
    }
    document::lemma_plain_end(ps, i);
    let e = if ps[i].code {
        i + 1
    } else {
        document::plain_end(ps, i)
    };
    let run = ls.subrange(i, e);
    let first = if ps[i].code {
        ls[i]
    } else {
        document::polish(run)
    };
    if ps[i].code {
        assert(run == seq![ls[i]]);
    } else {
        assert(document::chars_in(ps.subrange(i, e)) == run);
        assert forall|k: int| i <= k < e implies !#[trigger] document::code_line(ls, k) by {
            assert(!ps[k].code);
        }
        lemma_run_kept(ls, i, e);
    }
    assert(first == text::join(run, sep));
    let parts = document::parts_from(ps, i);
    let rest = document::parts_from(ps, e);
    assert(parts == seq![first] + rest);
    if e < ls.len() {
        lemma_parts_kept(ls, e);
        lemma_join_runs(seq![first], rest, sep);
        lemma_join_runs(run, ls.skip(e), sep);
        assert(ls.skip(i) == run + ls.skip(e));
    } else {
        assert(parts == seq![first]);
        assert(ls.skip(i) == run);
    }
}

/// Slack's markup passes unchanged: plain text, `_text_`, `~text~`, `<url>` and
/// `<url|text>`, mentions, quotes, code spans and code blocks. Only line feeds
/// at the end are dropped.
pub proof fn law_slack_markup_is_kept(s: Seq<char>)
    requires
        forall|k: int|
            0 <= k < text::split(s, '\n').len() ==> #[trigger] kept_line(text::split(s, '\n'), k),
    ensures
        document::mrkdwn(s) == document::trim_end_newlines(s),
{
    if s.len() > 0 {
        let ls = text::split(s, '\n');
        lemma_line_feed();
        law_join_undoes_split(s, '\n');
        assert forall|k: int| 0 <= k < ls.len() implies !(#[trigger] ls[k]).contains('\n') by {
            law_split_pieces_hold_no_separator(s, '\n', k);
        }
        lemma_parts_kept(ls, 0);
        assert(ls.skip(0) == ls);
    }
}

/// The parts that make up a message.
pub open spec fn message_parts(s: Seq<char>) -> Seq<Seq<char>> {
    document::parts_from(document::convert_lines(text::split(s, '\n')), 0)
}

/// Code blocks are kept: each of their lines is a part of the message by
/// itself, as it is, but that a fence of tildes becomes one of backticks.
pub proof fn law_code_blocks_are_kept(s: Seq<char>, k: int)
    requires
        s.len() > 0,
        0 <= k < text::split(s, '\n').len(),
        document::code_line(text::split(s, '\n'), k),
    ensures
        document::mrkdwn(s) == document::trim_end_newlines(
            text::join(message_parts(s), "\n"@),
        ),
        message_parts(s).contains(
            if document::block_fence(text::split(s, '\n'), k) {
                document::slack_fence(text::split(s, '\n')[k])
            } else {
                text::split(s, '\n')[k]
            },
        ),
{
    let ps = document::convert_lines(text::split(s, '\n'));
    lemma_code_part(ps, 0, k);
}

/// A line of a code block is a part of the message.
proof fn lemma_code_part(ps: Seq<Piece>, i: int, k: int)
    requires
        0 <= i <= k < ps.len(),
        ps[k].code,
    ensures
        document::parts_from(ps, i).contains(ps[k].chars),
    decreases ps.len() - i,
{
    let all = document::parts_from(ps, i);
    if ps[i].code {
        if i == k {
            assert(all[0] == ps[k].chars);
        } else {
            lemma_code_part(ps, i + 1, k);
            let rest = document::parts_from(ps, i + 1);
            let m = choose|m: int| 0 <= m < rest.len() && rest[m] == ps[k].chars;
            assert(all[m + 1] == ps[k].chars);
        }
    } else {
        document::lemma_plain_end(ps, i);
        let e = document::plain_end(ps, i);
        assert(e <= k) by {
            if k < e {
                assert(!ps[k].code);
            }
        }
        lemma_code_part(ps, e, k);
        let rest = document::parts_from(ps, e);
        let m = choose|m: int| 0 <= m < rest.len() && rest[m] == ps[k].chars;
        assert(all[m + 1] == ps[k].chars);
    }
}

} // verus!
