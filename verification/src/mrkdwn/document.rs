//! Whole messages.

use vstd::prelude::*;
use crate::mrkdwn::entities;
use crate::mrkdwn::fences;
use crate::mrkdwn::lines;
use crate::mrkdwn::spans;
use crate::mrkdwn::tables;
use crate::mrkdwn::urls;
use crate::outside;
use crate::text;

verus! {

/// The kinds of fences of Markdown.
#[derive(Clone, Copy, PartialEq, Eq, Structural, Debug)]
pub enum Fence {
    /// Three or more backticks.
    Backticks,
    /// Three or more tildes.
    Tildes,
}

/// The kind of fence that the line is: after white space it begins with three
/// backticks or three tildes.
pub open spec fn fence_of(line: Seq<char>) -> Option<Fence> {
    let t = text::trim_start(line);
    if text::starts_with(t, "```"@) {
        Some(Fence::Backticks)
    } else if text::starts_with(t, "~~~"@) {
        Some(Fence::Tildes)
    } else {
        None
    }
}

/// The kind of fence with which the line can open a code block. One of
/// backticks that holds a further backtick is inline code.
pub open spec fn opening(line: Seq<char>) -> Option<Fence> {
    if fence_of(line) == Some(Fence::Backticks) && !fences::single_run(text::trim_start(line)) {
        None
    } else {
        fence_of(line)
    }
}

/// The mark that a fence of the given kind is made of.
pub open spec fn fence_mark(f: Fence) -> char {
    match f {
        Fence::Backticks => '`',
        Fence::Tildes => '~',
    }
}

/// The number of marks with which a fence of the given kind begins, after white
/// space.
pub open spec fn fence_len(line: Seq<char>, f: Fence) -> int {
    text::leading(text::trim_start(line), fence_mark(f))
}

/// The line closes a block that a fence of the given kind and length opened: it
/// is a fence of the same kind, as long or longer.
pub open spec fn closes(line: Seq<char>, f: Fence, len: int) -> bool {
    fence_of(line) == Some(f) && fence_len(line, f) >= len
}

/// The kind and the length of the fence that opened the block in which line `k`
/// stands.
pub open spec fn block(ls: Seq<Seq<char>>, k: int) -> Option<(Fence, int)>
    decreases k,
{
    if k <= 0 {
        None
    } else {
        match block(ls, k - 1) {
            None => match opening(ls[k - 1]) {
                Some(f) => Some((f, fence_len(ls[k - 1], f))),
                None => None,
            },
            Some((f, len)) => if closes(ls[k - 1], f, len) {
                None
            } else {
                Some((f, len))
            },
        }
    }
}

/// Line `k` opens or closes a code block.
pub open spec fn block_fence(ls: Seq<Seq<char>>, k: int) -> bool {
    match block(ls, k) {
        None => opening(ls[k]) is Some,
        Some((f, len)) => closes(ls[k], f, len),
    }
}

/// The fence line in the form that Slack knows: tildes become backticks.
pub open spec fn slack_fence(line: Seq<char>) -> Seq<char> {
    if text::starts_with(text::trim_start(line), "~~~"@) {
        match text::find(line, "~~~"@, 0) {
            Some(k) => line.take(k) + "```"@ + line.skip(k + 3),
            None => line,
        }
    } else {
        line
    }
}

/// The number of `#` at the start of the line.
pub open spec fn hashes(line: Seq<char>) -> int {
    text::leading(line, '#')
}

/// The line is a header: one or more `#` and then a space.
pub open spec fn is_header(line: Seq<char>) -> bool {
    hashes(line) > 0 && hashes(line) < line.len() && line[hashes(line)] == ' '
}

/// The title of a header line, without bold markers.
pub open spec fn header_title(line: Seq<char>) -> Seq<char> {
    lines::without_bold(text::trim(line.skip(hashes(line))))
}

/// The first position at or after `i` where inline code begins, or the end of
/// the title.
pub open spec fn text_end(t: Seq<char>, i: int) -> int
    decreases t.len() - i,
{
    if i < 0 || i >= t.len() {
        t.len() as int
    } else if spans::code_span(t, i) is Some {
        i
    } else if t[i] == '`' {
        proof {
            spans::lemma_code_span(t, i);
        }
        text_end(t, spans::ticks_end(t, i))
    } else {
        text_end(t, i + 1)
    }
}

/// The text up to inline code lies within the title.
pub proof fn lemma_text_end(t: Seq<char>, i: int)
    requires
        0 <= i <= t.len(),
    ensures
        i <= text_end(t, i) <= t.len(),
        i < t.len() && spans::code_span(t, i) is None ==> i < text_end(t, i),
    decreases t.len() - i,
{
    if i < t.len() && spans::code_span(t, i) is None {
        spans::lemma_code_span(t, i);
        if t[i] == '`' {
            lemma_text_end(t, spans::ticks_end(t, i));
        } else {
            lemma_text_end(t, i + 1);
        }
    }
}

/// The parts of a title from `i` on: inline code, and the text around it.
pub open spec fn title_parts(t: Seq<char>, i: int) -> Seq<Piece>
    decreases t.len() - i,
{
    if i < 0 || i >= t.len() {
        Seq::empty()
    } else {
        proof {
            spans::lemma_code_span(t, i);
            lemma_text_end(t, i);
        }
        match spans::code_span(t, i) {
            Some(e) => seq![Piece { chars: t.subrange(i, e), code: true }] + title_parts(t, e),
            None => seq![Piece { chars: t.subrange(i, text_end(t, i)), code: false }]
                + title_parts(t, text_end(t, i)),
        }
    }
}

/// The parts in order, where the text of each one that is no code is replaced.
pub open spec fn spelled(parts: Seq<Piece>, texts: Seq<Seq<char>>) -> Seq<char>
    decreases parts.len(),
{
    if parts.len() == 0 {
        Seq::empty()
    } else {
        let n = parts.len() - 1;
        spelled(parts.drop_last(), texts) + if parts[n].code {
            parts[n].chars
        } else {
            texts[n]
        }
    }
}

/// The bold line that a header becomes. The first two levels use the upper case
/// form of the text in the title; inline code is kept.
pub open spec fn header_markup(level: int, parts: Seq<Piece>, uppers: Seq<Seq<char>>) -> Seq<
    char,
> {
    if level <= 2 {
        seq!['*'] + spelled(parts, uppers) + seq!['*']
    } else {
        seq!['*'] + spelled(parts, chars_in(parts)) + seq!['*']
    }
}

/// The upper case forms of the parts of a title.
pub open spec fn upper_forms(parts: Seq<Piece>) -> Seq<Seq<char>> {
    parts.map_values(|p: Piece| outside::uppercase(p.chars))
}

/// The bold line of a header with the given title.
pub open spec fn header_line(level: int, title: Seq<char>) -> Seq<char> {
    let parts = title_parts(title, 0);
    header_markup(level, parts, upper_forms(parts))
}

/// The upper case forms of the parts of an ASCII title.
pub open spec fn ascii_forms(parts: Seq<Piece>) -> Seq<Seq<char>> {
    parts.map_values(|p: Piece| outside::ascii_uppercase(p.chars))
}

/// The bold line of a header with the given ASCII title.
pub open spec fn ascii_header(level: int, title: Seq<char>) -> Seq<char> {
    let parts = title_parts(title, 0);
    header_markup(level, parts, ascii_forms(parts))
}

/// What a line outside of code blocks becomes, given the bold line that it
/// becomes if it is a header.
pub open spec fn line_with(line: Seq<char>, bold: Seq<char>) -> Seq<char> {
    if lines::horizontal_rule(text::trim_start(line)) {
        "───────────────────────"@
    } else if is_header(line) {
        bold
    } else {
        lines::list_item(spans::inline_line(line))
    }
}

/// What a line outside of code blocks becomes.
pub open spec fn plain_line(line: Seq<char>) -> Seq<char> {
    line_with(line, header_line(hashes(line), header_title(line)))
}

/// What an ASCII line outside of code blocks becomes.
pub open spec fn ascii_line(line: Seq<char>) -> Seq<char> {
    line_with(line, ascii_header(hashes(line), header_title(line)))
}

/// Line `k` belongs to a code block, its fences included.
pub open spec fn code_line(ls: Seq<Seq<char>>, k: int) -> bool {
    block(ls, k) is Some || opening(ls[k]) is Some
}

/// What line `k` becomes by itself. Inside of code blocks lines are kept.
pub open spec fn converted(ls: Seq<Seq<char>>, k: int) -> Seq<char> {
    if block_fence(ls, k) {
        slack_fence(ls[k])
    } else if code_line(ls, k) {
        ls[k]
    } else {
        plain_line(ls[k])
    }
}

/// A line that was converted by itself, as contracts speak of it.
pub struct Piece {
    pub chars: Seq<char>,
    pub code: bool,
}

/// The lines with each one converted by itself.
pub open spec fn convert_lines(ls: Seq<Seq<char>>) -> Seq<Piece> {
    Seq::new(ls.len(), |k: int| Piece { chars: converted(ls, k), code: code_line(ls, k) })
}

/// Each line is ASCII text.
pub open spec fn ascii_lines(ls: Seq<Seq<char>>) -> bool {
    forall|k: int| 0 <= k < ls.len() ==> outside::ascii(#[trigger] ls[k])
}

/// The ASCII lines with each one converted by itself.
pub open spec fn convert_ascii_lines(ls: Seq<Seq<char>>) -> Seq<Piece> {
    Seq::new(
        ls.len(),
        |k: int|
            Piece {
                chars: if code_line(ls, k) {
                    converted(ls, k)
                } else {
                    ascii_line(ls[k])
                },
                code: code_line(ls, k),
            },
    )
}

/// The text without the line feeds at its end.
pub open spec fn trim_end_newlines(s: Seq<char>) -> Seq<char>
    decreases s.len(),
{
    if s.len() > 0 && s[s.len() - 1] == '\n' {
        trim_end_newlines(s.take(s.len() - 1))
    } else {
        s
    }
}

/// What converted lines outside of code blocks make up: tables become lists,
/// bare web addresses are wrapped, and control characters are escaped.
pub open spec fn polish(ls: Seq<Seq<char>>) -> Seq<char> {
    entities::escape_entities(urls::wrap_urls(tables::tables(text::join(ls, "\n"@))))
}

/// The characters of converted lines.
pub open spec fn chars_in(ls: Seq<Piece>) -> Seq<Seq<char>> {
    ls.map_values(|p: Piece| p.chars)
}

/// The end of the run of lines outside of code blocks that begins at `i`.
pub open spec fn plain_end(ls: Seq<Piece>, i: int) -> int
    decreases ls.len() - i,
{
    if i < 0 || i >= ls.len() || ls[i].code {
        i
    } else {
        plain_end(ls, i + 1)
    }
}

/// The parts of the message that the converted lines from `i` on make up: each
/// line of a code block as it is, and each run of lines between code blocks as
/// a whole.
pub open spec fn parts_from(ls: Seq<Piece>, i: int) -> Seq<Seq<char>>
    decreases ls.len() - i,
{
    if i < 0 || i >= ls.len() {
        Seq::empty()
    } else if ls[i].code {
        seq![ls[i].chars] + parts_from(ls, i + 1)
    } else {
        proof {
            lemma_plain_end(ls, i);
        }
        seq![polish(chars_in(ls.subrange(i, plain_end(ls, i))))] + parts_from(ls, plain_end(ls, i))
    }
}

/// A run of lines outside of code blocks lies within the lines.
pub proof fn lemma_plain_end(ls: Seq<Piece>, i: int)
    requires
        0 <= i <= ls.len(),
    ensures
        i <= plain_end(ls, i) <= ls.len(),
        i < ls.len() && !ls[i].code ==> i < plain_end(ls, i),
        forall|k: int| i <= k < plain_end(ls, i) ==> !(#[trigger] ls[k]).code,
        plain_end(ls, i) < ls.len() ==> ls[plain_end(ls, i)].code,
    decreases ls.len() - i,
{
    if i < ls.len() && !ls[i].code {
        lemma_plain_end(ls, i + 1);
    }
}

/// The message that converted lines make up. Line feeds at its end are dropped.
pub open spec fn assemble(ls: Seq<Piece>) -> Seq<char> {
    trim_end_newlines(text::join(parts_from(ls, 0), "\n"@))
}

/// The text in Slack's markup.
pub open spec fn mrkdwn(s: Seq<char>) -> Seq<char> {
    if s.len() == 0 {
        Seq::empty()
    } else {
        assemble(convert_lines(text::split(s, '\n')))
    }
}

/// The message that an ASCII text becomes: the upper case form of the text of
/// its headers differs from that in the letters only.
pub open spec fn ascii_mrkdwn(s: Seq<char>) -> Seq<char> {
    if s.len() == 0 {
        Seq::empty()
    } else {
        assemble(convert_ascii_lines(text::split(s, '\n')))
    }
}

/// Writes the bold line of a header, given the parts of its title and the upper
/// case form of each of them.
pub fn format_header(level: usize, parts: &Vec<ConvertedLine>, uppers: &Vec<String>) -> (r: String)
    requires
        parts.len() == uppers.len(),
    ensures
        r@ == header_markup(level as int, pieces(parts@), text::strings(uppers@)),
{
    let ghost ps = pieces(parts@);
    let ghost us = if level <= 2 {
        text::strings(uppers@)
    } else {
        chars_in(ps)
    };
    let mut out = String::new();
    out.push('*');
    let mut i: usize = 0;
    proof {
        assert(out@ == seq!['*'] + spelled(ps.take(0), us));
    }
    while i < parts.len()
        invariant
            i <= parts.len(),
            parts.len() == uppers.len(),
            ps == pieces(parts@),
            us == if level <= 2 {
                text::strings(uppers@)
            } else {
                chars_in(ps)
            },
            out@ == seq!['*'] + spelled(ps.take(i as int), us),
        decreases parts.len() - i,
    {
        let ghost before = out@;
        proof {
            assert(ps.take(i + 1).drop_last() == ps.take(i as int));
            assert(ps[i as int] == parts@[i as int]@);
        }
        if parts[i].code || level > 2 {
            text::push_chars(&mut out, parts[i].chars.as_slice());
        } else {
            text::push_str(&mut out, uppers[i].as_str());
        }
        proof {
            assert(out@ == before + if ps[i as int].code {
                ps[i as int].chars
            } else {
                us[i as int]
            });
            assert(out@ == seq!['*'] + spelled(ps.take(i + 1), us));
        }
        i += 1;
    }
    proof {
        assert(ps.take(i as int) == ps);
    }
    out.push('*');
    out
}

/// Takes a title apart at its inline code.
fn title_parts_of(t: &[char]) -> (r: Vec<ConvertedLine>)
    ensures
        pieces(r@) == title_parts(t@, 0),
{
    let mut out: Vec<ConvertedLine> = Vec::new();
    let mut i: usize = 0;
    proof {
        assert(pieces(out@) + title_parts(t@, 0) == title_parts(t@, 0));
    }
    while i < t.len()
        invariant
            i <= t.len(),
            pieces(out@) + title_parts(t@, i as int) == title_parts(t@, 0),
        decreases t.len() - i,
    {
        let ghost before = pieces(out@);
        let ghost at = i as int;
        proof {
            lemma_text_end(t@, at);
        }
        let found = spans::find_code_span(t, i);
        let (e, code): (usize, bool) = match found {
            Some(e) => (e, true),
            None => (find_text_end(t, i), false),
        };
        let part = ConvertedLine {
            chars: vstd::slice::slice_to_vec(vstd::slice::slice_subrange(t, i, e)),
            code,
        };
        let ghost p = part@;
        out.push(part);
        i = e;
        proof {
            assert(pieces(out@) == before.push(p));
            assert(title_parts(t@, at) == seq![p] + title_parts(t@, i as int));
            assert(pieces(out@) + title_parts(t@, i as int) == before + title_parts(t@, at));
        }
    }
    proof {
        assert(pieces(out@) + title_parts(t@, i as int) == pieces(out@));
    }
    out
}

/// Finds the first position at or after `i` where inline code begins.
fn find_text_end(t: &[char], i: usize) -> (r: usize)
    requires
        i <= t@.len(),
    ensures
        r == text_end(t@, i as int),
        i <= r <= t@.len(),
{
    let mut k: usize = i;
    while k < t.len() && spans::find_code_span(t, k).is_none()
        invariant
            i <= k <= t.len(),
            text_end(t@, k as int) == text_end(t@, i as int),
        decreases t.len() - k,
    {
        if t[k] == '`' {
            k = spans::find_ticks_end(t, k);
        } else {
            k += 1;
        }
    }
    k
}

/// Each part of the title is ASCII text.
pub open spec fn ascii_parts(parts: Seq<Piece>) -> bool {
    forall|i: int| 0 <= i < parts.len() ==> outside::ascii((#[trigger] parts[i]).chars)
}

/// Writes the bold line of a header. The upper case form of ASCII text differs
/// from it in its letters only.
pub fn bold_header(level: usize, title: &str) -> (r: String)
    ensures
        r@ == header_line(level as int, title@),
        ascii_parts(title_parts(title@, 0)) ==> r@ == ascii_header(level as int, title@),
{
    let chars = text::chars_of(title);
    let parts = title_parts_of(chars.as_slice());
    let ghost ps = pieces(parts@);
    let mut uppers: Vec<String> = Vec::new();
    let mut i: usize = 0;
    while i < parts.len()
        invariant
            i <= parts.len(),
            uppers.len() == i,
            ps == pieces(parts@),
            forall|k: int|
                0 <= k < i ==> (#[trigger] uppers@[k])@ == outside::uppercase(ps[k].chars) && (
                outside::ascii(ps[k].chars) ==> uppers@[k]@ == outside::ascii_uppercase(
                    ps[k].chars,
                )),
        decreases parts.len() - i,
    {
        let part = text::string_of(parts[i].chars.as_slice());
        proof {
            assert(ps[i as int] == parts@[i as int]@);
        }
        uppers.push(outside::to_uppercase(part.as_str()));
        i += 1;
    }
    proof {
        assert(text::strings(uppers@) == upper_forms(ps));
        if ascii_parts(ps) {
            assert(text::strings(uppers@) == ascii_forms(ps));
        }
    }
    format_header(level, &parts, &uppers)
}

/// The fence line in the form that Slack knows.
fn slack_fence_of(line: &[char]) -> (r: Vec<char>)
    ensures
        r@ == slack_fence(line@),
{
    let n: usize = line.len();
    if text::is_at(text::trim_start_of(line), 0, "~~~") {
        proof {
            reveal_strlit("~~~");
            reveal_strlit("```");
        }
        if let Some(k) = text::find_in(line, "~~~", 0) {
            let mut out: Vec<char> = Vec::new();
            text::extend(&mut out, vstd::slice::slice_subrange(line, 0, k));
            text::extend_str(&mut out, "```");
            text::extend(&mut out, vstd::slice::slice_subrange(line, k + 3, n));
            return out;
        }
    }
    vstd::slice::slice_to_vec(line)
}

/// What each character of a header line is, each character of the parts of its
/// title is.
pub proof fn lemma_title_each(line: Seq<char>, p: spec_fn(char) -> bool, k: int)
    requires
        text::each(line, p),
        is_header(line),
        0 <= k < title_parts(header_title(line), 0).len(),
    ensures
        text::each(title_parts(header_title(line), 0)[k].chars, p),
{
    reveal_strlit("**");
    reveal_strlit("__");
    let rest = line.skip(hashes(line));
    let start = text::trim_start(rest);
    let bare = text::trim(rest);
    assert(text::each(rest, p));
    crate::laws::lemma_trim_start(rest);
    assert(text::each(start, p));
    crate::laws::lemma_trim_end(start);
    assert(text::each(bare, p));
    lines::lemma_pairs_each(bare, "**"@, p);
    lines::lemma_pairs_each(lines::without_pairs(bare, "**"@), "__"@, p);
    lemma_parts_each(header_title(line), p, 0, k);
}

/// What each character of a title is, each character of its parts is.
proof fn lemma_parts_each(t: Seq<char>, p: spec_fn(char) -> bool, i: int, k: int)
    requires
        text::each(t, p),
        0 <= i <= t.len(),
        0 <= k < title_parts(t, i).len(),
    ensures
        text::each(title_parts(t, i)[k].chars, p),
    decreases t.len() - i,
{
    if i < t.len() {
        spans::lemma_code_span(t, i);
        lemma_text_end(t, i);
        let e = if spans::code_span(t, i) is Some {
            spans::code_span(t, i)->0
        } else {
            text_end(t, i)
        };
        if k > 0 {
            lemma_parts_each(t, p, e, k - 1);
        }
    }
}

/// The parts of the title of an ASCII line are ASCII text.
proof fn lemma_title_ascii(line: Seq<char>)
    requires
        outside::ascii(line),
        is_header(line),
    ensures
        ascii_parts(title_parts(header_title(line), 0)),
{
    let parts = title_parts(header_title(line), 0);
    let p = |c: char| (c as u32) < 128;
    assert(text::each(line, p));
    assert forall|k: int| 0 <= k < parts.len() implies outside::ascii(
        (#[trigger] parts[k]).chars,
    ) by {
        lemma_title_each(line, p, k);
        let t = parts[k].chars;
        assert forall|j: int| 0 <= j < t.len() implies (#[trigger] t[j] as u32) < 128 by {
            assert(p(t[j]));
        }
    }
}

/// Converts a line outside of code blocks.
fn plain_line_of(line: &[char]) -> (r: Vec<char>)
    ensures
        r@ == plain_line(line@),
        outside::ascii(line@) ==> r@ == ascii_line(line@),
{
    let trimmed = text::string_of(text::trim_start_of(line));
    if lines::is_horizontal_rule(trimmed.as_str()) {
        return text::chars_of("───────────────────────");
    }
    let level: usize = text::count_leading(line, '#');
    if level > 0 && level < line.len() && line[level] == ' ' {
        let rest = vstd::slice::slice_subrange(line, level, line.len());
        let title = lines::strip_inline_bold(text::string_of(text::trim_of(rest)).as_str());
        proof {
            if outside::ascii(line@) {
                lemma_title_ascii(line@);
            }
        }
        let formatted = bold_header(level, title.as_str());
        return text::chars_of(formatted.as_str());
    }
    let whole = text::string_of(line);
    let out = spans::convert_inline_formatting(whole.as_str());
    let item = lines::convert_list_item(out.as_str());
    text::chars_of(item.as_str())
}

/// A line that was converted by itself.
#[derive(Debug)]
pub struct ConvertedLine {
    /// The characters of the line.
    pub chars: Vec<char>,
    /// Whether the line belongs to a code block.
    pub code: bool,
}

impl View for ConvertedLine {
    type V = Piece;

    open spec fn view(&self) -> Piece {
        Piece { chars: self.chars@, code: self.code }
    }
}

/// The lines, as contracts speak of them.
pub open spec fn pieces(v: Seq<ConvertedLine>) -> Seq<Piece> {
    v.map_values(|l: ConvertedLine| l@)
}

/// Finds the kind of fence that the line is.
fn kind_of(line: &[char]) -> (r: Option<Fence>)
    ensures
        r == fence_of(line@),
{
    let t = text::trim_start_of(line);
    if text::is_at(t, 0, "```") {
        Some(Fence::Backticks)
    } else if text::is_at(t, 0, "~~~") {
        Some(Fence::Tildes)
    } else {
        None
    }
}

/// Counts the marks with which a fence of the given kind begins.
fn count_marks(line: &[char], f: Fence) -> (n: usize)
    ensures
        n == fence_len(line@, f),
{
    let mark: char = match f {
        Fence::Backticks => '`',
        Fence::Tildes => '~',
    };
    text::count_leading(text::trim_start_of(line), mark)
}

/// Finds the kind of fence with which the line can open a code block.
fn opening_of(line: &[char]) -> (r: Option<Fence>)
    ensures
        r == opening(line@),
{
    match kind_of(line) {
        Some(Fence::Backticks) => if fences::is_single_run(text::trim_start_of(line)) {
            Some(Fence::Backticks)
        } else {
            None
        },
        other => other,
    }
}

/// Converts each line by itself.
fn convert_lines_of(ls: &Vec<Vec<char>>) -> (r: Vec<ConvertedLine>)
    ensures
        pieces(r@) == convert_lines(text::texts(ls@)),
        ascii_lines(text::texts(ls@)) ==> pieces(r@) == convert_ascii_lines(text::texts(ls@)),
{
    let ghost view = text::texts(ls@);
    let ghost all = convert_lines(view);
    let mut result: Vec<ConvertedLine> = Vec::new();
    let mut within: Option<(Fence, usize)> = None;
    let mut k: usize = 0;
    while k < ls.len()
        invariant
            k <= ls.len(),
            view == text::texts(ls@),
            all == convert_lines(view),
            block(view, k as int) == match within {
                Some((f, len)) => Some((f, len as int)),
                None => None,
            },
            pieces(result@) == all.take(k as int),
            forall|j: int|
                0 <= j < k && outside::ascii(view[j]) ==> #[trigger] all[j]
                    == convert_ascii_lines(view)[j],
        decreases ls.len() - k,
    {
        let ghost before = pieces(result@);
        let line = ls[k].as_slice();
        proof {
            assert(line@ == view[k as int]);
        }
        let next = match within {
            Some((f, len)) => {
                let same = match kind_of(line) {
                    Some(g) => f == g,
                    None => false,
                };
                if same && count_marks(line, f) >= len {
                    within = None;
                    ConvertedLine { chars: slack_fence_of(line), code: true }
                } else {
                    ConvertedLine { chars: vstd::slice::slice_to_vec(line), code: true }
                }
            },
            None => {
                let opened = opening_of(line);
                if let Some(f) = opened {
                    within = Some((f, count_marks(line, f)));
                    ConvertedLine { chars: slack_fence_of(line), code: true }
                } else {
                    ConvertedLine { chars: plain_line_of(line), code: false }
                }
            },
        };
        proof {
            assert(next@ == all[k as int]);
            if outside::ascii(view[k as int]) {
                assert(next@ == convert_ascii_lines(view)[k as int]);
            }
        }
        result.push(next);
        proof {
            assert(pieces(result@) == before.push(all[k as int]));
            assert(all.take(k + 1) == all.take(k as int).push(all[k as int]));
        }
        k += 1;
    }
    proof {
        assert(all.take(k as int) == all);
        if ascii_lines(view) {
            assert(all == convert_ascii_lines(view)) by {
                assert forall|j: int| 0 <= j < all.len() implies all[j] == convert_ascii_lines(
                    view,
                )[j] by {
                    assert(outside::ascii(view[j]));
                }
            }
        }
    }
    result
}

/// Makes a text of lines outside of code blocks.
fn polish_of(ls: &Vec<Vec<char>>) -> (r: Vec<char>)
    ensures
        r@ == polish(text::texts(ls@)),
{
    let joined = text::string_of(text::join_with(ls, "\n").as_slice());
    let after_tables = tables::convert_tables(joined.as_str());
    let after_urls = urls::wrap_bare_urls(after_tables.as_str());
    let escaped = entities::escape_slack_entities(after_urls.as_str());
    text::chars_of(escaped.as_str())
}

/// The parts of the message that converted lines make up.
fn parts_of(ls: &Vec<ConvertedLine>) -> (r: Vec<Vec<char>>)
    ensures
        text::texts(r@) == parts_from(pieces(ls@), 0),
{
    let ghost all = pieces(ls@);
    let mut out: Vec<Vec<char>> = Vec::new();
    let mut i: usize = 0;
    proof {
        assert(text::texts(out@) + parts_from(all, 0) == parts_from(all, 0));
    }
    while i < ls.len()
        invariant
            i <= ls.len(),
            all == pieces(ls@),
            text::texts(out@) + parts_from(all, i as int) == parts_from(all, 0),
        decreases ls.len() - i,
    {
        let ghost before = text::texts(out@);
        let ghost start = i as int;
        proof {
            lemma_plain_end(all, start);
            assert(all[start] == ls@[start]@);
        }
        let part: Vec<char>;
        if ls[i].code {
            part = vstd::slice::slice_to_vec(ls[i].chars.as_slice());
            i += 1;
        } else {
            let mut run: Vec<Vec<char>> = Vec::new();
            proof {
                assert(text::texts(run@) == chars_in(all.subrange(start, start)));
            }
            while i < ls.len() && !ls[i].code
                invariant
                    0 <= start <= i <= ls.len(),
                    all == pieces(ls@),
                    text::texts(run@) == chars_in(all.subrange(start, i as int)),
                    plain_end(all, i as int) == plain_end(all, start),
                decreases ls.len() - i,
            {
                let ghost earlier = text::texts(run@);
                run.push(vstd::slice::slice_to_vec(ls[i].chars.as_slice()));
                proof {
                    assert(all[i as int] == ls@[i as int]@);
                    assert(text::texts(run@) == earlier.push(all[i as int].chars));
                    assert(chars_in(all.subrange(start, i + 1)) == earlier.push(
                        all[i as int].chars,
                    ));
                }
                i += 1;
            }
            proof {
                if i < ls.len() {
                    assert(all[i as int] == ls@[i as int]@);
                }
                assert(plain_end(all, i as int) == i);
            }
            part = polish_of(&run);
        }
        let ghost t = part@;
        out.push(part);
        proof {
            assert(text::texts(out@) == before.push(t));
            assert(parts_from(all, start) == seq![t] + parts_from(all, i as int));
            assert(text::texts(out@) + parts_from(all, i as int) == before + parts_from(all, start));
        }
    }
    proof {
        assert(text::texts(out@) + parts_from(all, i as int) == text::texts(out@));
    }
    out
}

/// Makes the message out of lines that were converted one by one.
pub fn assemble_message(ls: &Vec<ConvertedLine>) -> (r: String)
    ensures
        r@ == assemble(pieces(ls@)),
{
    let parts = parts_of(ls);
    let chars = text::join_with(&parts, "\n");
    let mut n: usize = chars.len();
    proof {
        assert(chars@.take(n as int) == chars@);
    }
    while n > 0 && chars[n - 1] == '\n'
        invariant
            n <= chars.len(),
            trim_end_newlines(chars@.take(n as int)) == trim_end_newlines(chars@),
        decreases n,
    {
        proof {
            assert(chars@.take(n as int).take(n - 1) == chars@.take(n - 1));
        }
        n -= 1;
    }
    text::string_of(vstd::slice::slice_subrange(chars.as_slice(), 0, n))
}

/// The lines of an ASCII text are ASCII text.
proof fn lemma_lines_ascii(s: Seq<char>)
    requires
        outside::ascii(s),
    ensures
        ascii_lines(text::split(s, '\n')),
{
    let ls = text::split(s, '\n');
    let p = |c: char| (c as u32) < 128;
    assert(text::each(s, p));
    assert forall|k: int| 0 <= k < ls.len() implies outside::ascii(#[trigger] ls[k]) by {
        text::lemma_split_each(s, '\n', p, k);
        assert forall|j: int| 0 <= j < ls[k].len() implies (#[trigger] ls[k][j] as u32) < 128 by {
            assert(p(ls[k][j]));
        }
    }
}

/// Converts standard Markdown formatting to Slack mrkdwn.
///
/// Handles: bold (`**` / `__`), italic (`*` becomes `_`), bold-italic (`***`),
/// strikethrough (`~~`), headers (`#`), links (`[text](url)`), images
/// (`![alt](url)`), bullet points (`-` / `*`), bare URLs, and tables. Code
/// blocks and inline code are preserved verbatim.
pub fn markdown_to_slack_mrkdwn(s: &str) -> (r: String)
    ensures
        r@ == mrkdwn(s@),
        outside::ascii(s@) ==> r@ == ascii_mrkdwn(s@),
{
    let chars = text::chars_of(s);
    if chars.len() == 0 {
        return String::new();
    }
    let ls = text::split_on(chars.as_slice(), '\n');
    proof {
        if outside::ascii(s@) {
            lemma_lines_ascii(s@);
        }
    }
    assemble_message(&convert_lines_of(&ls))
}

} // verus!
