//! Fenced code blocks: which lines of a text belong to one.

use vstd::prelude::*;
use crate::mrkdwn::spans;
use crate::text;

verus! {

/// The line is a fence of Slack's: after white space it begins with three
/// backticks.
pub open spec fn backtick_fence(line: Seq<char>) -> bool {
    text::starts_with(text::trim(line), "```"@)
}

/// The text holds no backtick behind the run that it begins with.
pub open spec fn single_run(t: Seq<char>) -> bool {
    text::find_char(t, '`', spans::tick_run(t, 0)) is None
}

/// The line is a fence that can open a code block of Slack's: one that holds a
/// further backtick is inline code.
pub open spec fn opening_fence(line: Seq<char>) -> bool {
    backtick_fence(line) && single_run(text::trim_start(line))
}

/// The number of backticks with which the line begins, after white space.
pub open spec fn fence_len(line: Seq<char>) -> int {
    text::leading(text::trim_start(line), '`')
}

/// The length of the fence that opened the block in which line `k` stands, or
/// nothing outside of blocks. The next fence that is as long or longer closes a
/// block.
pub open spec fn open_len(lines: Seq<Seq<char>>, k: int) -> int
    decreases k,
{
    if k <= 0 {
        0
    } else if open_len(lines, k - 1) > 0 {
        if fence_len(lines[k - 1]) >= open_len(lines, k - 1) {
            0
        } else {
            open_len(lines, k - 1)
        }
    } else if opening_fence(lines[k - 1]) {
        fence_len(lines[k - 1])
    } else {
        0
    }
}

/// Line `k` belongs to a fenced code block, its fences included.
pub open spec fn fenced(lines: Seq<Seq<char>>, k: int) -> bool {
    open_len(lines, k) > 0 || opening_fence(lines[k])
}

/// The lines with `f` applied to each one that does not belong to a fenced
/// code block.
pub open spec fn map_unfenced(
    lines: Seq<Seq<char>>,
    f: spec_fn(Seq<char>) -> Seq<char>,
) -> Seq<Seq<char>> {
    Seq::new(
        lines.len(),
        |k: int|
            if fenced(lines, k) {
                lines[k]
            } else {
                f(lines[k])
            },
    )
}

/// The text with `f` applied to each line that does not belong to a fenced
/// code block.
pub open spec fn outside_fences(s: Seq<char>, f: spec_fn(Seq<char>) -> Seq<char>) -> Seq<char> {
    text::join(map_unfenced(text::split(s, '\n'), f), "\n"@)
}

/// Counts the backticks with which the line begins, after white space.
pub fn count_fence(line: &[char]) -> (n: usize)
    ensures
        n == fence_len(line@),
{
    text::count_leading(text::trim_start_of(line), '`')
}

/// Whether the line is a fence of Slack's.
fn is_backtick_fence(line: &[char]) -> (r: bool)
    ensures
        r == backtick_fence(line@),
{
    text::is_at(text::trim_of(line), 0, "```")
}

/// Whether the text holds no backtick behind the run that it begins with.
pub fn is_single_run(t: &[char]) -> (r: bool)
    ensures
        r == single_run(t@),
{
    text::find_char_in(t, '`', spans::count_ticks(t, 0)).is_none()
}

/// Whether the line is a fence that can open a code block of Slack's.
pub fn is_opening_fence(line: &[char]) -> (r: bool)
    ensures
        r == opening_fence(line@),
{
    is_backtick_fence(line) && is_single_run(text::trim_start_of(line))
}

} // verus!
