//! Slack's own syntax in angle brackets.

use vstd::prelude::*;
use crate::mrkdwn::spans;
use crate::text;

verus! {

/// After a `<`, the text from `i` on shows that the bracket opens Slack
/// syntax: a link, an e-mail address, a mention or a command.
pub open spec fn slack_syntax_at(s: Seq<char>, i: int) -> bool {
    ||| text::occurs_at(s, i, "http://"@)
    ||| text::occurs_at(s, i, "https://"@)
    ||| text::occurs_at(s, i, "mailto:"@)
    ||| i < s.len() && (s[i] == '@' || s[i] == '#' || s[i] == '!')
}

/// The end of the Slack syntax `<...>` that opens at `i`: the position after
/// its closing bracket, which stands outside of inline code.
pub open spec fn bracket_end(s: Seq<char>, i: int) -> Option<int> {
    if s[i] == '<' && slack_syntax_at(s, i + 1) {
        match spans::closing(s, seq!['>'], i + 1) {
            Some(e) => Some(e + 1),
            None => None,
        }
    } else {
        None
    }
}

/// Slack syntax lies within the line.
pub proof fn lemma_bracket_end(s: Seq<char>, i: int)
    requires
        0 <= i < s.len(),
    ensures
        bracket_end(s, i) matches Some(e) ==> i + 1 < e <= s.len() && s[e - 1] == '>',
{
    spans::lemma_closing(s, seq!['>'], i + 1);
    if let Some(e) = spans::closing(s, seq!['>'], i + 1) {
        assert(s.subrange(e, e + 1)[0] == '>');
    }
}

/// Whether the text from `i` on, after a `<`, is Slack syntax.
fn is_slack_syntax_at(s: &[char], i: usize) -> (r: bool)
    requires
        i <= s@.len(),
    ensures
        r == slack_syntax_at(s@, i as int),
{
    text::is_at(s, i, "http://") || text::is_at(s, i, "https://") || text::is_at(s, i, "mailto:")
        || (i < s.len() && (s[i] == '@' || s[i] == '#' || s[i] == '!'))
}

/// Finds the end of the Slack syntax that opens at `i`.
pub fn find_bracket_end(s: &[char], i: usize) -> (r: Option<usize>)
    requires
        i < s@.len(),
    ensures
        match r {
            Some(e) => bracket_end(s@, i as int) == Some(e as int) && i < e <= s@.len(),
            None => bracket_end(s@, i as int) is None,
        },
{
    proof {
        reveal_strlit(">");
        assert(">"@ == seq!['>']);
    }
    if s[i] == '<' && is_slack_syntax_at(s, i + 1) {
        match spans::find_closing_marker(s, i + 1, ">") {
            Some(e) => Some(e + 1),
            None => None,
        }
    } else {
        None
    }
}

} // verus!
