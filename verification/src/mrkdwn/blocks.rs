//! Code blocks in the passes on web addresses and control characters.

use vstd::prelude::*;
use crate::mrkdwn::brackets;
use crate::mrkdwn::entities;
use crate::mrkdwn::fences;
use crate::mrkdwn::laws;
use crate::mrkdwn::messages;
use crate::mrkdwn::pages;
use crate::mrkdwn::phrases;
use crate::mrkdwn::remnants;
use crate::mrkdwn::urls;
use crate::text;

verus! {

/// The lines hold no backticks.
pub open spec fn tickless(ls: Seq<Seq<char>>) -> bool {
    forall|k: int| 0 <= k < ls.len() ==> no_ticks(#[trigger] ls[k])
}

/// The line holds no backtick.
pub open spec fn no_ticks(l: Seq<char>) -> bool {
    forall|j: int| 0 <= j < l.len() ==> #[trigger] l[j] != '`' && l[j] != '\n'
}

/// A line without backticks opens no block.
proof fn lemma_no_fence(l: Seq<char>)
    requires
        no_ticks(l),
    ensures
        !fences::opening_fence(l),
        messages::single(l),
{
    reveal_strlit("```");
    let t = text::trim(l);
    crate::laws::lemma_trim_start(l);
    crate::laws::lemma_trim_end(text::trim_start(l));
    if fences::backtick_fence(l) {
        let u = text::trim_start(l);
        assert(t.subrange(0, 3)[0] == t[0]);
        assert(t[0] == u[0]);
        assert(u[0] == l[l.len() - u.len()]);
    }
}

/// A line by itself, without backticks.
proof fn lemma_one_line(l: Seq<char>, f: spec_fn(Seq<char>) -> Seq<char>)
    requires
        no_ticks(l),
    ensures
        fences::outside_fences(l, f) == f(l),
{
    lemma_no_fence(l);
    lemma_line_alone(l, f);
}

/// A line by itself that is no fence.
pub proof fn lemma_line_alone(l: Seq<char>, f: spec_fn(Seq<char>) -> Seq<char>)
    requires
        messages::single(l),
        !fences::opening_fence(l),
    ensures
        fences::outside_fences(l, f) == f(l),
{
    let ls = seq![l];
    reveal_with_fuel(text::join, 2);
    assert(text::join(ls, "\n"@) == l);
    messages::lemma_split_lines(ls);
    assert(fences::open_len(ls, 0) == 0);
    assert(!fences::fenced(ls, 0));
    assert(fences::map_unfenced(ls, f) == seq![f(l)]);
}

/// The lines of a code block between others.
pub open spec fn framed(
    pre: Seq<Seq<char>>,
    n: nat,
    more: nat,
    info: Seq<char>,
    code: Seq<Seq<char>>,
    post: Seq<Seq<char>>,
) -> Seq<Seq<char>> {
    pre + (seq![phrases::ticks(n) + info] + code + seq![phrases::ticks(n + more)]) + post
}

/// The lines, each one converted by itself.
pub open spec fn each_line(ls: Seq<Seq<char>>, f: spec_fn(Seq<char>) -> Seq<char>) -> Seq<
    Seq<char>,
> {
    Seq::new(ls.len(), |k: int| f(ls[k]))
}

/// Which lines belong to the block.
#[verifier::rlimit(30)]
proof fn lemma_framed(
    pre: Seq<Seq<char>>,
    n: nat,
    more: nat,
    info: Seq<char>,
    code: Seq<Seq<char>>,
    post: Seq<Seq<char>>,
    k: int,
)
    requires
        tickless(pre) && tickless(post),
        n >= 3 && messages::single(info) && !info.contains('`'),
        forall|i: int| 0 <= i < code.len() ==> pages::inner(#[trigger] code[i], '`', n as int),
        0 <= k <= framed(pre, n, more, info, code, post).len(),
    ensures
        fences::open_len(framed(pre, n, more, info, code, post), k) == if pre.len() < k <= pre.len()
            + 1 + code.len() {
            n as int
        } else {
            0
        },
    decreases k,
{
    let ls = framed(pre, n, more, info, code, post);
    let open = phrases::ticks(n) + info;
    let close = phrases::ticks(n + more);
    let a = pre.len() as int;
    let b = a + 1 + code.len();
    if k > 0 {
        lemma_framed(pre, n, more, info, code, post, k - 1);
        if k - 1 < a {
            assert(ls[k - 1] == pre[k - 1]);
            assert(no_ticks(pre[k - 1]));
            lemma_no_fence(pre[k - 1]);
        } else if k - 1 == a {
            assert(ls[k - 1] == open);
            lemma_fence_line(n, info);
        } else if k - 1 < b {
            let l = code[k - 2 - a];
            assert(ls[k - 1] == l);
            assert(pages::inner(l, '`', n as int));
            let t = text::trim_start(l);
            let j = choose|j: int| 0 <= j < n && #[trigger] pages::ends_run(t, '`', j);
            pages::lemma_leading_ends(t, '`', j);
        } else if k - 1 == b {
            assert(ls[k - 1] == close);
            let none = Seq::<char>::empty();
            lemma_fence_line(n + more, none);
            assert(close + none == close);
        } else {
            let l = post[k - 2 - b];
            assert(ls[k - 1] == l);
            assert(no_ticks(l));
            lemma_no_fence(l);
        }
    }
}

/// A fence of backticks opens a block.
proof fn lemma_fence_line(n: nat, info: Seq<char>)
    requires
        n >= 3 && messages::single(info) && !info.contains('`'),
    ensures
        fences::opening_fence(phrases::ticks(n) + info),
        fences::fence_len(phrases::ticks(n) + info) == n,
        messages::single(phrases::ticks(n) + info),
{
    let l = phrases::ticks(n) + info;
    pages::lemma_tick_fence(n, info);
    reveal_strlit("```");
    assert(l[0] == '`' && l[1] == '`' && l[2] == '`');
    assert(text::trim_start(l) == l);
    crate::laws::lemma_trim_end(l);
    let t = text::trim_end(l);
    lemma_trim_end_keeps(l, 2);
    assert(t.subrange(0, 3) == "```"@);
}

/// Trimming the end keeps what stands up to a solid character.
proof fn lemma_trim_end_keeps(s: Seq<char>, k: int)
    requires
        0 <= k < s.len(),
        !text::white_space(s[k]),
    ensures
        text::trim_end(s).len() > k,
        forall|j: int| 0 <= j <= k ==> #[trigger] text::trim_end(s)[j] == s[j],
    decreases s.len(),
{
    if text::white_space(s[s.len() - 1]) {
        let shorter = s.take(s.len() - 1);
        lemma_trim_end_keeps(shorter, k);
        assert forall|j: int| 0 <= j <= k implies #[trigger] text::trim_end(s)[j] == s[j] by {
            assert(text::trim_end(shorter)[j] == shorter[j]);
        }
    }
}

/// The lines around a code block are converted, and its own lines are kept.
proof fn lemma_passed_over(
    pre: Seq<Seq<char>>,
    n: nat,
    more: nat,
    info: Seq<char>,
    code: Seq<Seq<char>>,
    post: Seq<Seq<char>>,
    f: spec_fn(Seq<char>) -> Seq<char>,
)
    requires
        tickless(pre) && tickless(post),
        n >= 3 && messages::single(info) && !info.contains('`'),
        forall|i: int| 0 <= i < code.len() ==> pages::inner(#[trigger] code[i], '`', n as int),
    ensures
        fences::outside_fences(text::join(framed(pre, n, more, info, code, post), "\n"@), f)
            == text::join(
            framed(each_line(pre, f), n, more, info, code, each_line(post, f)),
            "\n"@,
        ),
{
    let ls = framed(pre, n, more, info, code, post);
    let out = framed(each_line(pre, f), n, more, info, code, each_line(post, f));
    let a = pre.len() as int;
    let b = a + 1 + code.len();
    let none = Seq::<char>::empty();
    lemma_fence_line(n, info);
    lemma_fence_line(n + more, none);
    assert(phrases::ticks(n + more) + none == phrases::ticks(n + more));
    let done = fences::map_unfenced(ls, f);
    assert forall|k: int| 0 <= k < ls.len() implies messages::single(#[trigger] ls[k])
        && done[k] == out[k] by {
        lemma_framed(pre, n, more, info, code, post, k);
        if k < a {
            assert(ls[k] == pre[k] && out[k] == f(pre[k]));
            assert(no_ticks(pre[k]));
            lemma_no_fence(pre[k]);
        } else if k == a {
            assert(ls[k] == phrases::ticks(n) + info && out[k] == ls[k]);
        } else if k < b {
            assert(ls[k] == code[k - 1 - a] && out[k] == ls[k]);
            assert(pages::inner(code[k - 1 - a], '`', n as int));
        } else if k == b {
            assert(ls[k] == phrases::ticks(n + more) && out[k] == ls[k]);
        } else {
            let l = post[k - 1 - b];
            assert(ls[k] == l && out[k] == f(l));
            assert(no_ticks(l));
            lemma_no_fence(l);
        }
    }
    messages::lemma_split_lines(ls);
    assert(done == out);
}

/// Bare web addresses are wrapped in the lines before and behind a code block, each
/// line as if it stood alone, and never in the block.
pub proof fn law_addresses_in_code_blocks_are_kept(
    pre: Seq<Seq<char>>,
    n: nat,
    more: nat,
    info: Seq<char>,
    code: Seq<Seq<char>>,
    post: Seq<Seq<char>>,
)
    requires
        tickless(pre) && tickless(post),
        n >= 3 && messages::single(info) && !info.contains('`'),
        forall|i: int| 0 <= i < code.len() ==> pages::inner(#[trigger] code[i], '`', n as int),
    ensures
        urls::wrap_urls(text::join(framed(pre, n, more, info, code, post), seq!['\n']))
            == text::join(
            framed(
                each_line(pre, |l: Seq<char>| urls::wrap_urls(l)),
                n,
                more,
                info,
                code,
                each_line(post, |l: Seq<char>| urls::wrap_urls(l)),
            ),
            seq!['\n'],
        ),
{
    let f = |l: Seq<char>| urls::wrap_line(l);
    let g = |l: Seq<char>| urls::wrap_urls(l);
    laws::lemma_line_feed();
    lemma_passed_over(pre, n, more, info, code, post, f);
    assert(each_line(pre, f) == each_line(pre, g)) by {
        assert forall|k: int| 0 <= k < pre.len() implies each_line(pre, f)[k] == each_line(
            pre,
            g,
        )[k] by {
            assert(no_ticks(pre[k]));
            lemma_one_line(pre[k], f);
        }
    }
    assert(each_line(post, f) == each_line(post, g)) by {
        assert forall|k: int| 0 <= k < post.len() implies each_line(post, f)[k] == each_line(
            post,
            g,
        )[k] by {
            assert(no_ticks(post[k]));
            lemma_one_line(post[k], f);
        }
    }
}

/// Control characters are escaped in the lines before and behind a code block, each
/// line as if it stood alone, and never in the block.
pub proof fn law_signs_in_code_blocks_are_kept(
    pre: Seq<Seq<char>>,
    n: nat,
    more: nat,
    info: Seq<char>,
    code: Seq<Seq<char>>,
    post: Seq<Seq<char>>,
)
    requires
        tickless(pre) && tickless(post),
        n >= 3 && messages::single(info) && !info.contains('`'),
        forall|i: int| 0 <= i < code.len() ==> pages::inner(#[trigger] code[i], '`', n as int),
    ensures
        entities::escape_entities(
            text::join(framed(pre, n, more, info, code, post), seq!['\n']),
        ) == text::join(
            framed(
                each_line(pre, |l: Seq<char>| entities::escape_entities(l)),
                n,
                more,
                info,
                code,
                each_line(post, |l: Seq<char>| entities::escape_entities(l)),
            ),
            seq!['\n'],
        ),
{
    let f = |l: Seq<char>| entities::escape_line(l);
    let g = |l: Seq<char>| entities::escape_entities(l);
    laws::lemma_line_feed();
    lemma_passed_over(pre, n, more, info, code, post, f);
    assert(each_line(pre, f) == each_line(pre, g)) by {
        assert forall|k: int| 0 <= k < pre.len() implies each_line(pre, f)[k] == each_line(
            pre,
            g,
        )[k] by {
            assert(no_ticks(pre[k]));
            lemma_one_line(pre[k], f);
        }
    }
    assert(each_line(post, f) == each_line(post, g)) by {
        assert forall|k: int| 0 <= k < post.len() implies each_line(post, f)[k] == each_line(
            post,
            g,
        )[k] by {
            assert(no_ticks(post[k]));
            lemma_one_line(post[k], f);
        }
    }
}

/// In a line without backticks and without Slack's syntax each control character
/// becomes its entity, but for the mark of a quote at the start of the line.
pub proof fn law_signs_become_entities(l: Seq<char>)
    requires
        no_ticks(l),
        l.len() > 0,
        forall|j: int| 0 <= j < l.len() && #[trigger] l[j] == '<' ==> j + 1 < l.len() && l[j + 1]
            == ' ',
    ensures
        entities::escape_entities(l) == if l[0] == '>' {
            seq!['>'] + spelled_out(l.skip(1))
        } else {
            spelled_out(l)
        },
{
    let f = |x: Seq<char>| entities::escape_line(x);
    lemma_one_line(l, f);
    let n = l.len() as int;
    if l[0] == '>' {
        lemma_spelled(l, 1);
        assert(entities::escape_step(l, 0) == (seq!['>'], 1int));
    } else {
        lemma_spelled(l, 0);
        assert(l.skip(0) == l);
    }
}

/// The text with an entity for each control character.
pub open spec fn spelled_out(s: Seq<char>) -> Seq<char>
    decreases s.len(),
{
    if s.len() == 0 {
        s
    } else {
        spelled_out(s.drop_last()) + phrases::sign(s.last())
    }
}

/// The text with an entity for each control character, from its start on.
proof fn lemma_spelled_first(s: Seq<char>)
    requires
        s.len() > 0,
    ensures
        spelled_out(s) == phrases::sign(s[0]) + spelled_out(s.skip(1)),
    decreases s.len(),
{
    let rest = s.skip(1);
    if s.len() == 1 {
        assert(spelled_out(s.drop_last()) == Seq::<char>::empty());
        assert(spelled_out(rest) == Seq::<char>::empty());
        assert(s.last() == s[0]);
        assert(Seq::<char>::empty() + phrases::sign(s[0]) == phrases::sign(s[0])
            + Seq::<char>::empty());
    } else {
        lemma_spelled_first(s.drop_last());
        assert(s.drop_last().skip(1) == rest.drop_last());
        assert(rest.last() == s.last());
        assert(s.drop_last()[0] == s[0]);
        assert(phrases::sign(s[0]) + spelled_out(rest.drop_last()) + phrases::sign(s.last())
            == phrases::sign(s[0]) + (spelled_out(rest.drop_last()) + phrases::sign(s.last())));
    }
}

proof fn lemma_spelled(l: Seq<char>, i: int)
    requires
        no_ticks(l),
        0 <= i <= l.len(),
        i == 0 && l.len() > 0 ==> l[0] != '>',
        forall|j: int| 0 <= j < l.len() && #[trigger] l[j] == '<' ==> j + 1 < l.len() && l[j + 1]
            == ' ',
    ensures
        entities::escape_from(l, i) == spelled_out(l.skip(i)),
    decreases l.len() - i,
{
    if i < l.len() {
        lemma_spelled(l, i + 1);
        assert(l[i] != '`');
        assert(l[i] == '<' ==> l[i + 1] == ' ');
        phrases::lemma_escape_sign(l, i, l[i]);
        lemma_spelled_first(l.skip(i));
        assert(l.skip(i).skip(1) == l.skip(i + 1));
        assert(l.skip(i)[0] == l[i]);
    } else {
        assert(l.skip(i) == Seq::<char>::empty());
    }
}

/// In a line without backticks, an opening bracket that nothing closes is escaped,
/// whatever stands behind it.
pub proof fn law_open_brackets_are_escaped(l: Seq<char>)
    requires
        no_ticks(l),
        !l.contains('>'),
    ensures
        entities::escape_entities(l) == spelled_out(l),
{
    let f = |x: Seq<char>| entities::escape_line(x);
    lemma_one_line(l, f);
    assert forall|k: int| 0 <= k < l.len() implies #[trigger] l[k] != '>' by {
        assert(l.contains(l[k]));
    }
    lemma_open_brackets(l, 0);
    assert(l.skip(0) == l);
}

proof fn lemma_open_brackets(l: Seq<char>, i: int)
    requires
        no_ticks(l),
        0 <= i <= l.len(),
        forall|k: int| 0 <= k < l.len() ==> #[trigger] l[k] != '>',
    ensures
        entities::escape_from(l, i) == spelled_out(l.skip(i)),
    decreases l.len() - i,
{
    reveal_strlit("&amp;");
    reveal_strlit("&lt;");
    reveal_strlit("&gt;");
    if i < l.len() {
        lemma_open_brackets(l, i + 1);
        assert(l[i] != '`');
        remnants::lemma_not_closed(l, seq!['>'], i + 1);
        assert(brackets::bracket_end(l, i) is None);
        assert(entities::entity(l[i]) == phrases::sign(l[i]));
        assert(entities::escape_step(l, i) == (phrases::sign(l[i]), i + 1));
        lemma_spelled_first(l.skip(i));
        assert(l.skip(i).skip(1) == l.skip(i + 1));
        assert(l.skip(i)[0] == l[i]);
    } else {
        assert(l.skip(i) == Seq::<char>::empty());
    }
}

} // verus!
