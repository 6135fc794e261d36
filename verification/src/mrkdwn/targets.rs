//! The targets of links.

use vstd::prelude::*;
use crate::mrkdwn::blocks;
use crate::mrkdwn::constructs;
use crate::mrkdwn::pages;
use crate::mrkdwn::phrases;
use crate::mrkdwn::spans;
use crate::mrkdwn::urls;
use crate::promises::words;
use crate::text;

verus! {

/// The characters that stand around the title of a link.
pub open spec fn title_marks(open: char, close: char) -> bool {
    open == '"' && close == '"' || open == '\'' && close == '\'' || open == '(' && close == ')'
}

/// Of what stands in the parentheses of a link the title and the white space around
/// everything are dropped: the target stays.
pub proof fn law_titles_of_links_are_dropped(
    left: Seq<char>,
    target: Seq<char>,
    gap: Seq<char>,
    open: char,
    title: Seq<char>,
    close: char,
    right: Seq<char>,
)
    requires
        words::blank(left) && words::blank(gap) && words::blank(right),
        words::bare(target),
        gap.len() > 0,
        title_marks(open, close),
        !title.contains(open),
    ensures
        spans::link_url(left + (target + gap + seq![open] + title + seq![close]) + right) == target,
{
    let t = target + gap + seq![open] + title + seq![close];
    assert(t[0] == target[0]);
    assert(t[t.len() - 1] == close);
    assert(left + t + right == words::padded(left, t, right));
    words::law_trim_gives_what_is_padded(left, t, right);
    assert(t.last() == close);
    let w = t.drop_last();
    let k = (target.len() + gap.len()) as int;
    assert(w[k] == open);
    assert forall|j: int| k < j < w.len() implies #[trigger] w[j] != open by {
        assert(w[j] == title[j - k - 1]);
        assert(title.contains(title[j - k - 1]));
    }
    phrases::lemma_found_last(w, open, w.len() as int, k);
    let last = gap.len() - 1;
    assert(text::white_space(gap[last]));
    assert(w[k - 1] == gap[last]);
    let less = gap.take(last);
    assert forall|j: int| 0 <= j < less.len() implies text::white_space(#[trigger] less[j]) by {
        assert(less[j] == gap[j]);
    }
    assert(w.take(k - 1) == target + less);
    words::lemma_trim_end(target, less);
}

/// A target without a title stays as it is, but for white space around it.
pub proof fn law_targets_of_links_are_kept(left: Seq<char>, target: Seq<char>, right: Seq<char>)
    requires
        words::blank(left) && words::blank(right),
        words::bare(target),
        forall|k: int| 0 <= k < target.len() ==> !text::white_space(#[trigger] target[k]),
    ensures
        spans::link_url(left + target + right) == target,
{
    assert(left + target + right == words::padded(left, target, right));
    words::law_trim_gives_what_is_padded(left, target, right);
    let w = target.drop_last();
    if spans::title_opener(target.last()) is Some {
        let o = spans::title_opener(target.last())->0;
        if let Some(k) = text::rfind_char(w, o, w.len() as int) {
            if k > 0 {
                lemma_found_within(w, o, w.len() as int);
                assert(w[k - 1] == target[k - 1]);
            }
        }
    }
}

proof fn lemma_found_within(s: Seq<char>, c: char, upto: int)
    requires
        0 <= upto <= s.len(),
    ensures
        text::rfind_char(s, c, upto) matches Some(k) ==> 0 <= k < upto,
    decreases upto,
{
    if upto > 0 && s[upto - 1] != c {
        lemma_found_within(s, c, upto - 1);
    }
}

/// A link to a web address keeps its address and its label; of any other link the
/// label stays.
pub proof fn law_links_are_written(rest: Seq<char>, other: Seq<char>, label: Seq<char>)
    requires
        !phrases::web(other),
    ensures
        ({
            let a = seq!['h', 't', 't', 'p', ':', '/', '/'] + rest;
            let b = seq!['h', 't', 't', 'p', 's', ':', '/', '/'] + rest;
            &&& spans::link_markup(a, label) == seq!['<'] + a + seq!['|'] + label + seq!['>']
            &&& spans::link_markup(b, label) == seq!['<'] + b + seq!['|'] + label + seq!['>']
            &&& spans::link_markup(other, label) == label
        }),
{
    let a = seq!['h', 't', 't', 'p', ':', '/', '/'] + rest;
    let b = seq!['h', 't', 't', 'p', 's', ':', '/', '/'] + rest;
    assert(phrases::web(a));
    assert(phrases::web(b));
    phrases::lemma_web(a);
    phrases::lemma_web(b);
    phrases::lemma_web(other);
}

/// A web address goes on up to the first character that ends it, or up to inline
/// code.
proof fn lemma_address_goes_to(s: Seq<char>, i: int, n: int)
    requires
        0 <= i <= n <= s.len(),
        forall|k: int| i <= k < n ==> #[trigger] s[k] != '`' && !urls::ends_url(s[k]),
        n < s.len() ==> urls::ends_url(s[n]) || spans::code_span(s, n) is Some,
    ensures
        urls::url_end(s, None, i) == n,
    decreases n - i,
{
    if i < n {
        assert(s[i] != '`' && !urls::ends_url(s[i]));
        assert(spans::code_span(s, i) is None);
        lemma_address_goes_to(s, i + 1, n);
    }
}

/// What stands behind a bare web address and ends it.
pub enum Stop {
    /// White space, a bracket or a bar.
    Mark(char),
    /// Inline code.
    Code(nat, Seq<char>),
}

/// The stop as it is written.
pub open spec fn stop(e: Stop) -> Seq<char> {
    match e {
        Stop::Mark(c) => seq![c],
        Stop::Code(n, t) => phrases::around(phrases::ticks(n), t, phrases::ticks(n)),
    }
}

/// The stop is one of its kind.
pub open spec fn sound_stop(e: Stop) -> bool {
    match e {
        Stop::Mark(c) => c == ' ' || c == '\t' || c == '>' || c == ')' || c == ']' || c == '|',
        Stop::Code(n, t) => n > 0 && t.len() > 0 && !t.contains('`') && !t.contains('\n'),
    }
}

/// A bare web address is wrapped up to white space, a bracket, a bar or inline code;
/// what stands before and behind it is kept.
#[verifier::rlimit(30)]
pub proof fn law_addresses_end(a: Seq<char>, u: Seq<char>, e: Stop, b: Seq<char>)
    requires
        phrases::wordy(a) && !text::white_space(a[0]) && a.last() != '"' && a.last() != '\'',
        phrases::plain_address(u),
        sound_stop(e),
        phrases::wordy(b),
    ensures
        urls::wrap_urls(a + u + stop(e) + b) == a + seq!['<'] + u + seq!['>'] + stop(e) + b,
{
    let x = stop(e);
    let s = a + u + x + b;
    let i = a.len() as int;
    let n = (i + u.len()) as int;
    let m = (n + x.len()) as int;
    let len = s.len() as int;
    phrases::lemma_web(u);
    phrases::lemma_prefixes();
    assert forall|k: int| 0 <= k < i implies #[trigger] s[k] == a[k] by {}
    assert forall|k: int| i <= k < n implies #[trigger] s[k] == u[k - i] by {}
    assert forall|k: int| n <= k < m implies #[trigger] s[k] == x[k - n] by {}
    assert forall|k: int| m <= k < len implies #[trigger] s[k] == b[k - m] by {}
    assert forall|k: int| 0 <= k < i implies #[trigger] s[k] != '`' && s[k] != '<' by {
        assert(constructs::plain_char(a[k]));
    }
    assert forall|k: int| 0 <= k < i implies #[trigger] constructs::no_address_at(s, k) by {
        phrases::lemma_no_address_in(s, 0, a, k);
    }
    assert(s[i - 1] == a.last());
    phrases::lemma_wrap_text(s, 0, i);
    assert forall|k: int| i <= k < n implies #[trigger] s[k] != '`' && !urls::ends_url(s[k]) by {
        assert(constructs::plain_char(u[k - i]));
        assert(constructs::address_char(u[k - i]));
    }
    assert forall|k: int| m <= k < len implies #[trigger] s[k] != '`' && s[k] != '<' by {
        assert(constructs::plain_char(b[k - m]));
    }
    assert forall|k: int| m <= k < len implies #[trigger] constructs::no_address_at(s, k) by {
        phrases::lemma_no_address_in(s, m, b, k);
    }
    phrases::lemma_wrap_text(s, m, len);
    if let Stop::Code(w, t) = e {
        assert(s[m] == b[0]);
        assert(constructs::plain_char(b[0]));
        phrases::lemma_code_end(s, n, m, w, t);
        assert(urls::wrap_step(s, n) == (s.subrange(n, m), m));
    } else {
        assert(s[n] == x[0]);
        phrases::lemma_no_address_by(s, n);
        assert(urls::wrap_step(s, n) == (s.subrange(n, m), m)) by {
            assert(s.subrange(n, m) == x);
        }
    }
    lemma_address_goes_to(s, i, n);
    phrases::lemma_web_stands(s, i, u);
    assert(s[i] == 'h') by {
        assert(s[i] == u[0]);
    }
    assert(urls::wrap_step(s, i) == (seq!['<'] + s.subrange(i, n) + seq!['>'], n));
    lemma_wrap_steps(s, i, n, m, len);
    assert(s.subrange(0, i) == a);
    assert(s.subrange(i, n) == u);
    assert(s.subrange(n, m) == x);
    assert(s.subrange(m, len) == b);
    assert(s[0] == a[0]);
    assert(constructs::plain_char(a[0]));
    pages::lemma_no_opening(s);
    assert forall|k: int| 0 <= k < len implies #[trigger] s[k] != '\n' by {
        if k < i {
            assert(constructs::plain_char(a[k]));
        } else if k < n {
            assert(constructs::plain_char(u[k - i]));
        } else if k < m {
            lemma_stop_single(e, k - n);
        } else {
            assert(constructs::plain_char(b[k - m]));
        }
    }
    blocks::lemma_line_alone(s, |l: Seq<char>| urls::wrap_line(l));
    let none = Seq::<char>::empty();
    assert(a + (seq!['<'] + u + seq!['>'] + (x + (b + none))) == a + seq!['<'] + u + seq!['>'] + x
        + b);
}

proof fn lemma_stop_single(e: Stop, k: int)
    requires
        sound_stop(e),
        0 <= k < stop(e).len(),
    ensures
        stop(e)[k] != '\n',
{
    if let Stop::Code(n, t) = e {
        if n <= k < n + t.len() {
            assert(stop(e)[k] == t[k - n]);
            assert(t.contains(t[k - n]));
        }
    }
}

proof fn lemma_wrap_steps(s: Seq<char>, i: int, n: int, m: int, len: int)
    requires
        0 <= i < n < m <= len,
        len == s.len(),
        urls::wrap_step(s, i) == (seq!['<'] + s.subrange(i, n) + seq!['>'], n),
        urls::wrap_step(s, n) == (s.subrange(n, m), m),
        urls::wrap_from(s, 0) == s.subrange(0, i) + urls::wrap_from(s, i),
        urls::wrap_from(s, m) == s.subrange(m, len) + urls::wrap_from(s, len),
    ensures
        urls::wrap_from(s, 0) == s.subrange(0, i) + (seq!['<'] + s.subrange(i, n) + seq!['>'] + (
        s.subrange(n, m) + (s.subrange(m, len) + Seq::<char>::empty()))),
{
    assert(urls::wrap_from(s, len) == Seq::<char>::empty());
    assert(urls::wrap_from(s, n) == s.subrange(n, m) + urls::wrap_from(s, m));
    assert(urls::wrap_from(s, i) == seq!['<'] + s.subrange(i, n) + seq!['>'] + urls::wrap_from(
        s,
        n,
    ));
}

} // verus!
