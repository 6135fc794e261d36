//! What holds of the wrapping of web addresses.

use vstd::prelude::*;
use crate::mrkdwn::brackets;
use crate::mrkdwn::code;
use crate::mrkdwn::fences;
use crate::mrkdwn::laws;
use crate::mrkdwn::spans;
use crate::mrkdwn::ticks;
use crate::mrkdwn::urls;
use crate::text;

verus! {

/// `r` begins with the first `n` characters of `s` in angle brackets.
pub open spec fn wrapped_first(s: Seq<char>, r: Seq<char>, n: int) -> bool {
    &&& 0 < n <= s.len()
    &&& n + 2 <= r.len()
    &&& r[0] == '<'
    &&& r.subrange(1, n + 1) == s.take(n)
    &&& r[n + 1] == '>'
}

/// `r` is `s` with some parts put in angle brackets: what else `r` holds is what
/// `s` holds, in the same order.
pub open spec fn wraps(s: Seq<char>, r: Seq<char>) -> bool
    decreases r.len(),
{
    if r.len() == 0 {
        s.len() == 0
    } else {
        ||| s.len() > 0 && s[0] == r[0] && wraps(s.skip(1), r.skip(1))
        ||| exists|n: int| #[trigger] wrapped_first(s, r, n) && wraps(s.skip(n), r.skip(n + 2))
    }
}

/// A text is itself with nothing put in brackets.
proof fn lemma_wraps_itself(s: Seq<char>)
    ensures
        wraps(s, s),
    decreases s.len(),
{
    if s.len() > 0 {
        lemma_wraps_itself(s.skip(1));
    }
}

/// Two texts one after the other, with parts of each put in brackets.
proof fn lemma_wraps_both(a: Seq<char>, b: Seq<char>, c: Seq<char>, d: Seq<char>)
    requires
        wraps(a, b),
        wraps(c, d),
    ensures
        wraps(a + c, b + d),
    decreases b.len(),
{
    if b.len() == 0 {
        assert(a + c == c);
        assert(b + d == d);
    } else if a.len() > 0 && a[0] == b[0] && wraps(a.skip(1), b.skip(1)) {
        lemma_wraps_both(a.skip(1), b.skip(1), c, d);
        assert((a + c).skip(1) == a.skip(1) + c);
        assert((b + d).skip(1) == b.skip(1) + d);
    } else {
        let n = choose|n: int| #[trigger] wrapped_first(a, b, n) && wraps(a.skip(n), b.skip(n + 2));
        lemma_wraps_both(a.skip(n), b.skip(n + 2), c, d);
        assert((a + c).skip(n) == a.skip(n) + c);
        assert((b + d).skip(n + 2) == b.skip(n + 2) + d);
        assert((b + d).subrange(1, n + 1) == b.subrange(1, n + 1));
        assert((a + c).take(n) == a.take(n));
        assert(wrapped_first(a + c, b + d, n));
    }
}

/// A text in brackets is that text with all of it put in brackets.
proof fn lemma_wraps_whole(s: Seq<char>)
    requires
        s.len() > 0,
    ensures
        wraps(s, seq!['<'] + s + seq!['>']),
{
    let r = seq!['<'] + s + seq!['>'];
    let n = s.len() as int;
    assert(s.take(n) == s);
    assert(r.subrange(1, n + 1) == s);
    assert(wrapped_first(s, r, n));
    assert(s.skip(n) == Seq::<char>::empty());
    assert(r.skip(n + 2) == Seq::<char>::empty());
    assert(wraps(s.skip(n), r.skip(n + 2)));
}

/// Wrapping a line puts parts of it in brackets.
proof fn lemma_line_wraps(s: Seq<char>, i: int)
    requires
        0 <= i <= s.len(),
    ensures
        wraps(s.skip(i), urls::wrap_from(s, i)),
    decreases s.len() - i,
{
    if i < s.len() {
        urls::lemma_wrap_step(s, i);
        let (out, e) = urls::wrap_step(s, i);
        let part = s.subrange(i, e);
        lemma_line_wraps(s, e);
        assert(s.skip(i) == part + s.skip(e));
        if s[i] == '`' || brackets::bracket_end(s, i) is Some {
            lemma_wraps_itself(part);
        } else if urls::address_at(s, i) {
            lemma_wraps_whole(part);
        } else if urls::quotation_mark(s[i]) && urls::address_at(s, i + 1) {
            let url = s.subrange(i + 1, e);
            urls::lemma_address(s, Some(s[i]), i + 1);
            lemma_wraps_whole(url);
            assert(part.skip(1) == url);
            assert(out.skip(1) == seq!['<'] + url + seq!['>']);
        } else {
            lemma_wraps_itself(part);
            assert(part == seq![s[i]]);
        }
        lemma_wraps_both(part, out, s.skip(e), urls::wrap_from(s, e));
    }
}

/// Wrapping lines one by one puts parts of the text in brackets.
proof fn lemma_lines_wrap(ls: Seq<Seq<char>>, rs: Seq<Seq<char>>, sep: Seq<char>)
    requires
        ls.len() == rs.len(),
        forall|k: int| 0 <= k < ls.len() ==> wraps(#[trigger] ls[k], rs[k]),
    ensures
        wraps(text::join(ls, sep), text::join(rs, sep)),
    decreases ls.len(),
{
    if ls.len() > 0 {
        let n = ls.len() - 1;
        assert(wraps(ls[n], rs[n]));
        if n > 0 {
            let a = ls.drop_last();
            let b = rs.drop_last();
            assert forall|k: int| 0 <= k < a.len() implies wraps(#[trigger] a[k], b[k]) by {
                assert(a[k] == ls[k]);
            }
            lemma_lines_wrap(a, b, sep);
            lemma_wraps_itself(sep);
            lemma_wraps_both(text::join(a, sep), text::join(b, sep), sep, sep);
            lemma_wraps_both(
                text::join(a, sep) + sep,
                text::join(b, sep) + sep,
                ls.last(),
                rs.last(),
            );
        }
    }
}

/// Wrapping only adds angle brackets, in pairs around parts of the text:
/// nothing else is added, dropped or moved.
pub proof fn law_wrapping_adds_brackets_only(s: Seq<char>)
    ensures
        wraps(s, urls::wrap_urls(s)),
{
    reveal_strlit("\n");
    assert("\n"@ == seq!['\n']);
    laws::law_join_undoes_split(s, '\n');
    let ls = text::split(s, '\n');
    let f = |l: Seq<char>| urls::wrap_line(l);
    let rs = fences::map_unfenced(ls, f);
    assert forall|k: int| 0 <= k < ls.len() implies wraps(#[trigger] ls[k], rs[k]) by {
        lemma_line_wraps(ls[k], 0);
        assert(ls[k].skip(0) == ls[k]);
        lemma_wraps_itself(ls[k]);
    }
    lemma_lines_wrap(ls, rs, "\n"@);
}

/// Where a text stands does not matter to what stands at its positions.
proof fn lemma_occurs_later(s: Seq<char>, i: int, j: int, p: Seq<char>)
    requires
        0 <= i <= s.len(),
        0 <= j,
    ensures
        text::occurs_at(s.skip(i), j, p) == text::occurs_at(s, i + j, p),
{
    if i + j + p.len() <= s.len() {
        assert(s.skip(i).subrange(j, j + p.len()) == s.subrange(i + j, i + j + p.len()));
    }
}

/// Where a text stands does not matter to where a marker closes it.
proof fn lemma_closing_later(s: Seq<char>, i: int, j: int, m: Seq<char>)
    requires
        0 <= i <= s.len(),
        0 <= j,
    ensures
        spans::closing(s, m, i + j) == match spans::closing(s.skip(i), m, j) {
            Some(e) => Some(i + e),
            None => None,
        },
    decreases s.len() - i - j,
{
    if i + j < s.len() {
        let t = s.skip(i);
        assert(t[j] == s[i + j]);
        if t[j] == '`' {
            ticks::lemma_code_later(s, i, j);
            spans::lemma_code_span(t, j);
            lemma_closing_later(s, i, spans::ticks_end(t, j), m);
        } else {
            lemma_occurs_later(s, i, j, m);
            lemma_closing_later(s, i, j + 1, m);
        }
    }
}

/// Where a text stands does not matter to where an address in it ends.
proof fn lemma_url_later(s: Seq<char>, mark: Option<char>, i: int, j: int)
    requires
        0 <= i <= s.len(),
        0 <= j <= s.len() - i,
    ensures
        urls::url_end(s, mark, i + j) == i + urls::url_end(s.skip(i), mark, j),
    decreases s.len() - i - j,
{
    if i + j < s.len() {
        let t = s.skip(i);
        assert(t[j] == s[i + j]);
        ticks::lemma_code_later(s, i, j);
        if t[j] == '`' {
            spans::lemma_code_span(t, j);
            lemma_url_later(s, mark, i, spans::ticks_end(t, j));
        } else {
            lemma_url_later(s, mark, i, j + 1);
        }
    }
}

/// Where a text stands does not matter to a step on it.
#[verifier::rlimit(30)]
proof fn lemma_step_later(s: Seq<char>, i: int)
    requires
        0 <= i < s.len(),
    ensures
        urls::wrap_step(s.skip(i), 0) == (urls::wrap_step(s, i).0, urls::wrap_step(s, i).1 - i),
{
    let t = s.skip(i);
    assert(t[0] == s[i]);
    lemma_occurs_later(s, i, 0, "http://"@);
    lemma_occurs_later(s, i, 0, "https://"@);
    lemma_occurs_later(s, i, 1, "http://"@);
    lemma_occurs_later(s, i, 1, "https://"@);
    lemma_occurs_later(s, i, 1, "mailto:"@);
    if i + 1 < s.len() {
        assert(t[1] == s[i + 1]);
    }
    lemma_closing_later(s, i, 1, seq!['>']);
    urls::lemma_wrap_step(s, i);
    let e = urls::wrap_step(s, i).1;
    assert(t.subrange(0, e - i) == s.subrange(i, e));
    if s[i] == '`' {
        ticks::lemma_code_later(s, i, 0);
    } else if brackets::bracket_end(s, i) is Some {
    } else if urls::address_at(s, i) {
        lemma_url_later(s, None, i, 0);
    } else if urls::quotation_mark(s[i]) && urls::address_at(s, i + 1) {
        urls::lemma_address(s, Some(s[i]), i + 1);
        lemma_url_later(s, Some(s[i]), i, 1);
        assert(t.subrange(1, e - i) == s.subrange(i + 1, e));
    }
}

/// Where a text stands does not matter to how it is wrapped.
proof fn lemma_wrap_later(s: Seq<char>, i: int)
    requires
        0 <= i <= s.len(),
    ensures
        urls::wrap_from(s, i) == urls::wrap_line(s.skip(i)),
    decreases s.len() - i,
{
    let t = s.skip(i);
    if i < s.len() {
        lemma_step_later(s, i);
        urls::lemma_wrap_step(s, i);
        let e = urls::wrap_step(s, i).1;
        lemma_wrap_later(s, e);
        lemma_wrap_later(t, e - i);
        assert(t.skip(e - i) == s.skip(e));
    }
}

/// A line is wrapped by its first step, and then the rest of it.
proof fn lemma_wrap_first(t: Seq<char>)
    requires
        t.len() > 0,
    ensures
        ({
            let (out, e) = urls::wrap_step(t, 0);
            &&& 0 < e <= t.len()
            &&& out.len() > 0
            &&& urls::wrap_line(t) == out + urls::wrap_line(t.skip(e))
            &&& out[0] == t[0] || out[0] == '<'
        }),
{
    urls::lemma_wrap_step(t, 0);
    lemma_wrap_later(t, urls::wrap_step(t, 0).1);
}

/// Wrapping keeps the backticks of a line.
proof fn lemma_wrap_ticks(t: Seq<char>)
    ensures
        ticks::runs(urls::wrap_line(t)) == ticks::runs(t),
        ticks::tick_first(urls::wrap_line(t)) == ticks::tick_first(t),
{
    code::lemma_wrap_keeps_code(t, 0);
    assert(t.skip(0) == t);
}

/// Wrapping adds no line feeds.
proof fn lemma_wrap_holds(t: Seq<char>, k: int)
    requires
        0 <= k < urls::wrap_line(t).len(),
    ensures
        urls::wrap_line(t)[k] == '\n' ==> t.contains('\n'),
    decreases t.len(),
{
    if t.len() > 0 {
        lemma_wrap_first(t);
        let (out, e) = urls::wrap_step(t, 0);
        let u = t.skip(e);
        let rest = urls::wrap_line(u);
        if k < out.len() {
            let c = out[k];
            if t[0] == '`' || brackets::bracket_end(t, 0) is Some {
                assert(c == t[k]);
            } else if urls::address_at(t, 0) {
                if 1 <= k < out.len() - 1 {
                    assert(c == t[k - 1]);
                }
            } else if urls::quotation_mark(t[0]) && urls::address_at(t, 1) {
                if 2 <= k < out.len() - 1 {
                    assert(c == t[k - 1]);
                }
            } else {
                assert(c == t[0]);
            }
        } else {
            lemma_wrap_holds(u, k - out.len());
            assert(urls::wrap_line(t)[k] == rest[k - out.len()]);
            if u.contains('\n') {
                let j = choose|j: int| 0 <= j < u.len() && u[j] == '\n';
                assert(t[e + j] == '\n');
            }
        }
    }
}

/// A text without angle brackets, quotation marks and backticks at the start of
/// a wrapped line stands at the start of the line.
proof fn lemma_wrap_start(t: Seq<char>, p: Seq<char>)
    requires
        forall|k: int|
            0 <= k < p.len() ==> #[trigger] p[k] != '<' && p[k] != '>' && p[k] != '`'
                && !urls::quotation_mark(p[k]),
        text::occurs_at(urls::wrap_line(t), 0, p),
    ensures
        text::occurs_at(t, 0, p),
    decreases p.len(),
{
    let r = urls::wrap_line(t);
    if p.len() == 0 {
        assert(t.subrange(0, 0) == p);
    } else {
        assert(r.len() > 0 && r.subrange(0, p.len() as int)[0] == r[0]);
        lemma_wrap_first(t);
        let (out, e) = urls::wrap_step(t, 0);
        assert(r[0] == out[0]);
        assert(p[0] != '<');
        brackets::lemma_bracket_end(t, 0);
        assert(out == seq![t[0]] && e == 1);
        let rest = urls::wrap_line(t.skip(1));
        assert(r == seq![t[0]] + rest);
        let q = p.skip(1);
        assert(rest.subrange(0, q.len() as int) == q) by {
            assert(r.subrange(0, p.len() as int).skip(1) == q);
            assert(r.subrange(0, p.len() as int).skip(1) == rest.subrange(0, q.len() as int));
        }
        assert forall|k: int| 0 <= k < q.len() implies #[trigger] q[k] != '<' && q[k] != '>'
            && q[k] != '`' && !urls::quotation_mark(q[k]) by {
            assert(q[k] == p[k + 1]);
        }
        lemma_wrap_start(t.skip(1), q);
        assert(t.subrange(0, p.len() as int) == seq![t[0]] + t.skip(1).subrange(0, q.len() as int));
        assert(p == seq![p[0]] + q);
    }
}

/// What a backtick begins ends where it did, whatever follows, as long as that
/// has the same runs of backticks.
proof fn lemma_ticks_stay(a: Seq<char>, c: Seq<char>, d: Seq<char>, i: int)
    requires
        0 <= i < a.len(),
        a[i] == '`',
        ticks::meets(a, c),
        ticks::meets(a, d),
        ticks::runs(c) == ticks::runs(d),
        spans::ticks_end(a + c, i) <= a.len(),
    ensures
        spans::ticks_end(a + d, i) == spans::ticks_end(a + c, i),
        spans::code_span(a + d, i) == spans::code_span(a + c, i),
{
    let x = a.skip(i);
    assert((a + c).skip(i) == x + c);
    assert((a + d).skip(i) == x + d);
    ticks::lemma_code_later(a + c, i, 0);
    ticks::lemma_code_later(a + d, i, 0);
    assert(x.last() == a.last());
    let n = spans::tick_run(x, 0);
    spans::lemma_tick_run(x, 0);
    ticks::lemma_run_both(x, c, 0);
    ticks::lemma_run_both(x, d, 0);
    ticks::lemma_find_both(x, c, n, n);
    ticks::lemma_find_both(x, d, n, n);
    spans::lemma_code_span(x + c, 0);
    if spans::code_span(x + c, 0) is None {
        let y = x.skip(n);
        assert(ticks::meets(y, c));
        assert(ticks::meets(y, d));
        assert((x + c).skip(n) == y + c);
        assert((x + d).skip(n) == y + d);
        ticks::lemma_find_later(x + c, n, n, 0);
        ticks::lemma_find_later(x + d, n, n, 0);
        ticks::lemma_find_in_runs(y + c, n);
        ticks::lemma_find_in_runs(y + d, n);
        ticks::lemma_runs_both(y, c);
        ticks::lemma_runs_both(y, d);
        ticks::lemma_position(ticks::runs(y + d), n, 0);
        if let Some(p) = ticks::position(ticks::runs(y + d), n, 0) {
            assert(ticks::runs(y + c)[p] == n);
        }
    }
}

/// A bracket closes where it did, whatever follows, as long as that has the same
/// runs of backticks.
proof fn lemma_closing_stays(a: Seq<char>, c: Seq<char>, d: Seq<char>, i: int, b: int)
    requires
        0 <= i,
        b < a.len(),
        ticks::meets(a, c),
        ticks::meets(a, d),
        ticks::runs(c) == ticks::runs(d),
        spans::closing(a + c, seq!['>'], i) == Some(b),
    ensures
        spans::closing(a + d, seq!['>'], i) == Some(b),
    decreases a.len() - i,
{
    let m = seq!['>'];
    let t = a + c;
    let r = a + d;
    spans::lemma_closing(t, m, i);
    assert(t[i] == a[i] && r[i] == a[i]);
    if a[i] == '`' {
        spans::lemma_code_span(t, i);
        let e = spans::ticks_end(t, i);
        spans::lemma_closing(t, m, e);
        lemma_ticks_stay(a, c, d, i);
        lemma_closing_stays(a, c, d, e, b);
    } else {
        assert(t.subrange(i, i + 1) == seq![a[i]]);
        assert(r.subrange(i, i + 1) == seq![a[i]]);
        if !text::occurs_at(t, i, m) {
            spans::lemma_closing(t, m, i + 1);
            lemma_closing_stays(a, c, d, i + 1, b);
        }
    }
}

/// Behind a text without closing brackets and inline code, the bracket closes.
#[verifier::rlimit(30)]
proof fn lemma_closing_over(u: Seq<char>, d: Seq<char>)
    requires
        forall|k: int| 0 <= k < u.len() ==> #[trigger] u[k] != '>',
        ticks::inline_code(u).len() == 0,
        ticks::splits(ticks::runs(u), ticks::runs(d)),
    ensures
        spans::closing(u + seq!['>'] + d, seq!['>'], 0) == Some(u.len() as int),
    decreases u.len(),
{
    let m = seq!['>'];
    let rest = m + d;
    let r = u + m + d;
    assert(r == u + rest);
    assert(r.subrange(0, 1) == seq![r[0]]);
    assert(seq![r[0]][0] == r[0]);
    if u.len() > 0 {
        assert(r[0] == u[0]);
        let e = if u[0] == '`' {
            spans::tick_run(u, 0)
        } else {
            1
        };
        spans::lemma_tick_run(u, 0);
        let v = u.skip(e);
        if u[0] == '`' {
            spans::lemma_code_span(u, 0);
            assert(spans::code_span(u, 0) is None);
            ticks::lemma_splits_run(u, ticks::runs(d));
            ticks::lemma_run_both(u, rest, 0);
            assert(ticks::meets(v, rest));
            ticks::lemma_new_start(m, m, d);
            ticks::lemma_runs_both(v, rest);
            assert(r.skip(e) == v + rest);
            ticks::lemma_find_later(r, e, e, 0);
            ticks::lemma_find_in_runs(v + rest, e);
            ticks::lemma_position(ticks::runs(v + rest), e, 0);
            if let Some(p) = ticks::position(ticks::runs(v + rest), e, 0) {
                if p < ticks::runs(v).len() {
                    assert(ticks::runs(v)[p] == e);
                } else {
                    assert(ticks::runs(d)[p - ticks::runs(v).len()] == e);
                }
            }
            assert(spans::code_span(r, 0) is None);
        }
        assert forall|k: int| 0 <= k < v.len() implies #[trigger] v[k] != '>' by {
            assert(v[k] == u[k + e]);
        }
        lemma_closing_over(v, d);
        assert(r.skip(e) == v + m + d);
        lemma_closing_later(r, e, 0, m);
    }
}

/// The prefix of a web address belongs to it.
proof fn lemma_prefix_in_address(t: Seq<char>, mark: Option<char>, p: Seq<char>, at: int, i: int)
    requires
        p == "http://"@ || p == "https://"@,
        mark matches Some(c) ==> urls::quotation_mark(c),
        text::occurs_at(t, at, p),
        0 <= i <= p.len(),
    ensures
        urls::url_end(t, mark, at + i) >= at + p.len(),
    decreases p.len() - i,
{
    reveal_strlit("http://");
    reveal_strlit("https://");
    urls::lemma_url_end(t, mark, at + i);
    if i < p.len() {
        assert(t.subrange(at, at + p.len())[i] == t[at + i]);
        lemma_prefix_in_address(t, mark, p, at, i + 1);
    }
}

/// The address at `at` of a line, in angle brackets, is Slack's syntax; its
/// closing bracket is the first one.
#[verifier::rlimit(30)]
proof fn lemma_wrapped_is_syntax(t: Seq<char>, mark: Option<char>, at: int)
    requires
        urls::address_at(t, at),
        mark matches Some(c) ==> urls::quotation_mark(c),
    ensures
        ({
            let e = urls::url_end(t, mark, at);
            let u = t.subrange(at, e);
            let r = seq!['<'] + u + seq!['>'] + urls::wrap_line(t.skip(e));
            &&& brackets::bracket_end(r, 0) == Some((u.len() + 2) as int)
            &&& spans::closing(r, seq!['>'], 0) == Some((u.len() + 1) as int)
        }),
{
    reveal_strlit("http://");
    reveal_strlit("https://");
    urls::lemma_address(t, mark, at);
    urls::lemma_url_end(t, mark, at);
    code::lemma_url_break(t, mark, at);
    let e = urls::url_end(t, mark, at);
    let u = t.subrange(at, e);
    let d = urls::wrap_line(t.skip(e));
    let r = seq!['<'] + u + seq!['>'] + d;
    lemma_wrap_ticks(t.skip(e));
    assert forall|k: int| 0 <= k < u.len() implies #[trigger] u[k] != '>' by {
        assert(u[k] == t[at + k]);
    }
    lemma_closing_over(u, d);
    assert(r.skip(1) == u + seq!['>'] + d);
    lemma_closing_later(r, 1, 0, seq!['>']);
    let p = if text::occurs_at(t, at, "http://"@) {
        "http://"@
    } else {
        "https://"@
    };
    let n = p.len() as int;
    lemma_prefix_in_address(t, mark, p, at, 0);
    assert(r.subrange(1, 1 + n) == t.subrange(at, at + n));
    assert(brackets::slack_syntax_at(r, 1));
    assert(r.subrange(0, 1)[0] == '<');
}

/// Where a line has no closing bracket outside of inline code, but the wrapped
/// line has, a wrapped address ends there, and what follows is a wrapped line.
#[verifier::rlimit(30)]
proof fn lemma_first_closing(t: Seq<char>, f: int) -> (k: int)
    requires
        spans::closing(t, seq!['>'], 0) is None,
        spans::closing(urls::wrap_line(t), seq!['>'], 0) == Some(f),
    ensures
        0 < k <= t.len(),
        f < urls::wrap_line(t).len(),
        urls::wrap_line(t).skip(f + 1) == urls::wrap_line(t.skip(k)),
    decreases t.len(),
{
    let r = urls::wrap_line(t);
    let m = seq!['>'];
    spans::lemma_closing(r, m, 0);
    lemma_wrap_first(t);
    let (out, e) = urls::wrap_step(t, 0);
    let u = t.skip(e);
    let rest = urls::wrap_line(u);
    brackets::lemma_bracket_end(t, 0);
    assert(t.subrange(0, 1) == seq![t[0]]);
    assert(r.subrange(0, 1) == seq![r[0]]);
    if t[0] == '`' {
        lemma_ticks_kept(t);
        assert(r.skip(e) == rest);
        lemma_closing_later(t, e, 0, m);
        lemma_closing_later(r, e, 0, m);
        spans::lemma_closing(rest, m, 0);
        let k = lemma_first_closing(u, f - e);
        assert(r.skip(f + 1) == rest.skip(f - e + 1));
        assert(t.skip(k + e) == u.skip(k));
        k + e
    } else if brackets::bracket_end(t, 0) is None && urls::address_at(t, 0) {
        lemma_wrapped_is_syntax(t, None, 0);
        assert(r.skip(f + 1) == rest);
        e
    } else if brackets::bracket_end(t, 0) is None && urls::quotation_mark(t[0])
        && urls::address_at(t, 1) {
        let mark = Some(t[0]);
        lemma_wrapped_is_syntax(t, mark, 1);
        let url = t.subrange(1, e);
        assert(r.skip(1) == seq!['<'] + url + m + rest);
        assert(seq![r[0]][0] == r[0]);
        lemma_closing_later(r, 1, 0, m);
        assert(r.skip(f + 1) == rest);
        e
    } else {
        assert(t[0] != '>') by {
            if t[0] == '>' {
                assert(text::occurs_at(t, 0, m));
            }
        }
        assert(brackets::bracket_end(t, 0) is None);
        assert(out == seq![t[0]] && e == 1);
        assert(r == seq![t[0]] + rest);
        assert(r.skip(1) == rest);
        assert(seq![r[0]][0] == r[0]);
        lemma_closing_later(t, 1, 0, m);
        lemma_closing_later(r, 1, 0, m);
        let k = lemma_first_closing(u, f - 1);
        assert(r.skip(f + 1) == rest.skip(f));
        assert(t.skip(k + 1) == u.skip(k));
        k + 1
    }
}

/// What the backtick at the start of a line begins stays so when the line is
/// wrapped.
proof fn lemma_ticks_kept(t: Seq<char>)
    requires
        ticks::tick_first(t),
    ensures
        ({
            let e = spans::ticks_end(t, 0);
            &&& 0 < e <= t.len()
            &&& urls::wrap_line(t) == t.take(e) + urls::wrap_line(t.skip(e))
            &&& spans::ticks_end(urls::wrap_line(t), 0) == e
        }),
{
    let e = spans::ticks_end(t, 0);
    ticks::lemma_ticks_break(t, 0);
    lemma_wrap_first(t);
    let a = t.take(e);
    let c = t.skip(e);
    assert(t.subrange(0, e) == a);
    assert(a + c == t);
    lemma_wrap_ticks(c);
    lemma_ticks_stay(a, c, urls::wrap_line(c), 0);
}

/// What shows that a bracket opens Slack's syntax stands before its closing one.
proof fn lemma_syntax_stays(t: Seq<char>, r: Seq<char>, e: int, p: Seq<char>)
    requires
        p == "http://"@ || p == "https://"@ || p == "mailto:"@,
        1 < e <= t.len(),
        e <= r.len(),
        r.take(e) == t.take(e),
        t[e - 1] == '>',
    ensures
        text::occurs_at(t, 1, p) ==> text::occurs_at(r, 1, p),
{
    reveal_strlit("http://");
    reveal_strlit("https://");
    reveal_strlit("mailto:");
    let n = p.len() as int;
    if text::occurs_at(t, 1, p) {
        let sub = t.subrange(1, 1 + n);
        if e - 1 < 1 + n {
            assert(sub[e - 2] == '>');
        }
        assert(r.subrange(1, 1 + n) == r.take(e).subrange(1, 1 + n));
        assert(t.subrange(1, 1 + n) == t.take(e).subrange(1, 1 + n));
    }
}

/// Slack's syntax at the start of a line is kept when the line is wrapped, and
/// stays so.
proof fn lemma_bracket_stays(t: Seq<char>, e: int)
    requires
        t.len() > 0,
        brackets::bracket_end(t, 0) == Some(e),
    ensures
        brackets::bracket_end(t.take(e) + urls::wrap_line(t.skip(e)), 0) == Some(e),
{
    let c = t.skip(e);
    let d = urls::wrap_line(c);
    brackets::lemma_bracket_end(t, 0);
    let a = t.take(e);
    let r = a + d;
    assert(a + c == t);
    assert(r.take(e) == a);
    lemma_syntax_stays(t, r, e, "http://"@);
    lemma_syntax_stays(t, r, e, "https://"@);
    lemma_syntax_stays(t, r, e, "mailto:"@);
    assert(r[0] == t[0]);
    assert(r[1] == t[1]);
    lemma_wrap_ticks(c);
    assert(a.last() == '>');
    lemma_closing_stays(a, c, d, 1, e - 1);
}

/// A text behind the first character of a wrapped line stands there in the line.
proof fn lemma_start_before(t: Seq<char>, p: Seq<char>)
    requires
        t.len() > 0,
        urls::wrap_step(t, 0) == (seq![t[0]], 1int),
        forall|k: int|
            0 <= k < p.len() ==> #[trigger] p[k] != '<' && p[k] != '>' && p[k] != '`'
                && !urls::quotation_mark(p[k]),
    ensures
        text::occurs_at(urls::wrap_line(t), 1, p) ==> text::occurs_at(t, 1, p),
{
    lemma_wrap_first(t);
    let r = urls::wrap_line(t);
    assert(r.skip(1) == urls::wrap_line(t.skip(1)));
    lemma_occurs_later(r, 1, 0, p);
    lemma_occurs_later(t, 1, 0, p);
    if text::occurs_at(r, 1, p) {
        lemma_wrap_start(t.skip(1), p);
    }
}

/// Where a wrapped line begins with Slack's syntax, but the line with a
/// character that is kept, the line begins with it too.
proof fn lemma_syntax_before(t: Seq<char>)
    requires
        t.len() > 0,
        urls::wrap_step(t, 0) == (seq![t[0]], 1int),
        brackets::slack_syntax_at(urls::wrap_line(t), 1),
    ensures
        brackets::slack_syntax_at(t, 1),
{
    lemma_wrap_first(t);
    let r = urls::wrap_line(t);
    let u = t.skip(1);
    let rest = urls::wrap_line(u);
    assert(r.skip(1) == rest);
    reveal_strlit("http://");
    reveal_strlit("https://");
    reveal_strlit("mailto:");
    lemma_start_before(t, "http://"@);
    lemma_start_before(t, "https://"@);
    lemma_start_before(t, "mailto:"@);
    if r.len() > 1 && (r[1] == '@' || r[1] == '#' || r[1] == '!') {
        let p = seq![r[1]];
        assert(rest[0] == r[1]);
        assert(rest.subrange(0, 1) == p);
        lemma_wrap_start(u, p);
        assert(u.subrange(0, 1)[0] == p[0]);
        assert(t[1] == u[0]);
    }
}

/// A line that was wrapped is kept.
#[verifier::rlimit(30)]
proof fn lemma_wrap_twice(t: Seq<char>)
    ensures
        urls::wrap_line(urls::wrap_line(t)) == urls::wrap_line(t),
    decreases t.len(), 1int,
{
    let r = urls::wrap_line(t);
    if t.len() > 0 {
        lemma_wrap_first(t);
        let (out, e) = urls::wrap_step(t, 0);
        let u = t.skip(e);
        let rest = urls::wrap_line(u);
        lemma_wrap_twice(u);
        brackets::lemma_bracket_end(t, 0);
        lemma_wrap_first(r);
        if t[0] == '`' {
            lemma_ticks_kept(t);
            assert(r.subrange(0, e) == out);
            assert(r.skip(e) == rest);
        } else if brackets::bracket_end(t, 0) is Some {
            assert(t.subrange(0, e) == t.take(e));
            lemma_bracket_stays(t, e);
            assert(r[0] == t[0]);
            assert(r.subrange(0, e) == out);
            assert(r.skip(e) == rest);
        } else if urls::address_at(t, 0) {
            lemma_wrapped_is_syntax(t, None, 0);
            assert(r[0] == '<');
            assert(r.subrange(0, e + 2) == out);
            assert(r.skip(e + 2) == rest);
        } else if urls::quotation_mark(t[0]) && urls::address_at(t, 1) {
            lemma_quoted_twice(t);
        } else {
            lemma_char_twice(t);
        }
    }
}

/// A wrapped line that begins with an address behind a quotation mark is kept.
proof fn lemma_quoted_twice(t: Seq<char>)
    requires
        t.len() > 0,
        brackets::bracket_end(t, 0) is None,
        !urls::address_at(t, 0),
        urls::quotation_mark(t[0]),
        urls::address_at(t, 1),
    ensures
        urls::wrap_line(urls::wrap_line(t)) == urls::wrap_line(t),
    decreases t.len(), 0int,
{
    let r = urls::wrap_line(t);
    lemma_wrap_first(t);
    let (out, e) = urls::wrap_step(t, 0);
    let rest = urls::wrap_line(t.skip(e));
    lemma_wrap_twice(t.skip(e));
    let url = t.subrange(1, e);
    let w = seq!['<'] + url + seq!['>'] + rest;
    lemma_wrapped_is_syntax(t, Some(t[0]), 1);
    assert(r == seq![t[0]] + w);
    assert(r.skip(1) == w);
    assert(r[0] == t[0] && r[1] == '<');
    if urls::address_at(r, 0) {
        urls::lemma_address(r, None, 0);
    }
    if urls::address_at(r, 1) {
        urls::lemma_address(r, None, 1);
    }
    assert(urls::wrap_step(r, 0) == (seq![r[0]], 1int));
    lemma_wrap_first(r);
    assert(w[0] == '<');
    lemma_wrap_first(w);
    let n = url.len() + 2;
    assert(w.subrange(0, n as int) + w.skip(n as int) == w);
    assert(w.skip(n as int) == rest);
}

/// A wrapped line whose first character is kept, like those of the lines after
/// it, is kept.
#[verifier::rlimit(30)]
proof fn lemma_char_twice(t: Seq<char>)
    requires
        t.len() > 0,
        t[0] != '`',
        brackets::bracket_end(t, 0) is None,
        !urls::address_at(t, 0),
        !(urls::quotation_mark(t[0]) && urls::address_at(t, 1)),
    ensures
        urls::wrap_line(urls::wrap_line(t)) == urls::wrap_line(t),
    decreases t.len(), 0int,
{
    let r = urls::wrap_line(t);
    let m = seq!['>'];
    lemma_wrap_first(t);
    let u = t.skip(1);
    let rest = urls::wrap_line(u);
    assert(r == seq![t[0]] + rest);
    assert(r.skip(1) == rest);
    lemma_wrap_twice(u);
    lemma_wrap_first(r);
    reveal_strlit("http://");
    reveal_strlit("https://");
    if text::occurs_at(r, 0, "http://"@) {
        lemma_wrap_start(t, "http://"@);
    }
    if text::occurs_at(r, 0, "https://"@) {
        lemma_wrap_start(t, "https://"@);
    }
    lemma_start_before(t, "http://"@);
    lemma_start_before(t, "https://"@);
    if brackets::bracket_end(r, 0) is Some {
        lemma_syntax_before(t);
        let f = spans::closing(r, m, 1)->0;
        lemma_closing_later(t, 1, 0, m);
        lemma_closing_later(r, 1, 0, m);
        let k = lemma_first_closing(u, f - 1);
        let v = u.skip(k);
        lemma_wrap_twice(v);
        assert(r.skip(f + 1) == rest.skip(f));
        assert(r.subrange(0, f + 1) + r.skip(f + 1) == r);
    }
}

/// White space at the start of a line stands there when the line is wrapped.
proof fn lemma_wrap_trimmed(t: Seq<char>)
    ensures
        text::trim_start(urls::wrap_line(t)) == urls::wrap_line(text::trim_start(t)),
    decreases t.len(),
{
    if t.len() > 0 {
        let r = urls::wrap_line(t);
        lemma_wrap_first(t);
        assert(r[0] == urls::wrap_step(t, 0).0[0]);
        if text::white_space(t[0]) {
            if urls::address_at(t, 0) {
                urls::lemma_address(t, None, 0);
            }
            assert(urls::wrap_step(t, 0) == (seq![t[0]], 1int));
            lemma_wrap_trimmed(t.skip(1));
            assert(r.skip(1) == urls::wrap_line(t.skip(1)));
        }
    }
}

/// What trimming the end takes away is white space.
proof fn lemma_trimmed_end(s: Seq<char>, j: int)
    requires
        text::trim_end(s).len() <= j < s.len(),
    ensures
        text::white_space(s[j]),
    decreases s.len(),
{
    if s.len() > 0 && text::white_space(s[s.len() - 1]) && j < s.len() - 1 {
        lemma_trimmed_end(s.take(s.len() - 1), j);
    }
}

/// A text without runs of backticks has no backticks.
proof fn lemma_no_runs(s: Seq<char>)
    requires
        ticks::runs(s).len() == 0,
    ensures
        ticks::no_ticks(s),
    decreases s.len(),
{
    if s.len() > 0 {
        lemma_no_runs(s.skip(1));
        assert forall|k: int| 0 <= k < s.len() implies #[trigger] s[k] != '`' by {
            if k > 0 {
                assert(s.skip(1)[k - 1] == s[k]);
            }
        }
    }
}

/// A line opens a block of Slack's by its first character that is no white space
/// and by its only run of backticks.
proof fn lemma_opening(line: Seq<char>)
    ensures
        ({
            let t = text::trim_start(line);
            fences::opening_fence(line) == (ticks::tick_first(t) && ticks::runs(t).len() == 1
                && ticks::runs(t)[0] >= 3)
        }),
{
    reveal_strlit("```");
    let t = text::trim_start(line);
    let n = spans::tick_run(t, 0);
    spans::lemma_tick_run(t, 0);
    crate::laws::lemma_trim_end(t);
    let k = text::trim_end(t).len() as int;
    if fences::backtick_fence(line) {
        let run = t.take(k).subrange(0, 3);
        assert(run[0] == t[0] && run[1] == t[1] && run[2] == t[2]);
        if n < 3 {
            assert(t[n] == run[n]);
        }
    }
    if ticks::tick_first(t) {
        assert(ticks::runs(t) == seq![n] + ticks::runs(t.skip(n)));
        text::lemma_find_char(t, '`', n);
        if fences::single_run(t) {
            let rest = t.skip(n);
            assert forall|j: int| 0 <= j < rest.len() implies #[trigger] rest[j] != '`' by {
                assert(rest[j] == t[n + j]);
            }
            ticks::lemma_no_ticks(rest);
        } else if ticks::runs(t).len() == 1 {
            lemma_no_runs(t.skip(n));
            let j = text::find_char(t, '`', n)->0;
            assert(t.skip(n)[j - n] == t[j]);
        }
        if n >= 3 {
            if k < 3 {
                assert(t[k] == '`');
                lemma_trimmed_end(t, k);
            }
            assert(t.take(k).subrange(0, 3) == "```"@);
        }
    }
}

/// A wrapped line opens a block of Slack's where the line does.
pub proof fn lemma_wrap_opening(t: Seq<char>)
    ensures
        fences::opening_fence(urls::wrap_line(t)) == fences::opening_fence(t),
{
    lemma_opening(t);
    lemma_opening(urls::wrap_line(t));
    lemma_wrap_trimmed(t);
    lemma_wrap_ticks(text::trim_start(t));
}

/// Wrapping the lines outside of code blocks leaves the blocks where they are.
proof fn lemma_blocks_alike(ls: Seq<Seq<char>>, k: int)
    requires
        0 <= k <= ls.len(),
    ensures
        fences::open_len(fences::map_unfenced(ls, |l: Seq<char>| urls::wrap_line(l)), k)
            == fences::open_len(ls, k),
    decreases k,
{
    if k > 0 {
        lemma_blocks_alike(ls, k - 1);
        lemma_wrap_opening(ls[k - 1]);
    }
}

/// Wrapping twice changes no more than wrapping once.
pub proof fn law_wrapping_twice_changes_nothing(s: Seq<char>)
    ensures
        urls::wrap_urls(urls::wrap_urls(s)) == urls::wrap_urls(s),
{
    laws::lemma_line_feed();
    laws::law_join_undoes_split(s, '\n');
    let ls = text::split(s, '\n');
    let f = |l: Seq<char>| urls::wrap_line(l);
    let rs = fences::map_unfenced(ls, f);
    assert forall|k: int| 0 <= k < rs.len() implies !(#[trigger] rs[k]).contains('\n') && (
    fences::fenced(rs, k) || urls::wrap_line(rs[k]) == rs[k]) by {
        laws::law_split_pieces_hold_no_separator(s, '\n', k);
        lemma_blocks_alike(ls, k);
        if !fences::fenced(ls, k) {
            assert forall|j: int| 0 <= j < rs[k].len() implies #[trigger] rs[k][j] != '\n' by {
                lemma_wrap_holds(ls[k], j);
            }
            lemma_wrap_twice(ls[k]);
        }
    }
    laws::law_split_undoes_join(rs, '\n');
    assert(fences::map_unfenced(rs, f) == rs);
}

} // verus!
