//! The runs of backticks of a line, and the inline code that they enclose.

use vstd::prelude::*;
use crate::mrkdwn::spans;
use crate::text;

verus! {

/// The text holds no backtick.
pub open spec fn no_ticks(s: Seq<char>) -> bool {
    forall|k: int| 0 <= k < s.len() ==> #[trigger] s[k] != '`'
}

/// The text begins with a backtick.
pub open spec fn tick_first(s: Seq<char>) -> bool {
    s.len() > 0 && s[0] == '`'
}

/// The text ends with a backtick.
pub open spec fn tick_last(s: Seq<char>) -> bool {
    s.len() > 0 && s.last() == '`'
}

/// Put one after the other, the texts have the runs of backticks that they have
/// by themselves.
pub open spec fn meets(a: Seq<char>, b: Seq<char>) -> bool {
    !(tick_last(a) && tick_first(b))
}

/// The lengths of the runs of backticks of a line.
pub open spec fn runs(s: Seq<char>) -> Seq<int>
    decreases s.len(),
{
    if s.len() == 0 {
        Seq::empty()
    } else if s[0] == '`' {
        proof {
            spans::lemma_tick_run(s, 0);
        }
        seq![spans::tick_run(s, 0)] + runs(s.skip(spans::tick_run(s, 0)))
    } else {
        runs(s.skip(1))
    }
}

/// The inline code of a line, each with its backticks, in order.
pub open spec fn inline_code(s: Seq<char>) -> Seq<Seq<char>>
    decreases s.len(),
{
    if s.len() == 0 {
        Seq::empty()
    } else if s[0] == '`' {
        proof {
            spans::lemma_code_span(s, 0);
        }
        match spans::code_span(s, 0) {
            Some(e) => seq![s.take(e)] + inline_code(s.skip(e)),
            None => inline_code(s.skip(spans::ticks_end(s, 0))),
        }
    } else {
        inline_code(s.skip(1))
    }
}

/// The two lines have the same runs of backticks and the same inline code.
pub open spec fn same_code(s: Seq<char>, r: Seq<char>) -> bool {
    runs(s) == runs(r) && inline_code(s) == inline_code(r)
}

/// The first position at or after `i` of a number in a list.
pub open spec fn position(a: Seq<int>, n: int, i: int) -> Option<int>
    decreases a.len() - i,
{
    if i < 0 || i >= a.len() {
        None
    } else if a[i] == n {
        Some(i)
    } else {
        position(a, n, i + 1)
    }
}

/// No inline code reaches from runs of the lengths `a` into ones of the lengths
/// `b` that follow.
pub open spec fn splits(a: Seq<int>, b: Seq<int>) -> bool
    decreases a.len(),
{
    if a.len() == 0 {
        true
    } else {
        proof {
            lemma_position(a, a[0], 1);
        }
        match position(a, a[0], 1) {
            Some(j) => splits(a.skip(j + 1), b),
            None => !b.contains(a[0]) && splits(a.skip(1), b),
        }
    }
}

/// The first position of a number is one, and there is one where the list
/// holds it.
pub proof fn lemma_position(a: Seq<int>, n: int, i: int)
    requires
        0 <= i,
    ensures
        match position(a, n, i) {
            Some(j) => i <= j < a.len() && a[j] == n && forall|k: int|
                i <= k < j ==> #[trigger] a[k] != n,
            None => forall|k: int| i <= k < a.len() ==> #[trigger] a[k] != n,
        },
    decreases a.len() - i,
{
    if i < a.len() && a[i] != n {
        lemma_position(a, n, i + 1);
    }
}

/// The first position of a number in a list is as given.
proof fn lemma_position_is(a: Seq<int>, n: int, i: int, j: int)
    requires
        0 <= i <= j < a.len(),
        a[j] == n,
        forall|k: int| i <= k < j ==> #[trigger] a[k] != n,
    ensures
        position(a, n, i) == Some(j),
{
    lemma_position(a, n, i);
    if let Some(k) = position(a, n, i) {
        if k < j {
            assert(a[k] != n);
        } else if j < k {
            assert(a[j] != n);
        }
    } else {
        assert(a[j] != n);
    }
}

/// Nothing reaches into an empty list.
pub proof fn lemma_splits_end(a: Seq<int>)
    ensures
        splits(a, Seq::empty()),
    decreases a.len(),
{
    if a.len() > 0 {
        lemma_position(a, a[0], 1);
        match position(a, a[0], 1) {
            Some(j) => {
                lemma_splits_end(a.skip(j + 1));
            },
            None => {
                lemma_splits_end(a.skip(1));
            },
        }
    }
}

/// Two lists out of which nothing reaches, one after the other.
pub proof fn lemma_splits_both(a: Seq<int>, b: Seq<int>, c: Seq<int>)
    requires
        splits(a, b + c),
        splits(b, c),
    ensures
        splits(a + b, c),
    decreases a.len(),
{
    if a.len() == 0 {
        assert(a + b == b);
    } else {
        let n = a[0];
        let ab = a + b;
        lemma_position(a, n, 1);
        match position(a, n, 1) {
            Some(j) => {
                assert forall|k: int| 1 <= k < j implies #[trigger] ab[k] != n by {
                    assert(ab[k] == a[k]);
                }
                lemma_position_is(ab, n, 1, j);
                lemma_splits_both(a.skip(j + 1), b, c);
                assert(ab.skip(j + 1) == a.skip(j + 1) + b);
            },
            None => {
                assert forall|k: int| 0 <= k < b.len() implies #[trigger] b[k] != n by {
                    assert((b + c)[k] == b[k]);
                }
                assert(!c.contains(n)) by {
                    if c.contains(n) {
                        let k = choose|k: int| 0 <= k < c.len() && c[k] == n;
                        assert((b + c)[b.len() + k] == n);
                    }
                }
                lemma_position(ab, n, 1);
                if let Some(j) = position(ab, n, 1) {
                    if j < a.len() {
                        assert(a[j] == n);
                    } else {
                        assert(b[j - a.len()] == n);
                    }
                }
                lemma_splits_both(a.skip(1), b, c);
                assert(ab.skip(1) == a.skip(1) + b);
            },
        }
    }
}

/// The length of a run of backticks is as given.
pub proof fn lemma_run_is(s: Seq<char>, i: int, n: int)
    requires
        0 <= i,
        0 <= n,
        i + n <= s.len(),
        forall|j: int| i <= j < i + n ==> #[trigger] s[j] == '`',
        i + n < s.len() ==> s[i + n] != '`',
    ensures
        spans::tick_run(s, i) == n,
    decreases n,
{
    if n > 0 {
        assert(s[i] == '`');
        lemma_run_is(s, i + 1, n - 1);
    }
}

/// Where a text stands does not matter to a run of backticks in it.
pub proof fn lemma_run_later(s: Seq<char>, i: int, j: int)
    requires
        0 <= i <= s.len(),
        0 <= j <= s.len() - i,
    ensures
        spans::tick_run(s, i + j) == spans::tick_run(s.skip(i), j),
{
    let t = s.skip(i);
    let n = spans::tick_run(t, j);
    spans::lemma_tick_run(t, j);
    assert forall|k: int| i + j <= k < i + j + n implies #[trigger] s[k] == '`' by {
        assert(t[k - i] == s[k]);
    }
    if i + j + n < s.len() {
        assert(t[j + n] == s[i + j + n]);
    }
    lemma_run_is(s, i + j, n);
}

/// Where a text stands does not matter to where a run is found in it.
pub proof fn lemma_find_later(s: Seq<char>, n: int, i: int, j: int)
    requires
        0 <= i <= s.len(),
        0 <= j <= s.len() - i,
    ensures
        spans::find_run(s, n, i + j) == match spans::find_run(s.skip(i), n, j) {
            Some(k) => Some(i + k),
            None => None,
        },
    decreases s.len() - i - j,
{
    if i + j < s.len() {
        let t = s.skip(i);
        assert(t[j] == s[i + j]);
        lemma_run_later(s, i, j);
        spans::lemma_tick_run(t, j);
        if t[j] == '`' {
            lemma_find_later(s, n, i, j + spans::tick_run(t, j));
        } else {
            lemma_find_later(s, n, i, j + 1);
        }
    }
}

/// Where a text stands does not matter to its inline code.
pub proof fn lemma_code_later(s: Seq<char>, i: int, j: int)
    requires
        0 <= i <= s.len(),
        0 <= j < s.len() - i,
    ensures
        spans::code_span(s, i + j) == match spans::code_span(s.skip(i), j) {
            Some(e) => Some(i + e),
            None => None,
        },
        spans::ticks_end(s, i + j) == i + spans::ticks_end(s.skip(i), j),
{
    lemma_run_later(s, i, j);
    let n = spans::tick_run(s.skip(i), j);
    spans::lemma_tick_run(s.skip(i), j);
    lemma_find_later(s, n, i, j + n);
}

/// A run is found where the line has one of that length; what follows it has
/// the runs after that one.
#[verifier::rlimit(30)]
pub proof fn lemma_find_in_runs(s: Seq<char>, n: int)
    ensures
        match spans::find_run(s, n, 0) {
            Some(k) => {
                &&& 0 <= k < k + n <= s.len()
                &&& position(runs(s), n, 0) matches Some(p) && runs(s.skip(k + n)) == runs(
                    s,
                ).skip(p + 1)
            },
            None => !runs(s).contains(n),
        },
    decreases s.len(),
{
    spans::lemma_find_run(s, n, 0);
    if s.len() > 0 {
        let e = if s[0] == '`' {
            spans::tick_run(s, 0)
        } else {
            1
        };
        spans::lemma_tick_run(s, 0);
        let t = s.skip(e);
        let found = spans::find_run(s, n, 0);
        if s[0] == '`' && e == n {
            assert(runs(s)[0] == n);
            assert(runs(s).skip(1) == runs(t));
        } else {
            lemma_find_in_runs(t, n);
            lemma_find_later(s, n, e, 0);
            if s[0] == '`' {
                let all = runs(s);
                assert(all == seq![e] + runs(t));
                if let Some(k) = spans::find_run(t, n, 0) {
                    let p = position(runs(t), n, 0)->0;
                    lemma_position(runs(t), n, 0);
                    assert forall|j: int| 0 <= j < p + 1 implies #[trigger] all[j] != n by {
                        if j > 0 {
                            assert(all[j] == runs(t)[j - 1]);
                        }
                    }
                    lemma_position_is(all, n, 0, p + 1);
                    assert(all.skip(p + 2) == runs(t).skip(p + 1));
                    assert(t.skip(k + n) == s.skip(e + k + n));
                } else {
                    assert(!all.contains(n)) by {
                        if all.contains(n) {
                            let j = choose|j: int| 0 <= j < all.len() && all[j] == n;
                            assert(runs(t)[j - 1] == n);
                        }
                    }
                }
            } else if let Some(k) = spans::find_run(t, n, 0) {
                assert(t.skip(k + n) == s.skip(e + k + n));
            }
        }
    }
}

/// The runs of two texts, one after the other.
pub proof fn lemma_runs_both(a: Seq<char>, b: Seq<char>)
    requires
        meets(a, b),
    ensures
        runs(a + b) == runs(a) + runs(b),
    decreases a.len(),
{
    let s = a + b;
    if a.len() == 0 {
        assert(s == b);
        assert(runs(a) + runs(b) == runs(b));
    } else if a[0] == '`' {
        let n = spans::tick_run(a, 0);
        spans::lemma_tick_run(a, 0);
        lemma_run_both(a, b, 0);
        let t = a.skip(n);
        assert(meets(t, b));
        lemma_runs_both(t, b);
        assert(s.skip(n) == t + b);
        assert(seq![n] + (runs(t) + runs(b)) == seq![n] + runs(t) + runs(b));
    } else {
        let t = a.skip(1);
        assert(meets(t, b));
        lemma_runs_both(t, b);
        assert(s.skip(1) == t + b);
    }
}

/// A run of backticks in a text stays as it is whatever follows the text.
pub proof fn lemma_run_both(a: Seq<char>, b: Seq<char>, i: int)
    requires
        meets(a, b),
        0 <= i < a.len(),
    ensures
        spans::tick_run(a + b, i) == spans::tick_run(a, i),
{
    let n = spans::tick_run(a, i);
    spans::lemma_tick_run(a, i);
    assert forall|j: int| i <= j < i + n implies #[trigger] (a + b)[j] == '`' by {
        assert((a + b)[j] == a[j]);
    }
    if n > 0 && i + n == a.len() {
        assert(a[i + n - 1] == '`');
    }
    lemma_run_is(a + b, i, n);
}

/// A run is found in a text where it is found in what the text begins.
pub proof fn lemma_find_both(a: Seq<char>, b: Seq<char>, n: int, i: int)
    requires
        meets(a, b),
        0 <= i <= a.len(),
        0 < n,
    ensures
        spans::find_run(a, n, i) is Some ==> spans::find_run(a + b, n, i) == spans::find_run(
            a,
            n,
            i,
        ),
        spans::find_run(a, n, i) is None ==> (spans::find_run(a + b, n, i) matches Some(k) ==> k
            >= a.len()),
    decreases a.len() - i,
{
    spans::lemma_find_run(a + b, n, i);
    if i < a.len() {
        assert((a + b)[i] == a[i]);
        lemma_run_both(a, b, i);
        spans::lemma_tick_run(a, i);
        if a[i] == '`' {
            lemma_find_both(a, b, n, i + spans::tick_run(a, i));
        } else {
            lemma_find_both(a, b, n, i + 1);
        }
    }
}

/// Runs out of whose line nothing reaches, by the inline code that it begins
/// with.
pub proof fn lemma_splits_span(s: Seq<char>, e: int, b: Seq<int>)
    requires
        tick_first(s),
        spans::code_span(s, 0) == Some(e),
    ensures
        0 <= e <= s.len(),
        splits(runs(s), b) == splits(runs(s.skip(e)), b),
{
    spans::lemma_code_span(s, 0);
    let n = spans::tick_run(s, 0);
    let t = s.skip(n);
    spans::lemma_tick_run(s, 0);
    lemma_find_later(s, n, n, 0);
    lemma_find_in_runs(t, n);
    lemma_position(runs(t), n, 0);
    let p = position(runs(t), n, 0)->0;
    let all = runs(s);
    assert(all == seq![n] + runs(t));
    assert forall|j: int| 1 <= j < p + 1 implies #[trigger] all[j] != n by {
        assert(all[j] == runs(t)[j - 1]);
    }
    lemma_position_is(all, n, 1, p + 1);
    assert(all.skip(p + 2) == runs(t).skip(p + 1));
    assert(t.skip(e - n) == s.skip(e));
}

/// Runs out of whose line nothing reaches, by the run that it begins with and
/// that opens no inline code.
pub proof fn lemma_splits_run(s: Seq<char>, b: Seq<int>)
    requires
        tick_first(s),
        spans::code_span(s, 0) is None,
    ensures
        ({
            let n = spans::tick_run(s, 0);
            &&& 0 < n <= s.len()
            &&& splits(runs(s), b) == (!b.contains(n) && splits(runs(s.skip(n)), b))
            &&& !runs(s.skip(n)).contains(n)
        }),
{
    let n = spans::tick_run(s, 0);
    let t = s.skip(n);
    spans::lemma_tick_run(s, 0);
    lemma_find_later(s, n, n, 0);
    lemma_find_in_runs(t, n);
    let all = runs(s);
    assert(all == seq![n] + runs(t));
    lemma_position(all, n, 1);
    if let Some(j) = position(all, n, 1) {
        assert(runs(t)[j - 1] == n);
    }
    assert(all.skip(1) == runs(t));
}

/// The inline code of two texts, one after the other, where none reaches from
/// one into the other.
#[verifier::rlimit(30)]
pub proof fn lemma_code_both(a: Seq<char>, b: Seq<char>)
    requires
        meets(a, b),
        splits(runs(a), runs(b)),
    ensures
        inline_code(a + b) == inline_code(a) + inline_code(b),
    decreases a.len(),
{
    let s = a + b;
    if a.len() == 0 {
        assert(s == b);
        assert(inline_code(a) + inline_code(b) == inline_code(b));
    } else if a[0] == '`' {
        let n = spans::tick_run(a, 0);
        spans::lemma_tick_run(a, 0);
        lemma_run_both(a, b, 0);
        lemma_find_both(a, b, n, n);
        if let Some(e) = spans::code_span(a, 0) {
            spans::lemma_code_span(a, 0);
            lemma_splits_span(a, e, runs(b));
            let t = a.skip(e);
            assert(meets(t, b));
            lemma_code_both(t, b);
            assert(s.skip(e) == t + b);
            assert(s.take(e) == a.take(e));
            assert(seq![a.take(e)] + (inline_code(t) + inline_code(b)) == seq![a.take(e)]
                + inline_code(t) + inline_code(b));
        } else {
            lemma_splits_run(a, runs(b));
            let t = a.skip(n);
            assert(meets(t, b));
            lemma_code_both(t, b);
            assert(s.skip(n) == t + b);
            lemma_runs_both(t, b);
            lemma_find_later(s, n, n, 0);
            lemma_find_in_runs(t + b, n);
            if spans::find_run(t + b, n, 0) is Some {
                let p = position(runs(t + b), n, 0)->0;
                lemma_position(runs(t + b), n, 0);
                if p < runs(t).len() {
                    assert(runs(t)[p] == n);
                } else {
                    assert(runs(b)[p - runs(t).len()] == n);
                }
            }
        }
    } else {
        let t = a.skip(1);
        assert(meets(t, b));
        lemma_code_both(t, b);
        assert(s.skip(1) == t + b);
    }
}

/// Texts with the same inline code, one after the other.
pub proof fn lemma_same_both(a: Seq<char>, b: Seq<char>, c: Seq<char>, d: Seq<char>)
    requires
        same_code(a, b),
        same_code(c, d),
        splits(runs(a), runs(c)),
        meets(a, c),
        meets(b, d),
    ensures
        same_code(a + c, b + d),
{
    lemma_runs_both(a, c);
    lemma_runs_both(b, d);
    lemma_code_both(a, c);
    lemma_code_both(b, d);
}

/// A text without backticks has no runs and no inline code.
pub proof fn lemma_no_ticks(s: Seq<char>)
    requires
        no_ticks(s),
    ensures
        runs(s) == Seq::<int>::empty(),
        inline_code(s) == Seq::<Seq<char>>::empty(),
    decreases s.len(),
{
    if s.len() > 0 {
        assert forall|k: int| 0 <= k < s.skip(1).len() implies #[trigger] s.skip(1)[k] != '`' by {
            assert(s.skip(1)[k] == s[k + 1]);
        }
        lemma_no_ticks(s.skip(1));
    }
}

/// A part of a text without backticks has none.
pub proof fn lemma_plain_part(s: Seq<char>, i: int, e: int)
    requires
        no_ticks(s),
        0 <= i <= e <= s.len(),
    ensures
        no_ticks(s.subrange(i, e)),
{
    let t = s.subrange(i, e);
    assert forall|k: int| 0 <= k < t.len() implies #[trigger] t[k] != '`' by {
        assert(t[k] == s[i + k]);
    }
}

/// Texts without backticks, one after the other, have none.
pub proof fn lemma_plain_both(a: Seq<char>, b: Seq<char>)
    requires
        no_ticks(a),
        no_ticks(b),
    ensures
        no_ticks(a + b),
{
}

/// Another start without backticks keeps inline code.
pub proof fn lemma_new_start(a: Seq<char>, b: Seq<char>, rest: Seq<char>)
    requires
        no_ticks(a),
        no_ticks(b),
    ensures
        same_code(a + rest, b + rest),
        same_code(a + rest, rest),
{
    lemma_no_ticks(a);
    lemma_no_ticks(b);
    lemma_same_both(a, b, rest, rest);
    let none = Seq::<char>::empty();
    lemma_same_both(a, none, rest, rest);
    assert(none + rest == rest);
}

/// Another end without backticks keeps inline code.
pub proof fn lemma_new_end(rest: Seq<char>, a: Seq<char>, b: Seq<char>)
    requires
        no_ticks(a),
        no_ticks(b),
    ensures
        same_code(rest + a, rest + b),
        same_code(rest + a, rest),
{
    lemma_no_ticks(a);
    lemma_no_ticks(b);
    lemma_splits_end(runs(rest));
    lemma_same_both(rest, rest, a, b);
    let none = Seq::<char>::empty();
    lemma_same_both(rest, rest, a, none);
    assert(rest + none == rest);
}

/// Other texts without backticks around one keep inline code.
pub proof fn lemma_new_ends(
    a: Seq<char>,
    x: Seq<char>,
    b: Seq<char>,
    c: Seq<char>,
    y: Seq<char>,
    d: Seq<char>,
)
    requires
        no_ticks(a),
        no_ticks(b),
        no_ticks(c),
        no_ticks(d),
        same_code(x, y),
    ensures
        same_code(a + x + b, c + y + d),
        same_code(a + x + b, x),
{
    lemma_new_start(a, c, x);
    lemma_new_end(a + x, b, d);
    lemma_new_start(c, a, y);
    lemma_new_end(c + y, d, b);
}

/// No inline code reaches across position `e` of the part of a line that begins
/// at `i`, and no run of backticks does.
pub open spec fn breaks(s: Seq<char>, i: int, e: int) -> bool {
    &&& 0 <= i <= e <= s.len()
    &&& meets(s.subrange(i, e), s.skip(e))
    &&& splits(runs(s.subrange(i, e)), runs(s.skip(e)))
}

/// Two parts of a line, one after the other.
pub proof fn lemma_then(s: Seq<char>, i: int, e: int, k: int)
    requires
        breaks(s, i, e),
        breaks(s, e, k),
    ensures
        breaks(s, i, k),
{
    let a = s.subrange(i, e);
    let b = s.subrange(e, k);
    let c = s.skip(k);
    assert(s.skip(e) == b + c);
    assert(s.subrange(i, k) == a + b);
    lemma_runs_both(b, c);
    if b.len() > 0 {
        assert(b[0] == s.skip(e)[0]);
        assert((a + b).last() == b.last());
    } else {
        assert(a + b == a);
        assert(b + c == c);
    }
    assert(meets(a, b));
    lemma_runs_both(a, b);
    lemma_splits_both(runs(a), runs(b), runs(c));
}

/// Inline code, or a run of backticks that opens none, is a part of a line.
#[verifier::rlimit(30)]
pub proof fn lemma_ticks_break(s: Seq<char>, i: int)
    requires
        0 <= i < s.len(),
        s[i] == '`',
    ensures
        i < spans::ticks_end(s, i) <= s.len(),
        breaks(s, i, spans::ticks_end(s, i)),
        !tick_first(s.skip(spans::ticks_end(s, i))),
{
    spans::lemma_code_span(s, i);
    spans::lemma_tick_run(s, i);
    let e = spans::ticks_end(s, i);
    let n = spans::tick_run(s, i);
    let t = s.skip(i);
    let a = s.subrange(i, e);
    let b = s.skip(e);
    assert(t == a + b);
    lemma_code_later(s, i, 0);
    lemma_run_later(s, i, 0);
    assert(tick_first(a));
    assert(!tick_first(b));
    lemma_run_both(a, b, 0);
    lemma_find_both(a, b, n, n);
    spans::lemma_tick_run(a, 0);
    if spans::code_span(s, i) is Some {
        assert(spans::code_span(a, 0) == Some(e - i));
        lemma_splits_span(a, e - i, runs(b));
        assert(a.skip(e - i) == Seq::<char>::empty());
    } else {
        assert(a.len() == n);
        lemma_find_later(t, n, n, 0);
        assert(t.skip(n) == b);
        lemma_find_in_runs(b, n);
        spans::lemma_find_run(a, n, n);
        lemma_splits_run(a, runs(b));
        assert(a.skip(n) == Seq::<char>::empty());
    }
}

/// Text without backticks is a part of a line.
pub proof fn lemma_plain_break(s: Seq<char>, i: int, e: int)
    requires
        0 <= i <= e <= s.len(),
        no_ticks(s.subrange(i, e)),
    ensures
        breaks(s, i, e),
{
    lemma_no_ticks(s.subrange(i, e));
}

/// A single character that is no backtick is a part of a line.
pub proof fn lemma_char_break(s: Seq<char>, i: int)
    requires
        0 <= i < s.len(),
        s[i] != '`',
    ensures
        breaks(s, i, i + 1),
{
    assert(s.subrange(i, i + 1) == seq![s[i]]);
    lemma_plain_break(s, i, i + 1);
}

/// What is skipped up to a closing marker is a part of a line.
pub proof fn lemma_closing_break(s: Seq<char>, m: Seq<char>, i: int)
    requires
        0 <= i <= s.len(),
    ensures
        spans::closing(s, m, i) matches Some(b) ==> breaks(s, i, b),
    decreases s.len() - i,
{
    if i < s.len() {
        spans::lemma_closing(s, m, i);
        if s[i] == '`' {
            lemma_ticks_break(s, i);
            let e = spans::ticks_end(s, i);
            lemma_closing_break(s, m, e);
            if let Some(b) = spans::closing(s, m, e) {
                lemma_then(s, i, e, b);
            }
        } else if text::occurs_at(s, i, m) {
            assert(s.subrange(i, i) == Seq::<char>::empty());
            lemma_plain_break(s, i, i);
        } else {
            lemma_char_break(s, i);
            lemma_closing_break(s, m, i + 1);
            if let Some(b) = spans::closing(s, m, i + 1) {
                lemma_then(s, i, i + 1, b);
            }
        }
    }
}

/// One step of a pass, and then the rest.
pub proof fn lemma_step_and_rest(s: Seq<char>, i: int, e: int, out: Seq<char>, rest: Seq<char>)
    requires
        breaks(s, i, e),
        same_code(s.subrange(i, e), out),
        same_code(s.skip(e), rest),
        meets(out, rest),
    ensures
        same_code(s.skip(i), out + rest),
{
    lemma_same_both(s.subrange(i, e), out, s.skip(e), rest);
    assert(s.subrange(i, e) + s.skip(e) == s.skip(i));
}

} // verus!
