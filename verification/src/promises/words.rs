//! White space, the order of texts, and the members of JSON objects.

use vstd::prelude::*;
use crate::json;
use crate::json::Tree;
use crate::text;

verus! {

/// The text is made of white space only.
pub open spec fn blank(s: Seq<char>) -> bool {
    forall|k: int| 0 <= k < s.len() ==> text::white_space(#[trigger] s[k])
}

/// The text has no white space at its ends, and is not empty.
pub open spec fn bare(s: Seq<char>) -> bool {
    s.len() > 0 && !text::white_space(s[0]) && !text::white_space(s[s.len() - 1])
}

/// White space around a text.
pub open spec fn padded(a: Seq<char>, t: Seq<char>, b: Seq<char>) -> Seq<char> {
    a + t + b
}

/// The white space characters below the upper half of Latin-1 are the space, the
/// tab, the line feed, the vertical tab, the form feed and the carriage return;
/// above there are the next line, the spaces of various widths and the
/// separators of lines and paragraphs.
pub proof fn law_white_space(c: char)
    ensures
        (c as u32) < 128 ==> text::white_space(c) == (c == ' ' || c == '\t' || c == '\n' || c
            == '\u{b}' || c == '\u{c}' || c == '\r'),
        (c as u32) >= 128 ==> text::white_space(c) == (c == '\u{85}' || c == '\u{a0}' || c
            == '\u{1680}' || ('\u{2000}' <= c && c <= '\u{200a}') || c == '\u{2028}' || c
            == '\u{2029}' || c == '\u{202f}' || c == '\u{205f}' || c == '\u{3000}'),
{
}

/// Trimming takes away the white space before and behind a text, and no more.
pub proof fn law_trim_gives_what_is_padded(a: Seq<char>, t: Seq<char>, b: Seq<char>)
    requires
        blank(a),
        bare(t),
        blank(b),
    ensures
        text::trim(padded(a, t, b)) == t,
    decreases a.len() + b.len(),
{
    let s = padded(a, t, b);
    if a.len() > 0 {
        assert(text::white_space(a[0]));
        assert(s[0] == a[0]);
        let rest = a.skip(1);
        assert forall|k: int| 0 <= k < rest.len() implies text::white_space(#[trigger] rest[k]) by {
            assert(rest[k] == a[k + 1]);
        }
        law_trim_gives_what_is_padded(rest, t, b);
        assert(s.skip(1) == padded(rest, t, b));
    } else {
        assert(s == t + b);
        assert(s[0] == t[0]);
        assert(text::trim_start(s) == s);
        lemma_trim_end(t, b);
    }
}

/// Trimming the end takes away the white space there.
pub proof fn lemma_trim_end(t: Seq<char>, b: Seq<char>)
    requires
        t.len() > 0 ==> !text::white_space(t[t.len() - 1]),
        blank(b),
    ensures
        text::trim_end(t + b) == t,
    decreases b.len(),
{
    let s = t + b;
    if b.len() > 0 {
        let n = b.len() - 1;
        assert(text::white_space(b[n]));
        assert(s[s.len() - 1] == b[n]);
        let rest = b.take(n);
        assert forall|k: int| 0 <= k < rest.len() implies text::white_space(#[trigger] rest[k]) by {
            assert(rest[k] == b[k]);
        }
        lemma_trim_end(t, rest);
        assert(s.take(s.len() - 1) == t + rest);
    } else {
        assert(s == t);
    }
}

/// Trimming leaves nothing of white space.
pub proof fn law_trim_leaves_nothing_of_blanks(s: Seq<char>)
    requires
        blank(s),
    ensures
        text::trim(s).len() == 0,
    decreases s.len(),
{
    if s.len() > 0 {
        assert(text::white_space(s[0]));
        let rest = s.skip(1);
        assert forall|k: int| 0 <= k < rest.len() implies text::white_space(#[trigger] rest[k]) by {
            assert(rest[k] == s[k + 1]);
        }
        law_trim_leaves_nothing_of_blanks(rest);
    }
}

/// Every text is blank, or a bare text in white space.
pub proof fn lemma_padded(s: Seq<char>) -> (r: (Seq<char>, Seq<char>, Seq<char>))
    requires
        !blank(s),
    ensures
        blank(r.0),
        bare(r.1),
        blank(r.2),
        s == padded(r.0, r.1, r.2),
    decreases s.len(),
{
    let n = s.len() as int;
    if text::white_space(s[0]) {
        let rest = s.skip(1);
        assert(!blank(rest)) by {
            if blank(rest) {
                assert forall|k: int| 0 <= k < s.len() implies text::white_space(
                    #[trigger] s[k],
                ) by {
                    if k > 0 {
                        assert(rest[k - 1] == s[k]);
                    }
                }
            }
        }
        let (a, t, b) = lemma_padded(rest);
        let more = seq![s[0]] + a;
        assert(s == seq![s[0]] + rest);
        assert(s == padded(more, t, b));
        (more, t, b)
    } else if text::white_space(s[n - 1]) {
        let rest = s.take(n - 1);
        assert(rest[0] == s[0]);
        let (a, t, b) = lemma_padded(rest);
        let more = b.push(s[n - 1]);
        assert(s == rest.push(s[n - 1]));
        assert(s == padded(a, t, more));
        (a, t, more)
    } else {
        assert(s == padded(Seq::empty(), s, Seq::empty()));
        (Seq::empty(), s, Seq::empty())
    }
}

/// `a` and `b` agree up to position `k`, where `a` ends or has the smaller
/// character.
pub open spec fn earlier_at(a: Seq<char>, b: Seq<char>, k: int) -> bool {
    &&& 0 <= k <= a.len()
    &&& k < b.len()
    &&& a.take(k) == b.take(k)
    &&& k == a.len() || a[k] < b[k]
}

/// `a` is a proper beginning of `b`, or has the smaller character where they
/// first differ.
pub open spec fn earlier(a: Seq<char>, b: Seq<char>) -> bool {
    exists|k: int| earlier_at(a, b, k)
}

/// One text stands before another if it is a proper beginning of it, or has the
/// smaller character where they first differ.
pub proof fn law_texts_are_ordered(a: Seq<char>, b: Seq<char>)
    ensures
        text::precedes(a, b) == earlier(a, b),
    decreases a.len(),
{
    if b.len() > 0 {
        if a.len() == 0 {
            assert(a.take(0) == b.take(0));
            assert(earlier_at(a, b, 0));
        } else if a[0] == b[0] {
            let x = a.skip(1);
            let y = b.skip(1);
            law_texts_are_ordered(x, y);
            if text::precedes(x, y) {
                let k = choose|k: int| earlier_at(x, y, k);
                assert(a.take(k + 1) == seq![a[0]] + x.take(k));
                assert(b.take(k + 1) == seq![b[0]] + y.take(k));
                assert(earlier_at(a, b, k + 1));
            }
            if exists|k: int| earlier_at(a, b, k) {
                let k = choose|k: int| earlier_at(a, b, k);
                assert(k > 0);
                assert(x.take(k - 1) == a.take(k).skip(1));
                assert(y.take(k - 1) == b.take(k).skip(1));
                assert(earlier_at(x, y, k - 1));
            }
        } else {
            if a[0] < b[0] {
                assert(a.take(0) == b.take(0));
                assert(earlier_at(a, b, 0));
            }
            if exists|k: int| earlier_at(a, b, k) {
                let k = choose|k: int| earlier_at(a, b, k);
                if k > 0 {
                    assert(a.take(k)[0] == b.take(k)[0]);
                }
            }
        }
    }
}

/// The member of an object is the one with that name; what is no object has no
/// members.
pub proof fn law_members_are_found_by_name(
    members: Seq<(Seq<char>, Tree)>,
    i: int,
    key: Seq<char>,
    other: Tree,
)
    requires
        0 <= i < members.len(),
        forall|k: int| 0 <= k < i ==> (#[trigger] members[k]).0 != members[i].0,
        forall|k: int| 0 <= k < members.len() ==> (#[trigger] members[k]).0 != key,
        !(other is Object),
    ensures
        json::member(Tree::Object(members), members[i].0) == Some(members[i].1),
        json::member(Tree::Object(members), key) is None,
        json::member(other, key) is None,
        json::text_member(Tree::Object(members), members[i].0) == match members[i].1 {
            Tree::Text(t) => Some(t),
            _ => None,
        },
{
    lemma_first(members, i);
    lemma_absent(members, key);
}

proof fn lemma_first(members: Seq<(Seq<char>, Tree)>, i: int)
    requires
        0 <= i < members.len(),
        forall|k: int| 0 <= k < i ==> (#[trigger] members[k]).0 != members[i].0,
    ensures
        json::first_member(members, members[i].0) == Some(members[i].1),
    decreases i,
{
    if i > 0 {
        let rest = members.skip(1);
        assert(members[0].0 != members[i].0);
        assert(rest[i - 1] == members[i]);
        assert forall|k: int| 0 <= k < i - 1 implies (#[trigger] rest[k]).0 != rest[i - 1].0 by {
            assert(rest[k] == members[k + 1]);
        }
        lemma_first(rest, i - 1);
    }
}

proof fn lemma_absent(members: Seq<(Seq<char>, Tree)>, key: Seq<char>)
    requires
        forall|k: int| 0 <= k < members.len() ==> (#[trigger] members[k]).0 != key,
    ensures
        json::first_member(members, key) is None,
    decreases members.len(),
{
    if members.len() > 0 {
        let rest = members.skip(1);
        assert(members[0].0 != key);
        assert forall|k: int| 0 <= k < rest.len() implies (#[trigger] rest[k]).0 != key by {
            assert(rest[k] == members[k + 1]);
        }
        lemma_absent(rest, key);
    }
}

} // verus!
