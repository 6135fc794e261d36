//! Text as a sequence of characters: trimming, searching, splitting, joining
//! and ordering.

use vstd::prelude::*;

verus! {

/// The characters with the Unicode `White_Space` property.
pub open spec fn white_space(c: char) -> bool {
    let u = c as u32;
    ||| 0x09 <= u <= 0x0d
    ||| u == 0x20
    ||| u == 0x85
    ||| u == 0xa0
    ||| u == 0x1680
    ||| 0x2000 <= u <= 0x200a
    ||| u == 0x2028
    ||| u == 0x2029
    ||| u == 0x202f
    ||| u == 0x205f
    ||| u == 0x3000
}

/// Whether a character has the Unicode `White_Space` property.
pub fn is_white_space(c: char) -> (r: bool)
    ensures
        r == white_space(c),
{
    let u: u32 = c as u32;
    (0x09 <= u && u <= 0x0d) || u == 0x20 || u == 0x85 || u == 0xa0 || u == 0x1680 || (0x2000 <= u
        && u <= 0x200a) || u == 0x2028 || u == 0x2029 || u == 0x202f || u == 0x205f || u == 0x3000
}

/// The text without its leading white space.
pub open spec fn trim_start(s: Seq<char>) -> Seq<char>
    decreases s.len(),
{
    if s.len() > 0 && white_space(s[0]) {
        trim_start(s.skip(1))
    } else {
        s
    }
}

/// The text without its trailing white space.
pub open spec fn trim_end(s: Seq<char>) -> Seq<char>
    decreases s.len(),
{
    if s.len() > 0 && white_space(s[s.len() - 1]) {
        trim_end(s.take(s.len() - 1))
    } else {
        s
    }
}

/// The text without the white space at its two ends.
pub open spec fn trim(s: Seq<char>) -> Seq<char> {
    trim_end(trim_start(s))
}

/// The characters of a string.
pub fn chars_of(s: &str) -> (r: Vec<char>)
    ensures
        r@ == s@,
{
    let mut out: Vec<char> = Vec::new();
    for c in it: s.chars()
        invariant
            out@ == it.seq().take(it.index() as int),
            it.seq() == s@,
    {
        out.push(c);
    }
    out
}

/// Appends a run of characters to a string.
pub fn push_chars(out: &mut String, chars: &[char])
    ensures
        final(out)@ == old(out)@ + chars@,
{
    let mut i: usize = 0;
    while i < chars.len()
        invariant
            i <= chars.len(),
            out@ == old(out)@ + chars@.take(i as int),
        decreases chars.len() - i,
    {
        out.push(chars[i]);
        i += 1;
    }
}

/// Appends a string to another.
pub fn push_str(out: &mut String, s: &str)
    ensures
        final(out)@ == old(out)@ + s@,
{
    let chars = chars_of(s);
    push_chars(out, chars.as_slice());
}

/// The string made of the given characters.
pub fn string_of(chars: &[char]) -> (r: String)
    ensures
        r@ == chars@,
{
    let mut out = String::new();
    push_chars(&mut out, chars);
    out
}


/// The given slice without its leading white space.
pub fn trim_start_of(s: &[char]) -> (r: &[char])
    ensures
        r@ == trim_start(s@),
        r@.len() <= s@.len(),
        r@ == s@.skip(s@.len() - r@.len()),
{
    let mut i: usize = 0;
    proof {
        assert(s@.skip(0) == s@);
    }
    while i < s.len() && is_white_space(s[i])
        invariant
            i <= s.len(),
            trim_start(s@.skip(i as int)) == trim_start(s@),
        decreases s.len() - i,
    {
        proof {
            assert(s@.skip(i as int).skip(1) == s@.skip(i + 1));
        }
        i += 1;
    }
    vstd::slice::slice_subrange(s, i, s.len())
}

/// The given slice without its trailing white space.
pub fn trim_end_of(s: &[char]) -> (r: &[char])
    ensures
        r@ == trim_end(s@),
        r@.len() <= s@.len(),
        r@ == s@.take(r@.len() as int),
{
    let mut n: usize = s.len();
    proof {
        assert(s@.take(n as int) == s@);
    }
    while n > 0 && is_white_space(s[n - 1])
        invariant
            n <= s.len(),
            trim_end(s@.take(n as int)) == trim_end(s@),
        decreases n,
    {
        proof {
            assert(s@.take(n as int).take(n - 1) == s@.take(n - 1));
        }
        n -= 1;
    }
    vstd::slice::slice_subrange(s, 0, n)
}

/// The given slice without the white space at its two ends.
pub fn trim_of(s: &[char]) -> (r: &[char])
    ensures
        r@ == trim(s@),
{
    trim_end_of(trim_start_of(s))
}

/// `p` stands in `s` at position `i`.
pub open spec fn occurs_at(s: Seq<char>, i: int, p: Seq<char>) -> bool {
    0 <= i && i + p.len() <= s.len() && s.subrange(i, i + p.len()) == p
}

/// `s` begins with `p`.
pub open spec fn starts_with(s: Seq<char>, p: Seq<char>) -> bool {
    occurs_at(s, 0, p)
}

/// Whether `p` stands in `s` at position `i`.
pub fn is_at(s: &[char], i: usize, p: &str) -> (r: bool)
    requires
        i <= s@.len(),
    ensures
        r == occurs_at(s@, i as int, p@),
{
    let pat = chars_of(p);
    if pat.len() > s.len() - i {
        return false;
    }
    let mut k: usize = 0;
    while k < pat.len()
        invariant
            k <= pat.len(),
            i + pat.len() <= s.len(),
            pat@ == p@,
            forall|j: int| 0 <= j < k ==> s@[i + j] == pat@[j],
        decreases pat.len() - k,
    {
        if s[i + k] != pat[k] {
            proof {
                assert(s@.subrange(i as int, i + p@.len())[k as int] != p@[k as int]);
            }
            return false;
        }
        k += 1;
    }
    proof {
        assert(s@.subrange(i as int, i + p@.len()) == p@);
    }
    true
}

/// The first position at or after `from` where `p` stands in `s`.
pub open spec fn find(s: Seq<char>, p: Seq<char>, from: int) -> Option<int>
    decreases s.len() - from + 1,
{
    if from < 0 || from > s.len() {
        None
    } else if occurs_at(s, from, p) {
        Some(from)
    } else {
        find(s, p, from + 1)
    }
}

/// `find` yields the least occurrence, and nothing only where there is none.
pub proof fn lemma_find(s: Seq<char>, p: Seq<char>, from: int)
    requires
        0 <= from,
    ensures
        match find(s, p, from) {
            Some(k) => from <= k && occurs_at(s, k, p) && (forall|j: int|
                from <= j < k ==> !#[trigger] occurs_at(s, j, p)),
            None => forall|j: int| from <= j ==> !#[trigger] occurs_at(s, j, p),
        },
    decreases s.len() - from + 1,
{
    if from <= s.len() && !occurs_at(s, from, p) {
        lemma_find(s, p, from + 1);
    }
}

/// The first position at or after `from` where `p` stands in `s`.
pub fn find_in(s: &[char], p: &str, from: usize) -> (r: Option<usize>)
    requires
        from <= s@.len(),
    ensures
        match r {
            Some(k) => find(s@, p@, from as int) == Some(k as int) && from <= k && k + p@.len()
                <= s@.len(),
            None => find(s@, p@, from as int) is None,
        },
{
    let mut i: usize = from;
    while i < s.len()
        invariant
            from <= i <= s.len(),
            find(s@, p@, i as int) == find(s@, p@, from as int),
        decreases s.len() - i,
    {
        if is_at(s, i, p) {
            return Some(i);
        }
        i += 1;
    }
    if is_at(s, i, p) {
        return Some(i);
    }
    proof {
        assert(find(s@, p@, i + 1) is None);
    }
    None
}

/// The first position at or after `from` that holds `c`.
pub open spec fn find_char(s: Seq<char>, c: char, from: int) -> Option<int>
    decreases s.len() - from,
{
    if from < 0 || from >= s.len() {
        None
    } else if s[from] == c {
        Some(from)
    } else {
        find_char(s, c, from + 1)
    }
}

/// The last position before `upto` that holds `c`.
pub open spec fn rfind_char(s: Seq<char>, c: char, upto: int) -> Option<int>
    decreases upto,
{
    if upto <= 0 || upto > s.len() {
        None
    } else if s[upto - 1] == c {
        Some(upto - 1)
    } else {
        rfind_char(s, c, upto - 1)
    }
}

/// `find_char` yields the least such position, and nothing only where there is none.
pub proof fn lemma_find_char(s: Seq<char>, c: char, from: int)
    requires
        0 <= from,
    ensures
        match find_char(s, c, from) {
            Some(k) => from <= k < s.len() && s[k] == c && (forall|j: int|
                from <= j < k ==> #[trigger] s[j] != c),
            None => forall|j: int| from <= j < s.len() ==> #[trigger] s[j] != c,
        },
    decreases s.len() - from,
{
    if from < s.len() && s[from] != c {
        lemma_find_char(s, c, from + 1);
    }
}

/// The first position at or after `from` that holds `c`.
pub fn find_char_in(s: &[char], c: char, from: usize) -> (r: Option<usize>)
    requires
        from <= s@.len(),
    ensures
        match r {
            Some(k) => find_char(s@, c, from as int) == Some(k as int) && from <= k < s@.len()
                && s@[k as int] == c,
            None => find_char(s@, c, from as int) is None,
        },
{
    let mut i: usize = from;
    while i < s.len()
        invariant
            from <= i <= s.len(),
            find_char(s@, c, i as int) == find_char(s@, c, from as int),
        decreases s.len() - i,
    {
        if s[i] == c {
            return Some(i);
        }
        i += 1;
    }
    None
}

/// The last position that holds `c`.
pub fn rfind_char_in(s: &[char], c: char) -> (r: Option<usize>)
    ensures
        match r {
            Some(k) => rfind_char(s@, c, s@.len() as int) == Some(k as int) && k < s@.len(),
            None => rfind_char(s@, c, s@.len() as int) is None,
        },
{
    let mut i: usize = s.len();
    while i > 0
        invariant
            i <= s.len(),
            rfind_char(s@, c, i as int) == rfind_char(s@, c, s@.len() as int),
        decreases i,
    {
        if s[i - 1] == c {
            return Some(i - 1);
        }
        i -= 1;
    }
    None
}

/// The pieces of `s` between the occurrences of `sep`.
pub open spec fn split(s: Seq<char>, sep: char) -> Seq<Seq<char>>
    decreases s.len(),
{
    if s.len() == 0 {
        seq![Seq::<char>::empty()]
    } else {
        let front = split(s.drop_last(), sep);
        if s.last() == sep {
            front.push(Seq::empty())
        } else {
            front.drop_last().push(front.last().push(s.last()))
        }
    }
}

/// The pieces in order, with `sep` between each two of them.
pub open spec fn join(parts: Seq<Seq<char>>, sep: Seq<char>) -> Seq<char>
    decreases parts.len(),
{
    if parts.len() == 0 {
        Seq::empty()
    } else if parts.len() == 1 {
        parts[0]
    } else {
        join(parts.drop_last(), sep) + sep + parts.last()
    }
}

/// The texts that a list of character vectors holds.
pub open spec fn texts(v: Seq<Vec<char>>) -> Seq<Seq<char>> {
    v.map_values(|x: Vec<char>| x@)
}

/// How many times in a row the character stands at the start of the text.
pub open spec fn leading(s: Seq<char>, c: char) -> int
    decreases s.len(),
{
    if s.len() > 0 && s[0] == c {
        1 + leading(s.skip(1), c)
    } else {
        0
    }
}

/// Counts how many times in a row the character stands at the start of the text.
pub fn count_leading(s: &[char], c: char) -> (n: usize)
    ensures
        n == leading(s@, c),
        n <= s@.len(),
{
    let mut n: usize = 0;
    proof {
        assert(s@.skip(0) == s@);
    }
    while n < s.len() && s[n] == c
        invariant
            n <= s.len(),
            n + leading(s@.skip(n as int), c) == leading(s@, c),
        decreases s.len() - n,
    {
        proof {
            assert(s@.skip(n as int).skip(1) == s@.skip(n + 1));
        }
        n += 1;
    }
    n
}

/// Each character of the text has the property.
pub open spec fn each(s: Seq<char>, p: spec_fn(char) -> bool) -> bool {
    forall|k: int| 0 <= k < s.len() ==> p(#[trigger] s[k])
}

/// What each character of a text is, each character of its pieces is.
pub proof fn lemma_split_each(s: Seq<char>, sep: char, p: spec_fn(char) -> bool, k: int)
    requires
        each(s, p),
        0 <= k < split(s, sep).len(),
    ensures
        each(split(s, sep)[k], p),
    decreases s.len(),
{
    if s.len() > 0 {
        let front = split(s.drop_last(), sep);
        assert(each(s.drop_last(), p)) by {
            assert forall|j: int| 0 <= j < s.len() - 1 implies p(#[trigger] s.drop_last()[j]) by {
                assert(s.drop_last()[j] == s[j]);
            }
        }
        assert(p(s[s.len() - 1]));
        if k < front.len() {
            lemma_split_each(s.drop_last(), sep, p, k);
        }
    }
}

/// The texts that a list of strings holds.
pub open spec fn strings(v: Seq<String>) -> Seq<Seq<char>> {
    v.map_values(|x: String| x@)
}

/// The pieces of `s` between the occurrences of `sep`.
pub fn split_on(s: &[char], sep: char) -> (r: Vec<Vec<char>>)
    ensures
        texts(r@) == split(s@, sep),
        r@.len() >= 1,
{
    let mut parts: Vec<Vec<char>> = Vec::new();
    let mut current: Vec<char> = Vec::new();
    let mut i: usize = 0;
    proof {
        assert(s@.take(0) == Seq::<char>::empty());
        assert(texts(parts@).push(current@) == split(s@.take(0), sep));
    }
    while i < s.len()
        invariant
            i <= s.len(),
            texts(parts@).push(current@) == split(s@.take(i as int), sep),
        decreases s.len() - i,
    {
        let ghost front = texts(parts@).push(current@);
        let ghost before = parts@;
        proof {
            assert(s@.take(i + 1).drop_last() == s@.take(i as int));
            assert(front.drop_last() == texts(parts@));
        }
        if s[i] == sep {
            parts.push(current);
            current = Vec::new();
            proof {
                assert(texts(parts@) == front);
            }
        } else {
            current.push(s[i]);
        }
        i += 1;
    }
    let ghost front = texts(parts@).push(current@);
    parts.push(current);
    proof {
        assert(texts(parts@) == front);
        assert(s@.take(i as int) == s@);
    }
    parts
}

/// The pieces in order, with `sep` between each two of them.
pub fn join_with(parts: &Vec<Vec<char>>, sep: &str) -> (r: Vec<char>)
    ensures
        r@ == join(texts(parts@), sep@),
{
    let glue = chars_of(sep);
    let mut out: Vec<char> = Vec::new();
    let mut i: usize = 0;
    while i < parts.len()
        invariant
            i <= parts.len(),
            glue@ == sep@,
            out@ == join(texts(parts@).take(i as int), sep@),
        decreases parts.len() - i,
    {
        proof {
            assert(texts(parts@).take(i + 1).drop_last() == texts(parts@).take(i as int));
        }
        if i > 0 {
            extend(&mut out, glue.as_slice());
        }
        extend(&mut out, parts[i].as_slice());
        i += 1;
    }
    proof {
        assert(texts(parts@).take(i as int) == texts(parts@));
    }
    out
}

/// Appends a run of characters to a vector.
pub fn extend(out: &mut Vec<char>, chars: &[char])
    ensures
        final(out)@ == old(out)@ + chars@,
{
    let mut i: usize = 0;
    while i < chars.len()
        invariant
            i <= chars.len(),
            out@ == old(out)@ + chars@.take(i as int),
        decreases chars.len() - i,
    {
        out.push(chars[i]);
        i += 1;
    }
}

/// Appends the characters of a string to a vector.
pub fn extend_str(out: &mut Vec<char>, s: &str)
    ensures
        final(out)@ == old(out)@ + s@,
{
    let chars = chars_of(s);
    extend(out, chars.as_slice());
}

/// The character is an ASCII digit.
pub open spec fn digit(c: char) -> bool {
    '0' <= c <= '9'
}

/// All characters are ASCII digits.
pub open spec fn all_digits(s: Seq<char>) -> bool {
    forall|i: int| 0 <= i < s.len() ==> digit(#[trigger] s[i])
}

/// Whether all characters are ASCII digits.
pub fn are_digits(s: &[char]) -> (r: bool)
    ensures
        r == all_digits(s@),
{
    let mut i: usize = 0;
    while i < s.len()
        invariant
            i <= s.len(),
            forall|j: int| 0 <= j < i ==> digit(#[trigger] s@[j]),
        decreases s.len() - i,
    {
        if !('0' <= s[i] && s[i] <= '9') {
            return false;
        }
        i += 1;
    }
    true
}

/// Whether two texts are the same.
pub fn same(a: &str, b: &str) -> (r: bool)
    ensures
        r == (a@ == b@),
{
    a.to_owned() == b.to_owned()
}

/// `a` stands before `b` in the order of strings: the first characters that
/// differ decide by their code points, and a proper prefix stands first.
pub open spec fn precedes(a: Seq<char>, b: Seq<char>) -> bool
    decreases a.len(),
{
    if b.len() == 0 {
        false
    } else if a.len() == 0 {
        true
    } else if a[0] == b[0] {
        precedes(a.skip(1), b.skip(1))
    } else {
        a[0] < b[0]
    }
}

/// Whether `a` stands before `b` in the order of strings.
pub fn is_before(a: &str, b: &str) -> (r: bool)
    ensures
        r == precedes(a@, b@),
{
    let x = chars_of(a);
    let y = chars_of(b);
    let mut i: usize = 0;
    proof {
        assert(x@.skip(0) == x@);
        assert(y@.skip(0) == y@);
    }
    while i < x.len() && i < y.len()
        invariant
            i <= x.len(),
            i <= y.len(),
            x@ == a@,
            y@ == b@,
            precedes(x@.skip(i as int), y@.skip(i as int)) == precedes(a@, b@),
        decreases x.len() - i,
    {
        if x[i] != y[i] {
            return x[i] < y[i];
        }
        proof {
            assert(x@.skip(i as int).skip(1) == x@.skip(i + 1));
            assert(y@.skip(i as int).skip(1) == y@.skip(i + 1));
        }
        i += 1;
    }
    i < y.len()
}

/// The order of strings is irreflexive and total.
pub proof fn lemma_order_total(a: Seq<char>, b: Seq<char>)
    ensures
        !precedes(a, a),
        !(precedes(a, b) && precedes(b, a)),
        a == b || precedes(a, b) || precedes(b, a),
    decreases a.len(),
{
    if a.len() > 0 {
        lemma_order_total(a.skip(1), b.skip(1));
        if b.len() > 0 && a[0] == b[0] && a.skip(1) == b.skip(1) {
            assert(a == seq![a[0]] + a.skip(1));
            assert(b == seq![b[0]] + b.skip(1));
        }
    } else if b.len() == 0 {
        assert(a == b);
    }
}

/// The order of strings is transitive.
pub proof fn lemma_order_transitive(a: Seq<char>, b: Seq<char>, c: Seq<char>)
    requires
        precedes(a, b),
        precedes(b, c),
    ensures
        precedes(a, c),
    decreases a.len(),
{
    if a.len() > 0 && a[0] == b[0] && b[0] == c[0] {
        lemma_order_transitive(a.skip(1), b.skip(1), c.skip(1));
    }
}

/// Each text stands before all later ones.
pub open spec fn strictly_sorted(s: Seq<Seq<char>>) -> bool {
    forall|i: int, j: int| 0 <= i < j < s.len() ==> precedes(#[trigger] s[i], #[trigger] s[j])
}

/// Inserts a text into a strictly sorted list, unless it is there already.
fn insert_sorted(list: &mut Vec<String>, entry: String)
    requires
        strictly_sorted(strings(old(list)@)),
    ensures
        strictly_sorted(strings(final(list)@)),
        strings(final(list)@).to_set() == strings(old(list)@).to_set().insert(entry@),
{
    let ghost before = strings(list@);
    let mut i: usize = 0;
    while i < list.len() && is_before(list[i].as_str(), entry.as_str())
        invariant
            i <= list.len(),
            list@ == old(list)@,
            before == strings(list@),
            forall|j: int| 0 <= j < i ==> precedes(#[trigger] before[j], entry@),
        decreases list.len() - i,
    {
        proof {
            assert(list@[i as int]@ == before[i as int]);
        }
        i += 1;
    }
    if i < list.len() && list[i] == entry {
        proof {
            assert(before[i as int] == entry@);
            assert(before.to_set().insert(entry@) == before.to_set());
        }
        return;
    }
    let ghost text = entry@;
    list.insert(i, entry);
    proof {
        let after = strings(list@);
        assert(after == before.insert(i as int, text));
        if i < before.len() {
            lemma_order_total(before[i as int], text);
            assert(before[i as int] == old(list)@[i as int]@);
        }
        assert forall|a: int, b: int| 0 <= a < b < after.len() implies precedes(
            #[trigger] after[a],
            #[trigger] after[b],
        ) by {
            if a < i && b == i {
                assert(after[a] == before[a]);
            } else if a == i {
                assert(after[b] == before[b - 1]);
                if b - 1 > i {
                    lemma_order_transitive(text, before[i as int], before[b - 1]);
                }
            } else if b < i {
                assert(after[a] == before[a] && after[b] == before[b]);
            } else if a < i {
                assert(after[a] == before[a] && after[b] == before[b - 1]);
            } else {
                assert(after[a] == before[a - 1] && after[b] == before[b - 1]);
            }
        }
        assert forall|x: Seq<char>| after.to_set().contains(x) == before.to_set().insert(
            text,
        ).contains(x) by {
            if after.contains(x) {
                let k = choose|k: int| 0 <= k < after.len() && after[k] == x;
                if k < i {
                    assert(before[k] == x);
                } else if k > i {
                    assert(before[k - 1] == x);
                }
            }
            if before.contains(x) {
                let k = choose|k: int| 0 <= k < before.len() && before[k] == x;
                if k < i {
                    assert(after[k] == x);
                } else {
                    assert(after[k + 1] == x);
                }
            }
            assert(after[i as int] == text);
        }
        assert(after.to_set() == before.to_set().insert(text));
    }
}

/// Sorts texts and drops repetitions.
pub fn sort_unique(list: Vec<String>) -> (r: Vec<String>)
    ensures
        strictly_sorted(strings(r@)),
        strings(r@).to_set() == strings(list@).to_set(),
{
    let mut out: Vec<String> = Vec::new();
    let ghost view = strings(list@);
    let mut i: usize = 0;
    proof {
        assert(strings(out@).to_set() == view.take(0).to_set());
    }
    while i < list.len()
        invariant
            i <= list.len(),
            view == strings(list@),
            strictly_sorted(strings(out@)),
            strings(out@).to_set() == view.take(i as int).to_set(),
        decreases list.len() - i,
    {
        insert_sorted(&mut out, list[i].clone());
        proof {
            assert(view.take(i + 1) == view.take(i as int).push(view[i as int]));
            view.take(i as int).lemma_push_to_set_commute(view[i as int]);
        }
        i += 1;
    }
    proof {
        assert(view.take(i as int) == view);
    }
    out
}

/// Two strictly sorted lists of the same texts are the same list.
pub proof fn law_sorted_list_is_unique(a: Seq<Seq<char>>, b: Seq<Seq<char>>)
    requires
        strictly_sorted(a),
        strictly_sorted(b),
        a.to_set() == b.to_set(),
    ensures
        a == b,
    decreases a.len(),
{
    if a.len() == 0 {
        if b.len() > 0 {
            assert(b.to_set().contains(b[0]));
            assert(a.to_set().contains(b[0]));
        }
    } else {
        assert(a.to_set().contains(a.last()));
        assert(b.to_set().contains(a.last()));
        let m = choose|m: int| 0 <= m < b.len() && b[m] == a.last();
        assert(b.to_set().contains(b.last()));
        assert(a.to_set().contains(b.last()));
        let n = choose|n: int| 0 <= n < a.len() && a[n] == b.last();
        if a.last() != b.last() {
            assert(precedes(b[m], b.last()));
            assert(precedes(a[n], a.last()));
            lemma_order_total(a.last(), b.last());
        }
        let x = a.drop_last();
        let y = b.drop_last();
        assert forall|t: Seq<char>| x.to_set().contains(t) == y.to_set().contains(t) by {
            if x.contains(t) {
                let k = choose|k: int| 0 <= k < x.len() && x[k] == t;
                assert(a[k] == t);
                assert(a.to_set().contains(t));
                let l = choose|l: int| 0 <= l < b.len() && b[l] == t;
                lemma_order_total(t, t);
                assert(precedes(a[k], a.last()));
                assert(y[l] == t);
            }
            if y.contains(t) {
                let k = choose|k: int| 0 <= k < y.len() && y[k] == t;
                assert(b[k] == t);
                assert(b.to_set().contains(t));
                let l = choose|l: int| 0 <= l < a.len() && a[l] == t;
                lemma_order_total(t, t);
                assert(precedes(b[k], b.last()));
                assert(x[l] == t);
            }
        }
        assert(x.to_set() == y.to_set());
        law_sorted_list_is_unique(x, y);
        assert(a == x.push(a.last()));
        assert(b == y.push(b.last()));
    }
}

/// `s` with each occurrence of `p`, from left to right, replaced by `with`.
pub open spec fn replace_all(s: Seq<char>, p: Seq<char>, with: Seq<char>) -> Seq<char>
    decreases s.len(),
{
    match find(s, p, 0) {
        Some(k) => if p.len() > 0 {
            proof {
                lemma_find(s, p, 0);
            }
            s.take(k) + with + replace_all(s.skip(k + p.len()), p, with)
        } else {
            s
        },
        None => s,
    }
}

/// Replaces each occurrence of a non-empty text.
pub fn replace_in(s: &[char], p: &str, with: char) -> (r: Vec<char>)
    requires
        p@.len() > 0,
    ensures
        r@ == replace_all(s@, p@, seq![with]),
{
    let width: usize = chars_of(p).len();
    let mut out: Vec<char> = Vec::new();
    let mut rest: &[char] = s;
    loop
        invariant
            width == p@.len(),
            p@.len() > 0,
            out@ + replace_all(rest@, p@, seq![with]) == replace_all(s@, p@, seq![with]),
        ensures
            out@ + rest@ == replace_all(s@, p@, seq![with]),
        decreases rest@.len(),
    {
        let n: usize = rest.len();
        match find_in(rest, p, 0) {
            Some(k) => {
                let ghost before = out@ + replace_all(rest@, p@, seq![with]);
                extend(&mut out, vstd::slice::slice_subrange(rest, 0, k));
                out.push(with);
                rest = vstd::slice::slice_subrange(rest, k + width, n);
                proof {
                    assert(out@ + replace_all(rest@, p@, seq![with]) == before);
                }
            },
            None => {
                break;
            },
        }
    }
    extend(&mut out, rest);
    out
}

/// Whether the list holds the text.
pub fn holds(list: &Vec<String>, s: &str) -> (r: bool)
    ensures
        r == strings(list@).contains(s@),
{
    let ghost view = strings(list@);
    let mut i: usize = 0;
    while i < list.len()
        invariant
            i <= list.len(),
            view == strings(list@),
            forall|j: int| 0 <= j < i ==> #[trigger] view[j] != s@,
        decreases list.len() - i,
    {
        proof {
            assert(view[i as int] == list@[i as int]@);
        }
        if same(list[i].as_str(), s) {
            return true;
        }
        i += 1;
    }
    false
}

} // verus!
