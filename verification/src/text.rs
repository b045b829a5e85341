//! Text primitives with the meaning that Rust's `str` gives them: the
//! `White_Space` property of `char::is_whitespace`, the lines of
//! `str::lines` and the words of `str::split_whitespace`.

use vstd::prelude::*;

verus! {

/// Code points with the Unicode `White_Space` property, the set that
/// `char::is_whitespace` accepts.
pub open spec fn is_ws_code(u: u32) -> bool {
    ||| 0x09 <= u <= 0x0D
    ||| u == 0x20 || u == 0x85 || u == 0xA0 || u == 0x1680
    ||| 0x2000 <= u <= 0x200A
    ||| u == 0x2028 || u == 0x2029 || u == 0x202F || u == 0x205F || u == 0x3000
}

pub open spec fn is_ws(c: char) -> bool {
    is_ws_code(c as u32)
}

/// Index of the first `'\n'` in `s`, or `s.len()` when it has none.
pub open spec fn newline_at(s: Seq<char>) -> nat
    decreases s.len(),
{
    if s.len() == 0 {
        0
    } else if s[0] == '\n' {
        0
    } else {
        1 + newline_at(s.drop_first())
    }
}

/// Removes one trailing `'\r'`.
pub open spec fn strip_cr(l: Seq<char>) -> Seq<char> {
    if l.len() > 0 && l.last() == '\r' {
        l.drop_last()
    } else {
        l
    }
}

/// The first line of a non-empty text: up to its first `'\n'`, without a
/// `'\r'` right before that `'\n'`; the whole text when it has no `'\n'`.
pub open spec fn first_line(s: Seq<char>) -> Seq<char> {
    let n = newline_at(s);
    if n < s.len() {
        strip_cr(s.take(n as int))
    } else {
        s
    }
}

/// What follows the first line and its line ending.
pub open spec fn after_line(s: Seq<char>) -> Seq<char> {
    let n = newline_at(s);
    if n < s.len() {
        s.skip(n + 1int)
    } else {
        Seq::empty()
    }
}

/// The lines of a text, as `str::lines` yields them.
pub open spec fn lines(s: Seq<char>) -> Seq<Seq<char>>
    decreases s.len(),
{
    if s.len() == 0 {
        Seq::empty()
    } else {
        proof {
            lemma_newline_at(s);
        }
        seq![first_line(s)] + lines(after_line(s))
    }
}

/// `words_from(s, cur)`: the words of `cur + s` when `cur` is a run of
/// non-whitespace characters.
pub open spec fn words_from(s: Seq<char>, cur: Seq<char>) -> Seq<Seq<char>>
    decreases s.len(),
{
    let done: Seq<Seq<char>> = if cur.len() > 0 {
        seq![cur]
    } else {
        Seq::empty()
    };
    if s.len() == 0 {
        done
    } else if is_ws(s[0]) {
        done + words_from(s.drop_first(), Seq::empty())
    } else {
        words_from(s.drop_first(), cur.push(s[0]))
    }
}

/// The maximal runs of non-whitespace characters, as `str::split_whitespace`
/// yields them.
pub open spec fn words(s: Seq<char>) -> Seq<Seq<char>> {
    words_from(s, Seq::empty())
}

/// The texts that a list of index ranges picks out of `t`.
pub open spec fn ranges_view(t: Seq<char>, rs: Seq<(usize, usize)>) -> Seq<Seq<char>> {
    rs.map_values(|r: (usize, usize)| t.subrange(r.0 as int, r.1 as int))
}

pub proof fn lemma_newline_at(s: Seq<char>)
    ensures
        newline_at(s) <= s.len(),
        newline_at(s) < s.len() ==> s[newline_at(s) as int] == '\n',
        forall|k: int| 0 <= k < newline_at(s) ==> s[k] != '\n',
    decreases s.len(),
{
    if s.len() > 0 && s[0] != '\n' {
        lemma_newline_at(s.drop_first());
        assert forall|k: int| 0 <= k < newline_at(s) implies s[k] != '\n' by {
            if k > 0 {
                assert(s[k] == s.drop_first()[k - 1]);
            }
        }
    }
}

/// A position `m` with no `'\n'` before it that is the end or a `'\n'` is
/// where the first newline is.
pub proof fn lemma_newline_at_is(s: Seq<char>, m: int)
    requires
        0 <= m <= s.len(),
        forall|k: int| 0 <= k < m ==> s[k] != '\n',
        m < s.len() ==> s[m] == '\n',
    ensures
        newline_at(s) == m,
    decreases s.len(),
{
    if s.len() > 0 && m > 0 {
        assert forall|k: int| 0 <= k < m - 1 implies s.drop_first()[k] != '\n' by {
            assert(s.drop_first()[k] == s[k + 1]);
        }
        lemma_newline_at_is(s.drop_first(), m - 1);
    }
}

/// `char::is_whitespace`.
pub fn is_whitespace(c: char) -> (b: bool)
    ensures
        b == is_ws(c),
{
    let u = c as u32;
    (0x09 <= u && u <= 0x0D) || u == 0x20 || u == 0x85 || u == 0xA0 || u == 0x1680 || (0x2000
        <= u && u <= 0x200A) || u == 0x2028 || u == 0x2029 || u == 0x202F || u == 0x205F || u
        == 0x3000
}

/// The characters of a string.
pub fn chars_of(s: &str) -> (v: Vec<char>)
    ensures
        v@ == s@,
{
    let mut v: Vec<char> = Vec::new();
    for c in it: s.chars()
        invariant
            v@ == it.seq().take(it.index() as int),
    {
        v.push(c);
    }
    v
}


/// The first line of `t` from `pos` on: it spans `t[r.0..r.1]`, and the
/// next line starts at `r.2`.
pub(crate) fn next_line(t: &Vec<char>, pos: usize) -> (r: (usize, usize, usize))
    requires
        pos < t.len(),
    ensures
        r.0 == pos,
        r.0 <= r.1 <= t.len(),
        pos < r.2 <= t.len(),
        t@.subrange(r.0 as int, r.1 as int) == first_line(t@.skip(pos as int)),
        t@.skip(r.2 as int) == after_line(t@.skip(pos as int)),
        lines(t@.skip(pos as int)) == seq![first_line(t@.skip(pos as int))] + lines(
            t@.skip(r.2 as int),
        ),
{
    let ghost s = t@.skip(pos as int);
    let n = t.len();
    let mut i = pos;
    while i < n && t[i] != '\n'
        invariant
            n == t.len(),
            pos <= i <= n,
            forall|k: int| pos <= k < i ==> t@[k] != '\n',
        decreases n - i,
    {
        i = i + 1;
    }
    proof {
        assert forall|k: int| 0 <= k < i - pos implies s[k] != '\n' by {
            assert(s[k] == t@[pos + k]);
        }
        lemma_newline_at_is(s, i - pos);
    }
    if i < n {
        let mut end = i;
        if end > pos && t[end - 1] == '\r' {
            end = end - 1;
            assert(t@.subrange(pos as int, end as int) =~= s.take(i - pos).drop_last());
        } else {
            assert(t@.subrange(pos as int, end as int) =~= s.take(i - pos));
        }
        assert(t@.skip(i + 1) =~= s.skip(i - pos + 1));
        (pos, end, i + 1)
    } else {
        assert(t@.subrange(pos as int, n as int) =~= s);
        assert(t@.skip(n as int) =~= Seq::<char>::empty());
        (pos, n, n)
    }
}

/// The words of `t[start..end]`, each as the range of `t` that it spans.
pub(crate) fn split_words(t: &Vec<char>, start: usize, end: usize) -> (ws: Vec<(usize, usize)>)
    requires
        start <= end <= t.len(),
    ensures
        ranges_view(t@, ws@) == words(t@.subrange(start as int, end as int)),
        forall|k: int| 0 <= k < ws.len() ==> start <= #[trigger] ws@[k].0 <= ws@[k].1 <= end,
{
    let ghost line = t@.subrange(start as int, end as int);
    let mut ws: Vec<(usize, usize)> = Vec::new();
    let mut cur = start;
    let mut i = start;
    assert(t@.subrange(start as int, start as int) =~= Seq::<char>::empty());
    while i < end
        invariant
            start <= cur <= i <= end <= t.len(),
            line == t@.subrange(start as int, end as int),
            forall|k: int| 0 <= k < ws.len() ==> start <= #[trigger] ws@[k].0 <= ws@[k].1 <= i,
            words(line) == ranges_view(t@, ws@) + words_from(
                t@.subrange(i as int, end as int),
                t@.subrange(cur as int, i as int),
            ),
        decreases end - i,
    {
        let ghost s = t@.subrange(i as int, end as int);
        let ghost old_ws = ws@;
        assert(s[0] == t@[i as int]);
        assert(s.drop_first() =~= t@.subrange(i + 1, end as int));
        if is_whitespace(t[i]) {
            if cur < i {
                ws.push((cur, i));
                assert(ranges_view(t@, ws@) =~= ranges_view(t@, old_ws) + seq![
                    t@.subrange(cur as int, i as int),
                ]);
            } else {
                assert(t@.subrange(cur as int, i as int) =~= Seq::<char>::empty());
            }
            assert(t@.subrange(i + 1, i + 1) =~= Seq::<char>::empty());
            cur = i + 1;
        } else {
            assert(t@.subrange(cur as int, i as int).push(t@[i as int]) =~= t@.subrange(
                cur as int,
                i + 1,
            ));
        }
        i = i + 1;
    }
    let ghost old_ws = ws@;
    assert(t@.subrange(end as int, end as int) =~= Seq::<char>::empty());
    if cur < end {
        ws.push((cur, end));
        assert(ranges_view(t@, ws@) =~= ranges_view(t@, old_ws) + seq![
            t@.subrange(cur as int, end as int),
        ]);
    } else {
        assert(t@.subrange(cur as int, end as int) =~= Seq::<char>::empty());
        assert(ranges_view(t@, ws@) + Seq::<Seq<char>>::empty() =~= ranges_view(t@, ws@));
    }
    ws
}

/// Whether `t[a..b]` spells `lit`.
pub(crate) fn range_eq_str(t: &Vec<char>, a: usize, b: usize, lit: &str) -> (r: bool)
    requires
        a <= b <= t.len(),
    ensures
        r == (t@.subrange(a as int, b as int) == lit@),
{
    let n = lit.unicode_len();
    if b - a != n {
        return false;
    }
    let mut k: usize = 0;
    while k < n
        invariant
            n == lit@.len(),
            b - a == n,
            a <= b <= t.len(),
            0 <= k <= n,
            forall|j: int| 0 <= j < k ==> t@[a + j] == lit@[j],
        decreases n - k,
    {
        if t[a + k] != lit.get_char(k) {
            assert(t@.subrange(a as int, b as int)[k as int] != lit@[k as int]);
            return false;
        }
        k = k + 1;
    }
    assert(t@.subrange(a as int, b as int) =~= lit@);
    true
}


/// Whether two strings are equal.
pub fn str_eq(a: &str, b: &str) -> (r: bool)
    ensures
        r == (a@ == b@),
{
    let n = a.unicode_len();
    if n != b.unicode_len() {
        return false;
    }
    let mut k: usize = 0;
    while k < n
        invariant
            n == a@.len(),
            n == b@.len(),
            0 <= k <= n,
            forall|j: int| 0 <= j < k ==> a@[j] == b@[j],
        decreases n - k,
    {
        if a.get_char(k) != b.get_char(k) {
            return false;
        }
        k = k + 1;
    }
    assert(a@ =~= b@);
    true
}

/// Whether a string holds the character `c`.
pub fn str_contains(s: &str, c: char) -> (r: bool)
    ensures
        r == s@.contains(c),
{
    let n = s.unicode_len();
    let mut k: usize = 0;
    while k < n
        invariant
            n == s@.len(),
            0 <= k <= n,
            forall|j: int| 0 <= j < k ==> s@[j] != c,
        decreases n - k,
    {
        if s.get_char(k) == c {
            return true;
        }
        k = k + 1;
    }
    false
}

/// The part of `s` that `t[a..b]` spans, as a new `String`, where `t` holds
/// the characters of `s`.
pub(crate) fn range_string(s: &str, t: &Vec<char>, a: usize, b: usize) -> (r: String)
    requires
        t@ == s@,
        a <= b <= t.len(),
    ensures
        r@ == t@.subrange(a as int, b as int),
{
    let part = s.substring_char(a, b);
    String::from_str(part)
}


/// Any whitespace character splits the words: those of `a`, then those of
/// `b`, when `c` is whitespace.
pub proof fn lemma_words_split(a: Seq<char>, c: char, b: Seq<char>)
    requires
        is_ws(c),
    ensures
        words(a + seq![c] + b) == words(a) + words(b),
{
    lemma_words_from_split(a, c, b, Seq::empty());
}

proof fn lemma_words_from_split(a: Seq<char>, c: char, b: Seq<char>, cur: Seq<char>)
    requires
        is_ws(c),
    ensures
        words_from(a + seq![c] + b, cur) == words_from(a, cur) + words(b),
    decreases a.len(),
{
    let s = a + seq![c] + b;
    let done: Seq<Seq<char>> = if cur.len() > 0 {
        seq![cur]
    } else {
        Seq::empty()
    };
    if a.len() == 0 {
        assert(s[0] == c);
        assert(s.drop_first() =~= b);
        assert(words_from(a, cur) == done);
    } else {
        assert(s[0] == a[0]);
        assert(s.drop_first() =~= a.drop_first() + seq![c] + b);
        if is_ws(a[0]) {
            lemma_words_from_split(a.drop_first(), c, b, Seq::empty());
            assert(done + (words_from(a.drop_first(), Seq::empty()) + words(b)) =~= (done
                + words_from(a.drop_first(), Seq::empty())) + words(b));
        } else {
            lemma_words_from_split(a.drop_first(), c, b, cur.push(a[0]));
        }
    }
}

/// A non-empty run of characters none of which is whitespace is one word.
pub proof fn lemma_words_run(s: Seq<char>)
    requires
        s.len() > 0,
        forall|i: int| 0 <= i < s.len() ==> !is_ws(#[trigger] s[i]),
    ensures
        words(s) == seq![s],
{
    lemma_words_from_run(s, Seq::empty());
    assert(Seq::<char>::empty() + s =~= s);
}

proof fn lemma_words_from_run(s: Seq<char>, cur: Seq<char>)
    requires
        cur.len() + s.len() > 0,
        forall|i: int| 0 <= i < s.len() ==> !is_ws(#[trigger] s[i]),
    ensures
        words_from(s, cur) == seq![cur + s],
    decreases s.len(),
{
    if s.len() == 0 {
        assert(cur + s =~= cur);
    } else {
        assert(!is_ws(s[0]));
        assert forall|i: int| 0 <= i < s.drop_first().len() implies !is_ws(
            #[trigger] s.drop_first()[i],
        ) by {
            assert(s.drop_first()[i] == s[i + 1]);
        }
        lemma_words_from_run(s.drop_first(), cur.push(s[0]));
        assert(cur.push(s[0]) + s.drop_first() =~= cur + s);
    }
}


/// A text is split into lines at each `'\n'`: the part before the first
/// `'\n'` (without a `'\r'` right before it) is the first line, and the
/// lines of what follows come after it. A non-empty text without `'\n'` is
/// one line.
pub proof fn lemma_lines_split(a: Seq<char>, b: Seq<char>)
    requires
        forall|i: int| 0 <= i < a.len() ==> #[trigger] a[i] != '\n',
    ensures
        (a.len() > 0 && a.last() == '\r') ==> lines(a + seq!['\n'] + b) == seq![a.drop_last()]
            + lines(b),
        !(a.len() > 0 && a.last() == '\r') ==> lines(a + seq!['\n'] + b) == seq![a] + lines(b),
        a.len() > 0 ==> lines(a) == seq![a],
{
    let s = a + seq!['\n'] + b;
    assert forall|k: int| 0 <= k < a.len() implies s[k] != '\n' by {
        assert(s[k] == a[k]);
    }
    assert(s[a.len() as int] == '\n');
    lemma_newline_at_is(s, a.len() as int);
    assert(s.take(a.len() as int) =~= a);
    assert(s.skip(a.len() + 1int) =~= b);
    if a.len() > 0 {
        lemma_newline_at_is(a, a.len() as int);
        assert(lines(after_line(a)) == Seq::<Seq<char>>::empty());
        assert(seq![a] + Seq::<Seq<char>>::empty() =~= seq![a]);
    }
}

} // verus!
