//! The configuration file: comment lines, the `window_buffer` setting and
//! the decimal integers it holds.

use vstd::prelude::*;
use crate::text::{chars_of, lines, next_line, range_eq_str, split_words, words};

verus! {

/// The gap, in pixels, kept around tiled windows when the configuration
/// does not set `window_buffer`.
pub const DEFAULT_WINDOW_BUFFER: i32 = 6;

/// Why a configuration cannot be read.
#[derive(Debug, Clone, Copy, PartialEq, Eq, Structural)]
pub enum ConfigError {
    /// A `window_buffer` line has fewer than three words.
    MissingValue,
    /// The third word of a `window_buffer` line is not an `i32`.
    InvalidNumber,
}

pub open spec fn is_digit(c: char) -> bool {
    48 <= (c as u32) <= 57
}

pub open spec fn digit_value(c: char) -> int {
    (c as u32) - 48
}

pub open spec fn all_digits(s: Seq<char>) -> bool {
    forall|i: int| 0 <= i < s.len() ==> is_digit(#[trigger] s[i])
}

/// The value of a string of decimal digits.
pub open spec fn digits_value(s: Seq<char>) -> int
    decreases s.len(),
{
    if s.len() == 0 {
        0
    } else {
        digits_value(s.drop_last()) * 10 + digit_value(s.last())
    }
}

/// What `str::parse::<i32>` gives: an optional sign, then one or more
/// decimal digits, whose value must fit in an `i32`.
pub open spec fn spec_parse_i32(s: Seq<char>) -> Option<i32> {
    let signed = s.len() > 0 && (s[0] == '-' || s[0] == '+');
    let negative = s.len() > 0 && s[0] == '-';
    let body = if signed {
        s.drop_first()
    } else {
        s
    };
    if body.len() > 0 && all_digits(body) {
        let v = if negative {
            -digits_value(body)
        } else {
            digits_value(body)
        };
        if i32::MIN <= v <= i32::MAX {
            Some(v as i32)
        } else {
            None
        }
    } else {
        None
    }
}

/// A line that starts with `#` or `/` is a comment.
pub open spec fn is_comment(line: Seq<char>) -> bool {
    line.len() > 0 && (line[0] == '#' || line[0] == '/')
}

/// The buffer after reading one more line, when it was `cur` before.
pub open spec fn buffer_step(line: Seq<char>, cur: i32) -> Result<i32, ConfigError> {
    let w = words(line);
    if is_comment(line) || w.len() == 0 || w[0] != "window_buffer"@ {
        Ok(cur)
    } else if w.len() < 3 {
        Err(ConfigError::MissingValue)
    } else {
        match spec_parse_i32(w[2]) {
            Some(v) => Ok(v),
            None => Err(ConfigError::InvalidNumber),
        }
    }
}

/// The buffer after reading `ls` in order, starting from `cur`; the first
/// line that cannot be read decides the error.
pub open spec fn buffer_after(ls: Seq<Seq<char>>, cur: i32) -> Result<i32, ConfigError>
    decreases ls.len(),
{
    if ls.len() == 0 {
        Ok(cur)
    } else {
        match buffer_step(ls[0], cur) {
            Ok(v) => buffer_after(ls.drop_first(), v),
            Err(e) => Err(e),
        }
    }
}

/// The `window_buffer` a configuration text sets.
pub open spec fn spec_window_buffer(config: Seq<char>) -> Result<i32, ConfigError> {
    buffer_after(lines(config), DEFAULT_WINDOW_BUFFER)
}

proof fn lemma_digits_value_nonneg(s: Seq<char>)
    requires
        all_digits(s),
    ensures
        digits_value(s) >= 0,
    decreases s.len(),
{
    if s.len() > 0 {
        assert(all_digits(s.drop_last())) by {
            assert forall|i: int| 0 <= i < s.drop_last().len() implies is_digit(
                #[trigger] s.drop_last()[i],
            ) by {
                assert(s.drop_last()[i] == s[i]);
            }
        }
        lemma_digits_value_nonneg(s.drop_last());
        assert(is_digit(s[s.len() - 1]));
    }
}

/// More digits never give a smaller value.
proof fn lemma_digits_value_prefix(s: Seq<char>, k: int)
    requires
        all_digits(s),
        0 <= k <= s.len(),
    ensures
        digits_value(s.take(k)) <= digits_value(s),
    decreases s.len(),
{
    if k < s.len() {
        let d = s.drop_last();
        assert(all_digits(d)) by {
            assert forall|i: int| 0 <= i < d.len() implies is_digit(#[trigger] d[i]) by {
                assert(d[i] == s[i]);
            }
        }
        lemma_digits_value_prefix(d, k);
        assert(d.take(k) =~= s.take(k));
        lemma_digits_value_nonneg(d);
        assert(is_digit(s[s.len() - 1]));
    } else {
        assert(s.take(k) =~= s);
    }
}

/// `t[a..b]` read as an `i32` the way `str::parse::<i32>` reads it.
pub(crate) fn parse_i32_range(t: &Vec<char>, a: usize, b: usize) -> (r: Option<i32>)
    requires
        a <= b <= t.len(),
    ensures
        r == spec_parse_i32(t@.subrange(a as int, b as int)),
{
    let ghost s = t@.subrange(a as int, b as int);
    let mut start = a;
    let mut negative = false;
    if a < b && (t[a] == '-' || t[a] == '+') {
        negative = t[a] == '-';
        start = a + 1;
    }
    assert(a < b ==> s[0] == t@[a as int]);
    let ghost body = t@.subrange(start as int, b as int);
    assert(start > a ==> body =~= s.drop_first());
    assert(start == a ==> body =~= s);
    if start == b {
        return None;
    }
    let mut acc: i64 = 0;
    let mut i = start;
    assert(body.take(0) =~= Seq::<char>::empty());
    while i < b
        invariant
            a <= start < b <= t.len(),
            start <= i <= b,
            body == t@.subrange(start as int, b as int),
            s == t@.subrange(a as int, b as int),
            negative == (s.len() > 0 && s[0] == '-'),
            start > a ==> body == s.drop_first() && (s[0] == '-' || s[0] == '+'),
            start == a ==> body == s && !(s.len() > 0 && (s[0] == '-' || s[0] == '+')),
            forall|j: int| 0 <= j < i - start ==> is_digit(#[trigger] body[j]),
            acc == digits_value(body.take(i - start)),
            0 <= acc <= 2147483648,
        decreases b - i,
    {
        let c = t[i];
        let u = c as u32;
        if u < 48 || u > 57 {
            assert(!is_digit(body[i - start]));
            return None;
        }
        proof {
            let k = i - start;
            assert(body.take(k + 1).drop_last() =~= body.take(k));
            assert(body.take(k + 1).last() == c);
        }
        acc = acc * 10 + (u - 48) as i64;
        i = i + 1;
        if acc > 2147483648 {
            proof {
                if all_digits(body) {
                    lemma_digits_value_prefix(body, i - start);
                }
            }
            return None;
        }
    }
    assert(body.take(b - start) =~= body);
    assert(all_digits(body));
    if negative {
        Some((-acc) as i32)
    } else if acc <= 2147483647 {
        Some(acc as i32)
    } else {
        None
    }
}

/// `word` read as an `i32` the way `str::parse::<i32>` reads it.
pub fn parse_i32(word: &str) -> (r: Option<i32>)
    ensures
        r == spec_parse_i32(word@),
{
    let t = chars_of(word);
    assert(t@.subrange(0, t@.len() as int) =~= t@);
    parse_i32_range(&t, 0, t.len())
}

/// The gap kept around tiled windows: the third word of the last line whose
/// first word is `window_buffer`, or `DEFAULT_WINDOW_BUFFER` when no line
/// sets it. Lines that start with `#` or `/` are comments.
pub fn window_buffer(config: &str) -> (r: Result<i32, ConfigError>)
    ensures
        r == spec_window_buffer(config@),
{
    let t = chars_of(config);
    let n = t.len();
    let mut cur: i32 = DEFAULT_WINDOW_BUFFER;
    let mut pos: usize = 0;
    assert(t@.skip(0) =~= t@);
    while pos < n
        invariant
            n == t.len(),
            t@ == config@,
            0 <= pos <= n,
            spec_window_buffer(config@) == buffer_after(lines(t@.skip(pos as int)), cur),
        decreases n - pos,
    {
        let (a, b, next) = next_line(&t, pos);
        let ghost line = t@.subrange(a as int, b as int);
        let ghost rest = lines(t@.skip(next as int));
        assert((seq![line] + rest)[0] == line);
        assert((seq![line] + rest).drop_first() =~= rest);
        let comment = b > a && (t[a] == '#' || t[a] == '/');
        assert(comment == is_comment(line));
        if !comment {
            let ws = split_words(&t, a, b);
            if ws.len() > 0 && range_eq_str(&t, ws[0].0, ws[0].1, "window_buffer") {
                if ws.len() < 3 {
                    return Err(ConfigError::MissingValue);
                }
                match parse_i32_range(&t, ws[2].0, ws[2].1) {
                    Some(v) => {
                        cur = v;
                    },
                    None => {
                        return Err(ConfigError::InvalidNumber);
                    },
                }
            }
        }
        pos = next;
    }
    assert(t@.skip(n as int) =~= Seq::<char>::empty());
    Ok(cur)
}


/// Where the configuration file of a user with the home directory `home`
/// lies.
pub fn config_path(home: &str) -> (r: String)
    ensures
        r@ == home@ + "/.config/thearf/config"@,
{
    let mut p = String::from_str(home);
    p.append("/.config/thearf/config");
    p
}


/// A line that sets `window_buffer`.
pub open spec fn sets_buffer(line: Seq<char>) -> bool {
    !is_comment(line) && words(line).len() > 0 && words(line)[0] == "window_buffer"@
}

/// Reading a configuration in two parts is reading the first part, then the
/// second from where the first left off.
pub proof fn lemma_buffer_after_concat(a: Seq<Seq<char>>, b: Seq<Seq<char>>, cur: i32)
    ensures
        buffer_after(a + b, cur) == match buffer_after(a, cur) {
            Ok(v) => buffer_after(b, v),
            Err(e) => Err(e),
        },
    decreases a.len(),
{
    if a.len() > 0 {
        assert((a + b)[0] == a[0]);
        assert((a + b).drop_first() =~= a.drop_first() + b);
        match buffer_step(a[0], cur) {
            Ok(v) => lemma_buffer_after_concat(a.drop_first(), b, v),
            Err(e) => {},
        }
    } else {
        assert(a + b =~= b);
    }
}

/// Lines that do not set `window_buffer` keep the buffer as it was.
pub proof fn lemma_no_setting_keeps(ls: Seq<Seq<char>>, cur: i32)
    requires
        forall|i: int| 0 <= i < ls.len() ==> !sets_buffer(#[trigger] ls[i]),
    ensures
        buffer_after(ls, cur) == Ok::<i32, ConfigError>(cur),
    decreases ls.len(),
{
    if ls.len() > 0 {
        assert(!sets_buffer(ls[0]));
        assert forall|i: int| 0 <= i < ls.drop_first().len() implies !sets_buffer(
            #[trigger] ls.drop_first()[i],
        ) by {
            assert(ls.drop_first()[i] == ls[i + 1]);
        }
        lemma_no_setting_keeps(ls.drop_first(), cur);
    }
}

/// A configuration in which no line sets `window_buffer` gives the default
/// buffer.
pub proof fn lemma_default_buffer(config: Seq<char>)
    requires
        forall|i: int| 0 <= i < lines(config).len() ==> !sets_buffer(#[trigger] lines(config)[i]),
    ensures
        spec_window_buffer(config) == Ok::<i32, ConfigError>(6),
{
    lemma_no_setting_keeps(lines(config), DEFAULT_WINDOW_BUFFER);
}

/// The last setting wins: after lines that can be read, a line that sets
/// `window_buffer` to `v` gives `v`, whatever came before.
pub proof fn lemma_last_setting_wins(ls: Seq<Seq<char>>, line: Seq<char>, cur: i32, v: i32)
    requires
        buffer_after(ls, cur) is Ok,
        sets_buffer(line),
        words(line).len() >= 3,
        spec_parse_i32(words(line)[2]) == Some(v),
    ensures
        buffer_after(ls.push(line), cur) == Ok::<i32, ConfigError>(v),
{
    lemma_buffer_after_concat(ls, seq![line], cur);
    assert(ls.push(line) =~= ls + seq![line]);
    let w = buffer_after(ls, cur)->Ok_0;
    assert(seq![line][0] == line);
    assert(seq![line].drop_first() =~= Seq::<Seq<char>>::empty());
    assert(buffer_step(line, w) == Ok::<i32, ConfigError>(v));
    assert(buffer_after(Seq::<Seq<char>>::empty(), v) == Ok::<i32, ConfigError>(v));
    assert(buffer_after(seq![line], w) == Ok::<i32, ConfigError>(v));
}


/// A single decimal digit reads as its value.
pub proof fn lemma_parse_digit(c: char)
    requires
        '0' as u32 <= c as u32 <= '9' as u32,
    ensures
        spec_parse_i32(seq![c]) == Some(((c as u32) - ('0' as u32)) as i32),
{
    assert(seq![c].drop_last() =~= Seq::<char>::empty());
    assert(digits_value(Seq::<char>::empty()) == 0);
    assert(digits_value(seq![c]) == digit_value(c));
    assert(all_digits(seq![c]));
}

/// One more digit multiplies the value read so far by ten and adds the
/// digit, while the result fits in an `i32`; a `+` sign changes nothing and
/// a `-` sign negates.
pub proof fn lemma_parse_digits(s: Seq<char>, c: char)
    requires
        s.len() > 0,
        all_digits(s),
        '0' as u32 <= c as u32 <= '9' as u32,
        10 * digits_value(s) + ((c as u32) - ('0' as u32)) <= i32::MAX,
    ensures
        spec_parse_i32(s.push(c)) == Some((10 * (spec_parse_i32(s)->Some_0 as int) + ((c as u32)
            - ('0' as u32))) as i32),
        spec_parse_i32(seq!['+'] + s) == spec_parse_i32(s),
        spec_parse_i32(seq!['-'] + s) == Some((-(spec_parse_i32(s)->Some_0 as int)) as i32),
{
    lemma_digits_value_nonneg(s);
    assert(s.push(c).drop_last() =~= s);
    assert(all_digits(s.push(c))) by {
        assert forall|i: int| 0 <= i < s.push(c).len() implies is_digit(#[trigger] s.push(c)[i]) by {
            if i < s.len() {
                assert(s.push(c)[i] == s[i]);
            }
        }
    }
    assert((seq!['+'] + s).drop_first() =~= s);
    assert((seq!['-'] + s).drop_first() =~= s);
    assert(s[0] != '-' && s[0] != '+') by {
        assert(is_digit(s[0]));
    }
}

} // verus!
