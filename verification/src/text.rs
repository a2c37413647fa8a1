//! Character-level helpers: lexicographic order on strings, building strings
//! one character at a time, and zero-padded two-digit numbers.
use vstd::prelude::*;

verus! {

/// `a` and `b` agree on their first `k` characters.
pub open spec fn agree_before(a: Seq<char>, b: Seq<char>, k: int) -> bool {
    forall|j: int| 0 <= j < k ==> a[j] == b[j]
}

/// `a` sorts before `b`, and `k` is the first position where they differ
/// (or `a` ends there while `b` goes on).
pub open spec fn lex_lt_at(a: Seq<char>, b: Seq<char>, k: int) -> bool {
    &&& 0 <= k <= a.len()
    &&& k <= b.len()
    &&& agree_before(a, b, k)
    &&& {
        ||| (k == a.len() && k < b.len())
        ||| (k < a.len() && k < b.len() && a[k] < b[k])
    }
}

/// Lexicographic order by code point, which is the order of `String` in std
/// (UTF-8 byte order and code point order agree).
pub open spec fn lex_lt(a: Seq<char>, b: Seq<char>) -> bool {
    exists|k: int| #[trigger] lex_lt_at(a, b, k)
}

/// No string sorts before itself.
pub proof fn lemma_lex_irreflexive(a: Seq<char>)
    ensures
        !lex_lt(a, a),
{
}

proof fn lemma_lex_total_from(a: Seq<char>, b: Seq<char>, k: int)
    requires
        0 <= k <= a.len(),
        k <= b.len(),
        agree_before(a, b, k),
        a != b,
    ensures
        lex_lt(a, b) || lex_lt(b, a),
    decreases a.len() - k,
{
    if k == a.len() || k == b.len() {
        if k == a.len() && k == b.len() {
            assert(a =~= b);
        } else if k == a.len() {
            assert(lex_lt_at(a, b, k));
        } else {
            assert(lex_lt_at(b, a, k));
        }
    } else if a[k] != b[k] {
        if a[k] < b[k] {
            assert(lex_lt_at(a, b, k));
        } else {
            assert(b[k] < a[k]);
            assert(lex_lt_at(b, a, k));
        }
    } else {
        lemma_lex_total_from(a, b, k + 1);
    }
}

/// Two different strings are ordered one way or the other.
pub proof fn lemma_lex_total(a: Seq<char>, b: Seq<char>)
    requires
        a != b,
    ensures
        lex_lt(a, b) || lex_lt(b, a),
{
    lemma_lex_total_from(a, b, 0);
}

/// The order is transitive.
pub proof fn lemma_lex_transitive(a: Seq<char>, b: Seq<char>, c: Seq<char>)
    requires
        lex_lt(a, b),
        lex_lt(b, c),
    ensures
        lex_lt(a, c),
{
    let k1 = choose|k: int| lex_lt_at(a, b, k);
    let k2 = choose|k: int| lex_lt_at(b, c, k);
    if k1 < k2 {
        assert(b[k1] == c[k1]);
        assert(lex_lt_at(a, c, k1));
    } else if k2 < k1 {
        assert(a[k2] == b[k2]);
        assert(lex_lt_at(a, c, k2));
    } else {
        assert(lex_lt_at(a, c, k1));
    }
}

/// Strictly increasing in lexicographic order.
pub open spec fn lex_increasing(ks: Seq<Seq<char>>) -> bool {
    forall|a: int, b: int| 0 <= a < b < ks.len() ==> lex_lt(#[trigger] ks[a], #[trigger] ks[b])
}

/// Two strictly increasing lists of strings with the same members are the
/// same list.
pub proof fn lemma_increasing_unique(x: Seq<Seq<char>>, y: Seq<Seq<char>>)
    requires
        lex_increasing(x),
        lex_increasing(y),
        forall|k: Seq<char>| x.contains(k) <==> y.contains(k),
    ensures
        x == y,
    decreases x.len(),
{
    if x.len() == 0 {
        if y.len() > 0 {
            assert(y.contains(y[0]));
        }
        assert(x =~= y);
    } else {
        assert(x.contains(x[0]));
        let j = choose|j: int| 0 <= j < y.len() && y[j] == x[0];
        assert(y.contains(y[0]));
        let i = choose|i: int| 0 <= i < x.len() && x[i] == y[0];
        if x[0] != y[0] {
            assert(i > 0 && j > 0);
            assert(lex_lt(x[0], x[i]));
            assert(lex_lt(y[0], y[j]));
            lemma_lex_transitive(x[0], y[0], x[0]);
            lemma_lex_irreflexive(x[0]);
        }
        let xr = x.drop_first();
        let yr = y.drop_first();
        assert forall|a: int, b: int| 0 <= a < b < xr.len() implies lex_lt(#[trigger] xr[a], #[trigger] xr[b]) by {
            assert(lex_lt(x[a + 1], x[b + 1]));
        }
        assert forall|a: int, b: int| 0 <= a < b < yr.len() implies lex_lt(#[trigger] yr[a], #[trigger] yr[b]) by {
            assert(lex_lt(y[a + 1], y[b + 1]));
        }
        assert forall|k: Seq<char>| xr.contains(k) <==> yr.contains(k) by {
            if xr.contains(k) {
                let a = choose|a: int| 0 <= a < xr.len() && xr[a] == k;
                assert(lex_lt(x[0], x[a + 1]));
                assert(x.contains(k));
                let b = choose|b: int| 0 <= b < y.len() && y[b] == k;
                if b == 0 {
                    lemma_lex_irreflexive(k);
                }
                assert(yr[b - 1] == k);
            }
            if yr.contains(k) {
                let b = choose|b: int| 0 <= b < yr.len() && yr[b] == k;
                assert(lex_lt(y[0], y[b + 1]));
                assert(y.contains(k));
                let a = choose|a: int| 0 <= a < x.len() && x[a] == k;
                if a == 0 {
                    lemma_lex_irreflexive(k);
                }
                assert(xr[a - 1] == k);
            }
        }
        lemma_increasing_unique(xr, yr);
        assert(x =~= y) by {
            assert forall|a: int| 0 <= a < x.len() implies x[a] == y[a] by {
                if a > 0 {
                    assert(x[a] == xr[a - 1]);
                }
            }
        }
    }
}


/// Whether `a` sorts strictly before `b`, by code point.
pub fn lex_less(a: &str, b: &str) -> (res: bool)
    ensures
        res == lex_lt(a@, b@),
{
    let la = a.unicode_len();
    let lb = b.unicode_len();
    let mut i: usize = 0;
    while i < la && i < lb
        invariant
            la == a@.len(),
            lb == b@.len(),
            i <= la,
            i <= lb,
            agree_before(a@, b@, i as int),
        decreases la - i,
    {
        let ca = a.get_char(i);
        let cb = b.get_char(i);
        if ca != cb {
            let res = ca < cb;
            proof {
                if res {
                    assert(lex_lt_at(a@, b@, i as int));
                } else {
                    assert forall|k: int| !lex_lt_at(a@, b@, k) by {
                        if lex_lt_at(a@, b@, k) {
                            if k > i {
                                assert(a@[i as int] == b@[i as int]);
                            }
                        }
                    }
                }
            }
            return res;
        }
        i = i + 1;
    }
    let res = la < lb;
    proof {
        if res {
            assert(lex_lt_at(a@, b@, i as int));
        } else {
            assert forall|k: int| !lex_lt_at(a@, b@, k) by {
                if lex_lt_at(a@, b@, k) {
                    if k < i {
                        assert(a@[k] == b@[k]);
                    }
                }
            }
        }
    }
    res
}

/// Appends one character (std `String::push`).
#[verifier::external_body]
pub(crate) fn push_char(s: &mut String, c: char)
    ensures
        final(s)@ == old(s)@.push(c),
{
    s.push(c);
}

/// The ASCII digit for `d` in `0..10`.
pub open spec fn digit_char(d: int) -> char {
    (48 + d) as char
}

/// `n` in `0..100` written with exactly two digits, zero-padded (`{:02}`).
pub open spec fn two_digits(n: int) -> Seq<char> {
    seq![digit_char(n / 10), digit_char(n % 10)]
}

/// Appends `n` as two zero-padded digits.
pub fn push_two_digits(s: &mut String, n: u32)
    requires
        n < 100,
    ensures
        final(s)@ == old(s)@ + two_digits(n as int),
{
    let tens = n / 10;
    let ones = n % 10;
    let c1 = ((48 + tens) as u8) as char;
    let c2 = ((48 + ones) as u8) as char;
    push_char(s, c1);
    push_char(s, c2);
    assert(s@ =~= old(s)@ + two_digits(n as int));
}

/// The characters of `s`, one per element.
pub fn chars_of(s: &str) -> (res: Vec<char>)
    ensures
        res@ == s@,
{
    let n = s.unicode_len();
    let mut res: Vec<char> = Vec::new();
    let mut i: usize = 0;
    while i < n
        invariant
            n == s@.len(),
            i <= n,
            res@ == s@.take(i as int),
        decreases n - i,
    {
        res.push(s.get_char(i));
        assert(s@.take(i as int + 1) =~= s@.take(i as int).push(s@[i as int]));
        i = i + 1;
    }
    assert(s@.take(n as int) =~= s@);
    res
}

/// Unicode `White_Space`, the set that `char::is_whitespace` and `str::trim`
/// go by.
pub open spec fn is_whitespace(c: char) -> bool {
    ||| ('\u{9}' <= c && c <= '\u{d}')
    ||| c == ' '
    ||| c == '\u{85}'
    ||| c == '\u{a0}'
    ||| c == '\u{1680}'
    ||| ('\u{2000}' <= c && c <= '\u{200a}')
    ||| c == '\u{2028}'
    ||| c == '\u{2029}'
    ||| c == '\u{202f}'
    ||| c == '\u{205f}'
    ||| c == '\u{3000}'
}

/// Whether `c` is white space in the sense of `char::is_whitespace`.
pub fn char_is_whitespace(c: char) -> (res: bool)
    ensures
        res == is_whitespace(c),
{
    ('\u{9}' <= c && c <= '\u{d}') || c == ' ' || c == '\u{85}' || c == '\u{a0}' || c == '\u{1680}'
        || ('\u{2000}' <= c && c <= '\u{200a}') || c == '\u{2028}' || c == '\u{2029}' || c == '\u{202f}'
        || c == '\u{205f}' || c == '\u{3000}'
}

/// `s` without its leading white space.
pub open spec fn trim_leading(s: Seq<char>) -> Seq<char>
    decreases s.len(),
{
    if s.len() > 0 && is_whitespace(s[0]) {
        trim_leading(s.drop_first())
    } else {
        s
    }
}

/// `s` without its trailing white space.
pub open spec fn trim_trailing(s: Seq<char>) -> Seq<char>
    decreases s.len(),
{
    if s.len() > 0 && is_whitespace(s.last()) {
        trim_trailing(s.drop_last())
    } else {
        s
    }
}

/// `s` without leading and trailing white space (`str::trim`).
pub open spec fn trim(s: Seq<char>) -> Seq<char> {
    trim_trailing(trim_leading(s))
}

/// The bounds of `cs[lo..hi]` once trimmed.
pub fn trim_range(cs: &Vec<char>, lo: usize, hi: usize) -> (res: (usize, usize))
    requires
        lo <= hi <= cs.len(),
    ensures
        lo <= res.0 <= res.1 <= hi,
        cs@.subrange(res.0 as int, res.1 as int) == trim(cs@.subrange(lo as int, hi as int)),
{
    let mut a: usize = lo;
    while a < hi && char_is_whitespace(cs[a])
        invariant
            lo <= a <= hi <= cs.len(),
            trim_leading(cs@.subrange(lo as int, hi as int)) == trim_leading(cs@.subrange(a as int, hi as int)),
        decreases hi - a,
    {
        assert(cs@.subrange(a as int, hi as int).drop_first() =~= cs@.subrange(a as int + 1, hi as int));
        a = a + 1;
    }
    let ghost lead = cs@.subrange(a as int, hi as int);
    assert(trim_leading(lead) == lead);
    let mut b: usize = hi;
    while b > a && char_is_whitespace(cs[b - 1])
        invariant
            lo <= a <= b <= hi <= cs.len(),
            lead == cs@.subrange(a as int, hi as int),
            trim_trailing(lead) == trim_trailing(cs@.subrange(a as int, b as int)),
        decreases b - a,
    {
        assert(cs@.subrange(a as int, b as int).drop_last() =~= cs@.subrange(a as int, b as int - 1));
        b = b - 1;
    }
    (a, b)
}

/// The bounds of `cs` once trimmed.
pub fn trim_bounds(cs: &Vec<char>) -> (res: (usize, usize))
    ensures
        res.0 <= res.1 <= cs.len(),
        cs@.subrange(res.0 as int, res.1 as int) == trim(cs@),
{
    assert(cs@.subrange(0, cs@.len() as int) =~= cs@);
    trim_range(cs, 0, cs.len())
}

/// An ASCII digit.
pub open spec fn is_digit(c: char) -> bool {
    '0' <= c && c <= '9'
}

/// The decimal value of a string of ASCII digits.
pub open spec fn digits_value(s: Seq<char>) -> int
    decreases s.len(),
{
    if s.len() == 0 {
        0
    } else {
        digits_value(s.drop_last()) * 10 + (s.last() as int - 48)
    }
}

/// Every character is an ASCII digit.
pub open spec fn all_digits(s: Seq<char>) -> bool {
    forall|i: int| 0 <= i < s.len() ==> is_digit(#[trigger] s[i])
}

/// What `str::parse::<i64>` gives: an optional `+` or `-`, then at least one
/// ASCII digit and nothing else, within the range of `i64`.
pub open spec fn parse_i64_spec(s: Seq<char>) -> Option<int> {
    if s.len() > 0 && (s[0] == '+' || s[0] == '-') {
        let d = s.drop_first();
        if d.len() > 0 && all_digits(d) {
            let v = if s[0] == '-' { -digits_value(d) } else { digits_value(d) };
            if i64::MIN <= v <= i64::MAX { Some(v) } else { None }
        } else {
            None
        }
    } else if s.len() > 0 && all_digits(s) && digits_value(s) <= i64::MAX {
        Some(digits_value(s))
    } else {
        None
    }
}

/// What `str::parse::<u64>` gives: an optional `+`, then at least one ASCII
/// digit and nothing else, within the range of `u64`.
pub open spec fn parse_u64_spec(s: Seq<char>) -> Option<int> {
    let d = if s.len() > 0 && s[0] == '+' { s.drop_first() } else { s };
    if d.len() > 0 && all_digits(d) && digits_value(d) <= u64::MAX {
        Some(digits_value(d))
    } else {
        None
    }
}

proof fn lemma_digits_nonneg(s: Seq<char>)
    requires
        all_digits(s),
    ensures
        digits_value(s) >= 0,
    decreases s.len(),
{
    if s.len() > 0 {
        assert(all_digits(s.drop_last())) by {
            assert forall|i: int| 0 <= i < s.drop_last().len() implies is_digit(#[trigger] s.drop_last()[i]) by {
                assert(s.drop_last()[i] == s[i]);
            }
        }
        lemma_digits_nonneg(s.drop_last());
        assert(is_digit(s[s.len() - 1]));
    }
}

proof fn lemma_digits_grow(s: Seq<char>, j: int)
    requires
        all_digits(s),
        0 <= j <= s.len(),
    ensures
        digits_value(s.take(j)) <= digits_value(s),
    decreases s.len() - j,
{
    if j < s.len() {
        lemma_digits_grow(s, j + 1);
        let t = s.take(j + 1);
        assert(t.drop_last() =~= s.take(j));
        assert(all_digits(s.take(j))) by {
            assert forall|i: int| 0 <= i < s.take(j).len() implies is_digit(#[trigger] s.take(j)[i]) by {
                assert(s.take(j)[i] == s[i]);
            }
        }
        lemma_digits_nonneg(s.take(j));
        assert(is_digit(s[j]));
        assert(t.last() == s[j]);
    } else {
        assert(s.take(j) =~= s);
    }
}

/// The magnitude of the digits `cs[lo..hi]`, if they are all ASCII digits,
/// there is at least one, and the magnitude is at most `limit`.
fn parse_magnitude(cs: &Vec<char>, lo: usize, hi: usize, limit: u64) -> (res: Option<u64>)
    requires
        lo <= hi <= cs.len(),
    ensures
        ({
            let d = cs@.subrange(lo as int, hi as int);
            match res {
                Some(v) => d.len() > 0 && all_digits(d) && digits_value(d) <= limit && v == digits_value(d),
                None => !(d.len() > 0 && all_digits(d) && digits_value(d) <= limit),
            }
        }),
{
    let ghost d = cs@.subrange(lo as int, hi as int);
    if lo >= hi {
        return None;
    }
    let mut acc: u64 = 0;
    let mut i: usize = lo;
    while i < hi
        invariant
            lo <= i <= hi <= cs.len(),
            d == cs@.subrange(lo as int, hi as int),
            all_digits(d.take(i - lo)),
            acc == digits_value(d.take(i - lo)),
            acc <= limit,
        decreases hi - i,
    {
        let c = cs[i];
        if !('0' <= c && c <= '9') {
            proof {
                assert(d[i - lo] == c);
            }
            return None;
        }
        let digit = (c as u32 - 48) as u64;
        assert(d.take(i - lo + 1).drop_last() =~= d.take(i - lo));
        assert(d.take(i - lo + 1).last() == c);
        assert(all_digits(d.take(i - lo + 1))) by {
            assert forall|k: int| 0 <= k < d.take(i - lo + 1).len() implies is_digit(#[trigger] d.take(i - lo + 1)[k]) by {
                if k < i - lo {
                    assert(d.take(i - lo + 1)[k] == d.take(i - lo)[k]);
                }
            }
        }
        if digit > limit || acc > (limit - digit) / 10 {
            proof {
                assert(acc * 10 + digit > limit) by (nonlinear_arith)
                    requires
                        digit > limit || acc > (limit - digit) / 10,
                        digit <= 9,
                ;
                if all_digits(d) {
                    lemma_digits_grow(d, i - lo + 1);
                }
            }
            return None;
        }
        assert(acc * 10 + digit <= limit) by (nonlinear_arith)
            requires
                acc <= (limit - digit) / 10,
                digit <= limit,
        ;
        acc = acc * 10 + digit;
        i = i + 1;
    }
    assert(d.take(hi - lo) =~= d);
    Some(acc)
}

/// `str::parse::<i64>` on the characters `cs[lo..hi]`.
pub fn parse_i64_chars(cs: &Vec<char>, lo: usize, hi: usize) -> (res: Option<i64>)
    requires
        lo <= hi <= cs.len(),
    ensures
        match res {
            Some(v) => parse_i64_spec(cs@.subrange(lo as int, hi as int)) == Some(v as int),
            None => parse_i64_spec(cs@.subrange(lo as int, hi as int)) is None,
        },
{
    let ghost s = cs@.subrange(lo as int, hi as int);
    if lo < hi && (cs[lo] == '+' || cs[lo] == '-') {
        let negative = cs[lo] == '-';
        assert(s.drop_first() =~= cs@.subrange(lo as int + 1, hi as int));
        let limit: u64 = if negative { 0x8000_0000_0000_0000 } else { 0x7fff_ffff_ffff_ffff };
        match parse_magnitude(cs, lo + 1, hi, limit) {
            Some(m) => {
                if negative {
                    if m == 0x8000_0000_0000_0000 {
                        Some(i64::MIN)
                    } else {
                        Some(-(m as i64))
                    }
                } else {
                    Some(m as i64)
                }
            },
            None => None,
        }
    } else {
        match parse_magnitude(cs, lo, hi, 0x7fff_ffff_ffff_ffff) {
            Some(m) => Some(m as i64),
            None => None,
        }
    }
}

/// `str::parse::<u64>` on the characters `cs[lo..hi]`.
pub fn parse_u64_chars(cs: &Vec<char>, lo: usize, hi: usize) -> (res: Option<u64>)
    requires
        lo <= hi <= cs.len(),
    ensures
        match res {
            Some(v) => parse_u64_spec(cs@.subrange(lo as int, hi as int)) == Some(v as int),
            None => parse_u64_spec(cs@.subrange(lo as int, hi as int)) is None,
        },
{
    let ghost s = cs@.subrange(lo as int, hi as int);
    if lo < hi && cs[lo] == '+' {
        assert(s.drop_first() =~= cs@.subrange(lo as int + 1, hi as int));
        parse_magnitude(cs, lo + 1, hi, 0xffff_ffff_ffff_ffff)
    } else {
        parse_magnitude(cs, lo, hi, 0xffff_ffff_ffff_ffff)
    }
}

/// `str::parse::<u64>` on a whole string.
pub fn parse_u64(s: &str) -> (res: Option<u64>)
    ensures
        match res {
            Some(v) => parse_u64_spec(s@) == Some(v as int),
            None => parse_u64_spec(s@) is None,
        },
{
    let cs = chars_of(s);
    assert(cs@.subrange(0, cs@.len() as int) =~= s@);
    parse_u64_chars(&cs, 0, cs.len())
}

/// The decimal digits of `n`, without leading zeros (`{}` of an unsigned
/// integer).
pub open spec fn decimal_text(n: nat) -> Seq<char>
    decreases n,
{
    if n < 10 {
        seq![digit_char(n as int)]
    } else {
        decimal_text(n / 10).push(digit_char((n % 10) as int))
    }
}

/// `{}` of a signed integer: a minus sign before the digits of a negative one.
pub open spec fn signed_decimal_text(n: int) -> Seq<char> {
    if n < 0 {
        seq!['-'] + decimal_text((-n) as nat)
    } else {
        decimal_text(n as nat)
    }
}

/// Appends the decimal digits of `n`.
pub fn push_decimal(s: &mut String, n: u64)
    ensures
        final(s)@ == old(s)@ + decimal_text(n as nat),
    decreases n,
{
    if n >= 10 {
        push_decimal(s, n / 10);
    }
    push_char(s, ((48 + n % 10) as u8) as char);
    assert(final(s)@ =~= old(s)@ + decimal_text(n as nat));
}

/// The decimal text of an unsigned integer.
pub fn decimal_string(n: u64) -> (res: String)
    ensures
        res@ == decimal_text(n as nat),
{
    let mut s = String::new();
    push_decimal(&mut s, n);
    assert(s@ =~= decimal_text(n as nat));
    s
}

/// Appends the decimal text of a signed integer.
pub fn push_signed_decimal(s: &mut String, n: i64)
    ensures
        final(s)@ == old(s)@ + signed_decimal_text(n as int),
{
    if n < 0 {
        push_char(s, '-');
        let magnitude: u64 = if n == i64::MIN { 0x8000_0000_0000_0000 } else { (-n) as u64 };
        push_decimal(s, magnitude);
    } else {
        push_decimal(s, n as u64);
    }
    assert(final(s)@ =~= old(s)@ + signed_decimal_text(n as int));
}

/// The strings of `parts` with `sep` between each two (`[String]::join`).
pub open spec fn joined(parts: Seq<Seq<char>>, sep: Seq<char>) -> Seq<char>
    decreases parts.len(),
{
    if parts.len() == 0 {
        Seq::empty()
    } else if parts.len() == 1 {
        parts[0]
    } else {
        joined(parts.drop_last(), sep) + sep + parts.last()
    }
}

/// The characters of each string.
pub open spec fn texts(v: Seq<String>) -> Seq<Seq<char>> {
    v.map_values(|x: String| x@)
}

/// The strings of `parts` with `sep` between each two.
pub fn join_strings(parts: &Vec<String>, sep: &str) -> (res: String)
    ensures
        res@ == joined(texts(parts@), sep@),
{
    let mut s = String::new();
    let mut i: usize = 0;
    while i < parts.len()
        invariant
            i <= parts.len(),
            s@ == joined(texts(parts@.take(i as int)), sep@),
        decreases parts.len() - i,
    {
        let ghost before = texts(parts@.take(i as int));
        let ghost after = texts(parts@.take(i as int + 1));
        assert(after.drop_last() =~= before);
        assert(after.last() == parts@[i as int]@);
        if i > 0 {
            s.append(sep);
        } else {
            assert(after.len() == 1);
        }
        s.append(parts[i].as_str());
        i = i + 1;
    }
    assert(parts@.take(i as int) =~= parts@);
    s
}

/// A string with the characters `cs[lo..hi]`.
pub fn string_of_chars(cs: &Vec<char>, lo: usize, hi: usize) -> (res: String)
    requires
        lo <= hi <= cs.len(),
    ensures
        res@ == cs@.subrange(lo as int, hi as int),
{
    let mut s = String::new();
    let mut i: usize = lo;
    while i < hi
        invariant
            lo <= i <= hi <= cs.len(),
            s@ == cs@.subrange(lo as int, i as int),
        decreases hi - i,
    {
        push_char(&mut s, cs[i]);
        assert(s@ =~= cs@.subrange(lo as int, i as int + 1));
        i = i + 1;
    }
    s
}

} // verus!
