//! The two kinds of numeric token: an index (an unsigned integer in decimal)
//! and a floating-point literal.
use vstd::prelude::*;

verus! {

/// An ASCII decimal digit.
pub open spec fn is_digit(c: char) -> bool {
    '0' <= c && c <= '9'
}

pub open spec fn digit_value(c: char) -> nat {
    (c as u32 - '0' as u32) as nat
}

/// Non-empty, and digits only.
pub open spec fn all_digits(d: Seq<char>) -> bool {
    d.len() > 0 && forall|i: int| 0 <= i < d.len() ==> is_digit(#[trigger] d[i])
}

/// The number that the digits `d` write in decimal.
pub open spec fn digits_value(d: Seq<char>) -> nat
    decreases d.len(),
{
    if d.len() == 0 {
        0
    } else {
        digits_value(d.drop_last()) * 10 + digit_value(d.last())
    }
}

/// `t` without the one `+` sign that may lead it.
pub open spec fn unsigned_part(t: Seq<char>) -> Seq<char> {
    if t.len() > 0 && t[0] == '+' {
        t.drop_first()
    } else {
        t
    }
}

/// The index that the token `t` writes: an optional `+` followed by decimal
/// digits, whose value fits in `usize`. `None` for any other token.
pub open spec fn index_value(t: Seq<char>) -> Option<usize> {
    let d = unsigned_part(t);
    if all_digits(d) && digits_value(d) <= usize::MAX {
        Some(digits_value(d) as usize)
    } else {
        None
    }
}

proof fn lemma_prefix_value_le(d: Seq<char>, j: int)
    requires
        0 <= j <= d.len(),
    ensures
        digits_value(d.take(j)) <= digits_value(d),
    decreases d.len(),
{
    if j < d.len() {
        assert(d.drop_last().take(j) =~= d.take(j));
        lemma_prefix_value_le(d.drop_last(), j);
    } else {
        assert(d.take(j) =~= d);
    }
}

/// Reads the index that the token `t` writes, as `index_value` states it.
pub fn parse_index(t: &[char]) -> (r: Option<usize>)
    ensures
        r == index_value(t@),
{
    let n = t.len();
    let mut i: usize = 0;
    if n > 0 && t[0] == '+' {
        i = 1;
    }
    let ghost d = unsigned_part(t@);
    assert(d =~= t@.skip(i as int));
    if i == n {
        return None;
    }
    let mut v: usize = 0;
    let mut j: usize = i;
    while j < n
        invariant
            i < n,
            i <= j <= n,
            n == t@.len(),
            d == t@.skip(i as int),
            d == unsigned_part(t@),
            all_digits(d.take(j - i)) || j == i,
            v == digits_value(d.take(j - i)),
        decreases n - j,
    {
        let c = t[j];
        let ghost k = j - i;
        assert(d.take(k + 1).drop_last() =~= d.take(k));
        assert(d.take(k + 1).last() == c);
        assert(d[k] == c);
        if !('0' <= c && c <= '9') {
            assert(!all_digits(d));
            return None;
        }
        let dv = (c as u32 - '0' as u32) as usize;
        assert(digit_value(c) == dv);
        assert(digits_value(d.take(k + 1)) == v * 10 + dv);
        if v > (usize::MAX - dv) / 10 {
            assert(digits_value(d.take(k + 1)) > usize::MAX) by (nonlinear_arith)
                requires
                    digits_value(d.take(k + 1)) == v * 10 + dv,
                    v > (usize::MAX - dv) / 10,
                    dv <= 9,
            ;
            proof {
                lemma_prefix_value_le(d, k + 1);
            }
            assert(digits_value(d) > usize::MAX);
            return None;
        }
        assert(v * 10 + dv <= usize::MAX) by (nonlinear_arith)
            requires
                v <= (usize::MAX - dv) / 10,
                dv <= 9,
        ;
        v = v * 10 + dv;
        j = j + 1;
        assert forall|x: int| 0 <= x < d.take(j - i).len() implies is_digit(
            #[trigger] d.take(j - i)[x],
        ) by {
            if x < k {
                assert(d.take(j - i)[x] == d.take(k)[x]);
            }
        }
    }
    assert(d.take(n - i) =~= d);
    Some(v)
}

/// A `+` or `-` sign.
pub open spec fn is_sign(c: char) -> bool {
    c == '+' || c == '-'
}

/// `t` without the one sign that may lead it.
pub open spec fn strip_sign(t: Seq<char>) -> Seq<char> {
    if t.len() > 0 && is_sign(t[0]) {
        t.drop_first()
    } else {
        t
    }
}

/// `b` is the lower-case ASCII word `w`, whatever the case of its letters.
pub open spec fn is_word_nocase(b: Seq<char>, w: Seq<char>) -> bool {
    b.len() == w.len() && forall|i: int|
        0 <= i < b.len() ==> (#[trigger] b[i] == w[i] || b[i] as u32 + 32 == w[i] as u32)
}

/// Digits with at most one `.` among them, and at least one digit.
pub open spec fn is_mantissa(m: Seq<char>) -> bool {
    &&& forall|i: int| 0 <= i < m.len() ==> is_digit(#[trigger] m[i]) || m[i] == '.'
    &&& forall|i: int, j: int|
        0 <= i < m.len() && 0 <= j < m.len() && #[trigger] m[i] == '.' && #[trigger] m[j] == '.'
            ==> i == j
    &&& exists|i: int| 0 <= i < m.len() && is_digit(#[trigger] m[i])
}

/// An exponent mark, in either case.
pub open spec fn is_exp_mark(c: char) -> bool {
    c == 'e' || c == 'E'
}

/// A decimal number: a mantissa, then optionally an exponent mark and a
/// signed run of digits.
pub open spec fn is_decimal(b: Seq<char>) -> bool {
    ||| is_mantissa(b)
    ||| exists|k: int|
        0 <= k < b.len() && is_exp_mark(#[trigger] b[k]) && is_mantissa(b.take(k))
            && all_digits(strip_sign(b.skip(k + 1)))
}

/// A token that `f64`'s `FromStr` accepts: an optional sign, then `inf`,
/// `infinity` or `nan` in any case, or a decimal number.
pub open spec fn is_float_literal(t: Seq<char>) -> bool {
    let b = strip_sign(t);
    ||| is_word_nocase(b, seq!['i', 'n', 'f'])
    ||| is_word_nocase(b, seq!['i', 'n', 'f', 'i', 'n', 'i', 't', 'y'])
    ||| is_word_nocase(b, seq!['n', 'a', 'n'])
    ||| is_decimal(b)
}

fn matches_word_nocase(b: &[char], w: &[char]) -> (r: bool)
    requires
        forall|i: int| 0 <= i < w@.len() ==> 'a' <= #[trigger] w@[i] <= 'z',
    ensures
        r == is_word_nocase(b@, w@),
{
    if b.len() != w.len() {
        return false;
    }
    let mut i: usize = 0;
    while i < b.len()
        invariant
            b@.len() == w@.len(),
            i <= b@.len(),
            forall|x: int| 0 <= x < w@.len() ==> 'a' <= #[trigger] w@[x] <= 'z',
            forall|x: int|
                0 <= x < i ==> (#[trigger] b@[x] == w@[x] || b@[x] as u32 + 32 == w@[x] as u32),
        decreases b@.len() - i,
    {
        let c = b[i];
        let l = w[i];
        if !(c == l || c as u32 == l as u32 - 32) {
            return false;
        }
        i = i + 1;
    }
    true
}

fn check_mantissa(m: &[char]) -> (r: bool)
    ensures
        r == is_mantissa(m@),
{
    let mut seen_dot = false;
    let mut seen_digit = false;
    let mut i: usize = 0;
    while i < m.len()
        invariant
            i <= m@.len(),
            forall|x: int| 0 <= x < i ==> is_digit(#[trigger] m@[x]) || m@[x] == '.',
            forall|x: int, y: int|
                0 <= x < i && 0 <= y < i && #[trigger] m@[x] == '.' && #[trigger] m@[y] == '.'
                    ==> x == y,
            seen_dot <==> exists|x: int| 0 <= x < i && #[trigger] m@[x] == '.',
            seen_digit <==> exists|x: int| 0 <= x < i && is_digit(#[trigger] m@[x]),
        decreases m@.len() - i,
    {
        let c = m[i];
        if '0' <= c && c <= '9' {
            seen_digit = true;
        } else if c == '.' {
            if seen_dot {
                let ghost x = choose|x: int| 0 <= x < i && #[trigger] m@[x] == '.';
                assert(m@[x] == '.' && m@[i as int] == '.');
                return false;
            }
            seen_dot = true;
        } else {
            assert(!(is_digit(m@[i as int]) || m@[i as int] == '.'));
            return false;
        }
        i = i + 1;
    }
    seen_digit
}

/// Whether the token `t` is a floating-point literal, as `is_float_literal` states it.
pub fn check_float_literal(t: &[char]) -> (r: bool)
    ensures
        r == is_float_literal(t@),
{
    let mut s: usize = 0;
    if t.len() > 0 && (t[0] == '+' || t[0] == '-') {
        s = 1;
    }
    let b = vstd::slice::slice_subrange(t, s, t.len());
    assert(b@ =~= strip_sign(t@));
    let inf = ['i', 'n', 'f'];
    let infinity = ['i', 'n', 'f', 'i', 'n', 'i', 't', 'y'];
    let nan = ['n', 'a', 'n'];
    assert(inf@ =~= seq!['i', 'n', 'f']);
    assert(infinity@ =~= seq!['i', 'n', 'f', 'i', 'n', 'i', 't', 'y']);
    assert(nan@ =~= seq!['n', 'a', 'n']);
    if matches_word_nocase(b, &inf) || matches_word_nocase(b, &infinity) || matches_word_nocase(
        b,
        &nan,
    ) {
        return true;
    }
    check_decimal(b)
}

fn check_decimal(b: &[char]) -> (r: bool)
    ensures
        r == is_decimal(b@),
{
    let n = b.len();
    let mut k: usize = 0;
    while k < n && !(b[k] == 'e' || b[k] == 'E')
        invariant
            k <= n == b@.len(),
            forall|x: int| 0 <= x < k ==> !is_exp_mark(#[trigger] b@[x]),
        decreases n - k,
    {
        k = k + 1;
    }
    if k == n {
        return check_mantissa(b);
    }
    let m = vstd::slice::slice_subrange(b, 0, k);
    let e = vstd::slice::slice_subrange(b, k + 1, n);
    let mut s: usize = 0;
    if e.len() > 0 && (e[0] == '+' || e[0] == '-') {
        s = 1;
    }
    let digits = vstd::slice::slice_subrange(e, s, e.len());
    assert(digits@ =~= strip_sign(b@.skip(k + 1)));
    let r = check_mantissa(m) && check_all_digits(digits);
    proof {
        assert(!is_mantissa(b@)) by {
            assert(!(is_digit(b@[k as int]) || b@[k as int] == '.'));
        }
        assert forall|j: int|
            0 <= j < b@.len() && is_exp_mark(#[trigger] b@[j]) && is_mantissa(b@.take(j))
                && all_digits(strip_sign(b@.skip(j + 1))) implies j == k by {
            if j > k {
                assert(b@.take(j)[k as int] == b@[k as int]);
            }
        }
    }
    r
}

fn check_all_digits(d: &[char]) -> (r: bool)
    ensures
        r == all_digits(d@),
{
    if d.len() == 0 {
        return false;
    }
    let mut i: usize = 0;
    while i < d.len()
        invariant
            i <= d@.len(),
            forall|x: int| 0 <= x < i ==> is_digit(#[trigger] d@[x]),
        decreases d@.len() - i,
    {
        let c = d[i];
        if !('0' <= c && c <= '9') {
            return false;
        }
        i = i + 1;
    }
    true
}

/// The digit that writes `d`, below ten.
pub open spec fn digit_char(d: nat) -> char {
    (d + '0' as u32) as char
}

/// How `n` is written in decimal: no sign and no leading zeros.
pub open spec fn decimal(n: nat) -> Seq<char>
    decreases n,
{
    if n < 10 {
        seq![digit_char(n)]
    } else {
        decimal(n / 10).push(digit_char(n % 10))
    }
}

/// The decimal writing of an index reads back as that index.
pub proof fn lemma_decimal_index(n: usize)
    ensures
        index_value(decimal(n as nat)) == Some(n),
        forall|i: int| 0 <= i < decimal(n as nat).len() ==> is_digit(#[trigger] decimal(n as nat)[i]),
{
    lemma_decimal_digits(n as nat);
}

proof fn lemma_digit_char(k: nat)
    requires
        k < 10,
    ensures
        is_digit(digit_char(k)),
        digit_value(digit_char(k)) == k,
{
    assert(digit_char(k) as u32 == k + 48);
}

proof fn lemma_decimal_digits(n: nat)
    ensures
        all_digits(decimal(n)),
        digits_value(decimal(n)) == n,
    decreases n,
{
    if n >= 10 {
        lemma_decimal_digits(n / 10);
        let d = decimal(n);
        assert(d.drop_last() =~= decimal(n / 10));
        assert forall|i: int| 0 <= i < d.len() implies is_digit(#[trigger] d[i]) by {
            if i < d.len() - 1 {
                assert(d[i] == decimal(n / 10)[i]);
            }
        }
        lemma_digit_char(n % 10);
        assert(d.last() == digit_char(n % 10));
        assert(digits_value(d) == digits_value(decimal(n / 10)) * 10 + n % 10);
        assert(n == (n / 10) * 10 + n % 10);
    } else {
        lemma_digit_char(n);
        let d = decimal(n);
        assert(d.drop_last() =~= Seq::<char>::empty());
        assert(digits_value(d) == digits_value(d.drop_last()) * 10 + digit_value(d.last()));
    }
}

} // verus!
