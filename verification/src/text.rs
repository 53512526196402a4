use vstd::prelude::*;

verus! {

/// Trusted, not proved: `String::push` of the standard library appends the character to the
/// end of the string and leaves the characters before it as they were.
pub assume_specification[ std::string::String::push ](s: &mut std::string::String, c: char)
    ensures
        final(s)@ == old(s)@.push(c),
;

/// The characters of `s`, in order.
pub fn chars_of(s: &str) -> (out: Vec<char>)
    ensures
        out@ == s@,
{
    let mut out: Vec<char> = Vec::new();
    for c in it: s.chars()
        invariant
            it.seq() == s@,
            out@ == s@.take(it.index() as int),
    {
        out.push(c);
        assert(s@.take(it.index() + 1) =~= s@.take(it.index() as int).push(c));
    }
    assert(s@.take(s@.len() as int) =~= s@);
    out
}

/// The string made of `chars[from..to]`.
pub fn string_of(chars: &Vec<char>, from: usize, to: usize) -> (out: String)
    requires
        from <= to <= chars.len(),
    ensures
        out@ == chars@.subrange(from as int, to as int),
{
    let mut out = String::new();
    let mut i: usize = from;
    while i < to
        invariant
            from <= i <= to <= chars.len(),
            out@ == chars@.subrange(from as int, i as int),
        decreases to - i,
    {
        out.push(chars[i]);
        i += 1;
        assert(chars@.subrange(from as int, i as int) =~= chars@.subrange(from as int, i - 1).push(
            chars@[i - 1],
        ));
    }
    out
}

/// Whether `c` is one of the ten decimal digits.
pub open spec fn is_digit(c: char) -> bool {
    '0' <= c <= '9'
}

/// The number that the decimal digit `c` stands for.
pub open spec fn digit_value(c: char) -> int {
    c as int - '0' as int
}

/// Whether every character of `s` is a decimal digit.
pub open spec fn all_digits(s: Seq<char>) -> bool {
    forall|i: int| 0 <= i < s.len() ==> is_digit(#[trigger] s[i])
}

/// The natural number that a run of decimal digits denotes; the empty run denotes zero.
pub open spec fn decimal_value(digits: Seq<char>) -> int
    decreases digits.len(),
{
    if digits.len() == 0 {
        0
    } else {
        decimal_value(digits.drop_last()) * 10 + digit_value(digits.last())
    }
}

/// The 64-bit signed integer congruent to `x` modulo 2^64.
#[verifier::opaque]
pub open spec fn wrap_i64(x: int) -> i64 {
    let m = x % 0x1_0000_0000_0000_0000;
    if m > i64::MAX {
        (m - 0x1_0000_0000_0000_0000) as i64
    } else {
        m as i64
    }
}

/// Integers that differ by a multiple of 2^64 have the same reduction.
pub proof fn lemma_wrap_shift(x: int, k: int)
    ensures
        wrap_i64(x + k * 0x1_0000_0000_0000_0000) == wrap_i64(x),
{
    reveal(wrap_i64);
    vstd::arithmetic::div_mod::lemma_mod_multiples_vanish(k, x, 0x1_0000_0000_0000_0000);
    assert(x + k * 0x1_0000_0000_0000_0000 == 0x1_0000_0000_0000_0000 * k + x);
}

/// An integer and its reduction differ by a multiple of 2^64.
pub proof fn lemma_wrap_residue(x: int) -> (k: int)
    ensures
        wrap_i64(x) == x + k * 0x1_0000_0000_0000_0000,
{
    reveal(wrap_i64);
    vstd::arithmetic::div_mod::lemma_fundamental_div_mod(x, 0x1_0000_0000_0000_0000);
    if x % 0x1_0000_0000_0000_0000 > i64::MAX {
        -(x / 0x1_0000_0000_0000_0000) - 1
    } else {
        -(x / 0x1_0000_0000_0000_0000)
    }
}

/// Reduction leaves a 64-bit signed integer as it is.
pub proof fn lemma_wrap_in_range(x: int)
    requires
        i64::MIN <= x <= i64::MAX,
    ensures
        wrap_i64(x) == x,
{
    reveal(wrap_i64);
    if x >= 0 {
        vstd::arithmetic::div_mod::lemma_small_mod(x as nat, 0x1_0000_0000_0000_0000);
    } else {
        vstd::arithmetic::div_mod::lemma_small_mod(
            (x + 0x1_0000_0000_0000_0000) as nat,
            0x1_0000_0000_0000_0000,
        );
        vstd::arithmetic::div_mod::lemma_mod_add_multiples_vanish(x, 0x1_0000_0000_0000_0000);
    }
}

/// `wrapping_add` is addition on the integers followed by one reduction.
pub proof fn lemma_wrap_add(x: i64, y: i64)
    ensures
        vstd::wrapping::i64_specs::wrapping_add(x, y) == wrap_i64(x + y),
{
    if x + y > i64::MAX {
        lemma_wrap_shift(x + y - 0x1_0000_0000_0000_0000, 1);
        lemma_wrap_in_range(x + y - 0x1_0000_0000_0000_0000);
    } else if x + y < i64::MIN {
        lemma_wrap_shift(x + y, 1);
        lemma_wrap_in_range(x + y + 0x1_0000_0000_0000_0000);
    } else {
        lemma_wrap_in_range(x + y);
    }
}

/// `wrapping_mul` is multiplication on the integers followed by one reduction.
pub proof fn lemma_wrap_mul(x: i64, y: i64)
    ensures
        vstd::wrapping::i64_specs::wrapping_mul(x, y) == wrap_i64(x * y),
{
    reveal(wrap_i64);
}

/// Appending the digit `d` to a numeral of value `v`, in wrapping arithmetic on the reduced
/// value, gives the reduction of the longer numeral's value.
pub proof fn lemma_wrap_push_digit(v: int, d: i64)
    requires
        0 <= d <= 9,
    ensures
        vstd::wrapping::i64_specs::wrapping_add(
            vstd::wrapping::i64_specs::wrapping_mul(wrap_i64(v), 10),
            d,
        ) == wrap_i64(v * 10 + d),
{
    let w = wrap_i64(v);
    let k = lemma_wrap_residue(v);
    lemma_wrap_mul(w, 10);
    let a = wrap_i64(w * 10);
    let j = lemma_wrap_residue(w * 10);
    lemma_wrap_add(a, d);
    assert(a + d == (v * 10 + d) + (10 * k + j) * 0x1_0000_0000_0000_0000) by (nonlinear_arith)
        requires
            w == v + k * 0x1_0000_0000_0000_0000,
            a == w * 10 + j * 0x1_0000_0000_0000_0000,
    ;
    lemma_wrap_shift(v * 10 + d, 10 * k + j);
}

/// Whether `c` is one of the ten decimal digits.
pub fn is_digit_char(c: char) -> (r: bool)
    ensures
        r == is_digit(c),
{
    '0' <= c && c <= '9'
}

/// The value of a decimal digit.
pub fn digit_of(c: char) -> (d: i64)
    requires
        is_digit(c),
    ensures
        d == digit_value(c),
        0 <= d <= 9,
{
    (c as u32 - '0' as u32) as i64
}

/// The character that writes the digit `d`.
pub open spec fn digit_char(d: int) -> char {
    (d + '0' as int) as char
}

/// The decimal numeral of a natural number, without leading zeros.
pub open spec fn digits_of(n: nat) -> Seq<char>
    decreases n,
{
    if n < 10 {
        seq![digit_char(n as int)]
    } else {
        digits_of(n / 10).push(digit_char((n % 10) as int))
    }
}

/// The decimal numeral of an integer: `-` before the numeral of its magnitude if it is
/// negative.
pub open spec fn decimal_text(v: int) -> Seq<char> {
    if v < 0 {
        seq!['-'] + digits_of((-v) as nat)
    } else {
        digits_of(v as nat)
    }
}

/// The 64-bit signed integer that a text denotes: an optional `+` or `-`, then one or more
/// decimal digits and nothing else, with a value in range. Any other text denotes none.
pub open spec fn integer_of_text(s: Seq<char>) -> Option<i64> {
    let signed = s.len() > 0 && (s[0] == '-' || s[0] == '+');
    let digits = if signed {
        s.skip(1)
    } else {
        s
    };
    let magnitude = decimal_value(digits);
    let value = if s.len() > 0 && s[0] == '-' {
        -magnitude
    } else {
        magnitude
    };
    if digits.len() > 0 && all_digits(digits) && i64::MIN <= value <= i64::MAX {
        Some(value as i64)
    } else {
        None
    }
}

/// Whether `needle` occurs in `hay` as a contiguous run of characters.
pub open spec fn is_substring(needle: Seq<char>, hay: Seq<char>) -> bool {
    exists|i: int|
        0 <= i <= hay.len() - needle.len() && #[trigger] hay.subrange(i, i + needle.len())
            == needle
}

/// The value of a numeral is not less than the value of any of its prefixes.
pub proof fn lemma_decimal_value_prefix(digits: Seq<char>, k: int)
    requires
        all_digits(digits),
        0 <= k <= digits.len(),
    ensures
        0 <= decimal_value(digits.take(k)) <= decimal_value(digits),
    decreases digits.len() - k,
{
    if k == digits.len() {
        assert(digits.take(k) =~= digits);
        lemma_decimal_value_nonnegative(digits);
    } else {
        lemma_decimal_value_prefix(digits, k + 1);
        let longer = digits.take(k + 1);
        assert(longer.drop_last() =~= digits.take(k));
        assert(is_digit(longer.last()));
        lemma_decimal_value_nonnegative(digits.take(k));
    }
}

/// A run of digits denotes a number that is not negative.
pub proof fn lemma_decimal_value_nonnegative(digits: Seq<char>)
    requires
        all_digits(digits),
    ensures
        0 <= decimal_value(digits),
    decreases digits.len(),
{
    if digits.len() > 0 {
        assert(is_digit(digits.last()));
        lemma_decimal_value_nonnegative(digits.drop_last());
    }
}

fn push_digits(out: &mut String, n: u64)
    ensures
        final(out)@ == old(out)@ + digits_of(n as nat),
    decreases n,
{
    if n >= 10 {
        push_digits(out, n / 10);
    }
    let ghost before = out@;
    let d: u8 = (n % 10) as u8;
    out.push((48u8 + d) as char);
    proof {
        if n >= 10 {
            assert(old(out)@ + digits_of(n as nat) =~= before.push(digit_char((n % 10) as int)));
        } else {
            assert(old(out)@ + digits_of(n as nat) =~= before.push(digit_char(n as int)));
        }
    }
}

/// Writes `n` in decimal.
pub fn number_text(n: i64) -> (out: String)
    ensures
        out@ == decimal_text(n as int),
{
    let mut out = String::new();
    if n < 0 {
        out.push('-');
        let magnitude: u64 = if n == i64::MIN {
            0x8000_0000_0000_0000u64
        } else {
            (-n) as u64
        };
        push_digits(&mut out, magnitude);
    } else {
        push_digits(&mut out, n as u64);
        assert(Seq::<char>::empty() + digits_of(n as nat) =~= digits_of(n as nat));
    }
    out
}

/// Reads a 64-bit signed integer from its decimal text.
#[verifier::loop_isolation(false)]
pub fn parse_integer(s: &str) -> (r: Option<i64>)
    ensures
        r == integer_of_text(s@),
{
    let chars = chars_of(s);
    let n = chars.len();
    if n == 0 {
        return None;
    }
    let negative = chars[0] == '-';
    let start: usize = if chars[0] == '-' || chars[0] == '+' {
        1
    } else {
        0
    };
    let ghost digits = chars@.subrange(start as int, n as int);
    assert(digits =~= if start == 1 {
        s@.skip(1)
    } else {
        s@
    });
    if start == n {
        return None;
    }
    let mut magnitude: u64 = 0;
    let mut k: usize = start;
    assert(digits.take(0) =~= Seq::<char>::empty());
    while k < n
        invariant
            start <= k <= n == chars.len(),
            digits == chars@.subrange(start as int, n as int),
            forall|j: int| 0 <= j < k - start ==> is_digit(#[trigger] digits[j]),
            magnitude == decimal_value(digits.take(k - start)),
            magnitude <= 0x8000_0000_0000_0000,
        decreases n - k,
    {
        let c = chars[k];
        assert(digits[k - start] == c);
        if !is_digit_char(c) {
            assert(!all_digits(digits));
            return None;
        }
        let d = digit_of(c);
        let next: u128 = magnitude as u128 * 10 + d as u128;
        proof {
            let longer = digits.take(k - start + 1);
            assert(longer.drop_last() =~= digits.take(k - start));
            assert(longer.last() == c);
            assert(decimal_value(longer) == next);
        }
        if next > 0x8000_0000_0000_0000 {
            proof {
                if all_digits(digits) {
                    lemma_decimal_value_prefix(digits, k - start + 1);
                    assert(decimal_value(digits) > 0x8000_0000_0000_0000);
                }
            }
            return None;
        }
        magnitude = next as u64;
        k += 1;
    }
    assert(digits.take(n - start) =~= digits);
    if negative {
        if magnitude == 0x8000_0000_0000_0000 {
            Some(i64::MIN)
        } else {
            Some(-(magnitude as i64))
        }
    } else if magnitude <= 0x7fff_ffff_ffff_ffff {
        Some(magnitude as i64)
    } else {
        None
    }
}

/// Whether `needle` stands in `hay` at position `at`.
fn occurs_at(hay: &Vec<char>, needle: &Vec<char>, at: usize) -> (r: bool)
    requires
        at + needle.len() <= hay.len(),
    ensures
        r == (hay@.subrange(at as int, at + needle.len()) == needle@),
{
    let mut k: usize = 0;
    while k < needle.len()
        invariant
            k <= needle.len(),
            at + needle.len() <= hay.len(),
            forall|j: int| 0 <= j < k ==> hay@[at + j] == needle@[j],
        decreases needle.len() - k,
    {
        if hay[at + k] != needle[k] {
            assert(hay@.subrange(at as int, at + needle.len())[k as int] != needle@[k as int]);
            return false;
        }
        k += 1;
    }
    assert(hay@.subrange(at as int, at + needle.len()) =~= needle@);
    true
}

/// Whether `hay` contains `needle`.
#[verifier::loop_isolation(false)]
pub fn contains(hay: &str, needle: &str) -> (r: bool)
    ensures
        r == is_substring(needle@, hay@),
{
    let text = chars_of(hay);
    let word = chars_of(needle);
    if word.len() > text.len() {
        return false;
    }
    let last = text.len() - word.len();
    let mut at: usize = 0;
    loop
        invariant
            at <= last,
            forall|i: int| 0 <= i < at ==> #[trigger] text@.subrange(i, i + word.len()) != word@,
        decreases last - at,
    {
        if occurs_at(&text, &word, at) {
            assert(text@.subrange(at as int, at + word@.len()) == word@);
            return true;
        }
        if at == last {
            return false;
        }
        at += 1;
    }
}

/// Whether `s` is the decimal numeral of a natural number: digits, at least one, and no zero
/// before another digit.
pub open spec fn is_numeral(s: Seq<char>) -> bool {
    &&& s.len() >= 1
    &&& all_digits(s)
    &&& s.len() > 1 ==> s[0] != '0'
}

/// Ten to the power `n`.
pub open spec fn pow10(n: nat) -> nat
    decreases n,
{
    if n == 0 {
        1
    } else {
        10 * pow10((n - 1) as nat)
    }
}

/// Powers of ten grow with the exponent.
pub proof fn lemma_pow10_monotonic(a: nat, b: nat)
    requires
        a <= b,
    ensures
        pow10(a) <= pow10(b),
    decreases b,
{
    if a < b {
        lemma_pow10_monotonic(a, (b - 1) as nat);
    }
}

/// A run of `n` digits denotes a number below ten to the power `n`.
pub proof fn lemma_decimal_value_bound(digits: Seq<char>)
    requires
        all_digits(digits),
    ensures
        0 <= decimal_value(digits) < pow10(digits.len()),
    decreases digits.len(),
{
    if digits.len() > 0 {
        assert(is_digit(digits.last()));
        lemma_decimal_value_bound(digits.drop_last());
    }
}

/// A run of digits that does not start with zero denotes a positive number.
pub proof fn lemma_decimal_value_positive(digits: Seq<char>)
    requires
        all_digits(digits),
        digits.len() >= 1,
        digits[0] != '0',
    ensures
        decimal_value(digits) >= 1,
    decreases digits.len(),
{
    assert(is_digit(digits.last()));
    if digits.len() > 1 {
        assert(digits.drop_last()[0] == digits[0]);
        lemma_decimal_value_positive(digits.drop_last());
    } else {
        assert(digits.drop_last().len() == 0);
        assert(decimal_value(digits.drop_last()) == 0);
    }
}

/// Writing the number that a numeral denotes gives the numeral back.
pub proof fn lemma_numeral_round_trip(s: Seq<char>)
    requires
        is_numeral(s),
    ensures
        decimal_text(decimal_value(s)) == s,
    decreases s.len(),
{
    let prefix = s.drop_last();
    let d = digit_value(s.last());
    assert(is_digit(s.last()));
    assert(digit_char(d) == s.last());
    if s.len() == 1 {
        assert(decimal_value(prefix) == 0);
        assert(seq![s.last()] =~= s);
    } else {
        assert(prefix[0] == s[0]);
        lemma_numeral_round_trip(prefix);
        lemma_decimal_value_positive(prefix);
        let v = decimal_value(prefix);
        let n = (v * 10 + d) as nat;
        assert(n / 10 == v && n % 10 == d);
        assert(digits_of(n) == digits_of(n / 10).push(digit_char((n % 10) as int)));
        assert(prefix.push(s.last()) =~= s);
    }
}

} // verus!
