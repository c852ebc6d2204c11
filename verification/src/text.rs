//! Building and reading text: characters, decimal numbers, UTF-8.
use vstd::prelude::*;
use vstd::string::StringExecFns;

verus! {

/// Appends one character to a string (`String::push`).
#[verifier::external_body]
pub(crate) fn push_char(s: &mut String, c: char)
    ensures
        final(s)@ == old(s)@.push(c),
{
    s.push(c);
}

/// Decodes bytes as UTF-8 (`std::str::from_utf8`); `None` when they are
/// not valid UTF-8.
#[verifier::external_body]
pub(crate) fn str_from_utf8(bytes: &[u8]) -> (r: Option<&str>)
    ensures
        r is Some <==> vstd::utf8::valid_utf8(bytes@),
        r matches Some(s) ==> s@ == vstd::utf8::decode_utf8(bytes@),
{
    std::str::from_utf8(bytes).ok()
}

pub fn string_from_chars(chars: &Vec<char>) -> (s: String)
    ensures
        s@ == chars@,
{
    let mut s = String::new();
    let mut i: usize = 0;
    while i < chars.len()
        invariant
            i <= chars.len(),
            s@ == chars@.take(i as int),
        decreases chars.len() - i,
    {
        push_char(&mut s, chars[i]);
        i = i + 1;
        assert(s@ =~= chars@.take(i as int));
    }
    assert(chars@.take(chars@.len() as int) =~= chars@);
    s
}

/// A string made of `n` copies of `c`.
pub fn repeat_char(c: char, n: usize) -> (s: String)
    ensures
        s@ == Seq::new(n as nat, |_i: int| c),
{
    let mut s = String::new();
    let mut i: usize = 0;
    while i < n
        invariant
            i <= n,
            s@ == Seq::new(i as nat, |_i: int| c),
        decreases n - i,
    {
        push_char(&mut s, c);
        i = i + 1;
        assert(s@ =~= Seq::new(i as nat, |_i: int| c));
    }
    s
}

pub open spec fn digit_char(d: int) -> char {
    ((d + 48) as u32) as char
}

pub open spec fn is_digit_char(c: char) -> bool {
    '0' <= c && c <= '9'
}

pub open spec fn char_digit_value(c: char) -> int {
    (c as u32) - 48
}

/// The decimal digits of `n`, most significant first, with no leading zero.
pub open spec fn nat_text(n: nat) -> Seq<char>
    decreases n,
{
    if n < 10 {
        seq![digit_char(n as int)]
    } else {
        nat_text(n / 10).push(digit_char((n % 10) as int))
    }
}

/// How `i64::to_string` writes a number: a minus sign when negative, then
/// the decimal digits of the magnitude.
pub open spec fn int_text(v: int) -> Seq<char> {
    if v < 0 {
        seq!['-'] + nat_text((-v) as nat)
    } else {
        nat_text(v as nat)
    }
}

proof fn lemma_nat_text_len(n: nat)
    ensures
        1 <= nat_text(n).len(),
        n < 10 ==> nat_text(n).len() == 1,
    decreases n,
{
    if n >= 10 {
        lemma_nat_text_len(n / 10);
    }
}

/// The decimal text of an unsigned number.
pub fn u64_to_string(n: u64) -> (s: String)
    ensures
        s@ == nat_text(n as nat),
    decreases n,
{
    if n < 10 {
        let mut s = String::new();
        push_char(&mut s, ((n as u8) + 48u8) as char);
        assert(s@ =~= nat_text(n as nat));
        s
    } else {
        let mut s = u64_to_string(n / 10);
        let d = (n % 10) as u8;
        push_char(&mut s, (d + 48u8) as char);
        s
    }
}

/// The decimal text of a signed number, as `i64::to_string` writes it.
pub fn i64_to_string(v: i64) -> (s: String)
    ensures
        s@ == int_text(v as int),
{
    if v < 0 {
        let magnitude: u64 = if v == i64::MIN {
            9223372036854775808u64
        } else {
            (-v) as u64
        };
        let digits = u64_to_string(magnitude);
        let mut s = String::new();
        push_char(&mut s, '-');
        s.append(digits.as_str());
        assert(s@ =~= int_text(v as int));
        s
    } else {
        u64_to_string(v as u64)
    }
}

/// The value of a run of decimal digits.
pub open spec fn digits_value(s: Seq<char>) -> int
    decreases s.len(),
{
    if s.len() == 0 {
        0
    } else {
        digits_value(s.drop_last()) * 10 + char_digit_value(s.last())
    }
}

pub open spec fn all_digits(s: Seq<char>) -> bool {
    forall|i: int| 0 <= i < s.len() ==> is_digit_char(#[trigger] s[i])
}

/// What `str::parse::<i64>` gives: an optional `+` or `-` sign followed by
/// at least one decimal digit, and nothing else, whose value fits in `i64`.
pub open spec fn parse_i64_spec(s: Seq<char>) -> Option<i64> {
    let negative = s.len() > 0 && s[0] == '-';
    let signed = s.len() > 0 && (s[0] == '-' || s[0] == '+');
    let digits = if signed { s.drop_first() } else { s };
    let magnitude = digits_value(digits);
    let value = if negative { -magnitude } else { magnitude };
    if digits.len() > 0 && all_digits(digits) && i64::MIN <= value <= i64::MAX {
        Some(value as i64)
    } else {
        None
    }
}

pub proof fn lemma_digits_value_nonneg(s: Seq<char>)
    requires
        all_digits(s),
    ensures
        digits_value(s) >= 0,
    decreases s.len(),
{
    if s.len() > 0 {
        assert(all_digits(s.drop_last()));
        lemma_digits_value_nonneg(s.drop_last());
    }
}

pub proof fn lemma_digits_value_monotone(s: Seq<char>, i: int)
    requires
        all_digits(s),
        0 <= i <= s.len(),
    ensures
        digits_value(s.take(i)) <= digits_value(s),
    decreases s.len() - i,
{
    if i < s.len() {
        lemma_digits_value_monotone(s, i + 1);
        assert(s.take(i + 1).drop_last() =~= s.take(i));
        assert(all_digits(s.take(i)));
        lemma_digits_value_nonneg(s.take(i));
    } else {
        assert(s.take(i) =~= s);
    }
}

/// The decimal text of `n` is made of digits and reads back as `n`.
pub proof fn lemma_nat_text_reads_back(n: nat)
    ensures
        all_digits(nat_text(n)),
        digits_value(nat_text(n)) == n,
        nat_text(n).len() >= 1,
    decreases n,
{
    if n < 10 {
        let c = digit_char(n as int);
        assert(c as u32 == n + 48);
        assert(nat_text(n).drop_last() =~= Seq::<char>::empty());
        assert(char_digit_value(nat_text(n).last()) == n);
        assert(digits_value(Seq::<char>::empty()) == 0);
        assert(digits_value(nat_text(n)) == digits_value(nat_text(n).drop_last()) * 10 + char_digit_value(nat_text(n).last()));
    } else {
        lemma_nat_text_reads_back(n / 10);
        let t = nat_text(n);
        assert(t.drop_last() =~= nat_text(n / 10));
        assert(digit_char((n % 10) as int) as u32 == n % 10 + 48);
        assert(all_digits(t)) by {
            assert forall|i: int| 0 <= i < t.len() implies is_digit_char(#[trigger] t[i]) by {
                if i < t.len() - 1 {
                    assert(t[i] == nat_text(n / 10)[i]);
                }
            }
        }
        assert(t.last() == digit_char((n % 10) as int));
        assert(char_digit_value(t.last()) == n % 10);
        assert(digits_value(t) == digits_value(nat_text(n / 10)) * 10 + char_digit_value(t.last()));
        assert((n / 10) * 10 + n % 10 == n) by (nonlinear_arith);
    }
}

/// Writing a number in decimal and parsing the text gives the number back.
pub proof fn law_int_text_parses_back(v: i64)
    ensures
        parse_i64_spec(int_text(v as int)) == Some(v),
{
    let t = int_text(v as int);
    if v < 0 {
        let m = (-v) as nat;
        lemma_nat_text_reads_back(m);
        assert(t.drop_first() =~= nat_text(m));
        assert(is_digit_char(nat_text(m)[0]));
    } else {
        lemma_nat_text_reads_back(v as nat);
        assert(is_digit_char(t[0]));
    }
}

/// Parses a number as `str::parse::<i64>` does.
pub fn parse_i64(s: &str) -> (r: Option<i64>)
    ensures
        r == parse_i64_spec(s@),
{
    let len = s.unicode_len();
    if len == 0 {
        return None;
    }
    let first = s.get_char(0);
    let negative = first == '-';
    let signed = first == '-' || first == '+';
    let start: usize = if signed { 1 } else { 0 };
    if start >= len {
        return None;
    }
    let ghost digits = if signed { s@.drop_first() } else { s@ };
    assert(digits =~= s@.subrange(start as int, len as int));
    // accumulate the magnitude as a negative number so that i64::MIN fits
    let mut acc: i64 = 0;
    let mut i: usize = start;
    while i < len
        invariant
            start <= i <= len,
            len == s@.len(),
            len > 0,
            signed == (s@[0] == '-' || s@[0] == '+'),
            negative == (s@[0] == '-'),
            start == (if signed { 1usize } else { 0usize }),
            digits == (if signed { s@.drop_first() } else { s@ }),
            digits == s@.subrange(start as int, len as int),
            all_digits(digits.take(i - start)),
            acc == -digits_value(digits.take(i - start)),
        decreases len - i,
    {
        let c = s.get_char(i);
        if !('0' <= c && c <= '9') {
            assert(digits[i - start] == c);
            assert(!is_digit_char(digits[i - start]));
            assert(!all_digits(digits));
            return None;
        }
        let d = (c as u32 - 48) as i64;
        assert(digits.take(i + 1 - start).drop_last() =~= digits.take(i - start));
        assert(digits.take(i + 1 - start).last() == c);
        let scaled = acc.checked_mul(10);
        match scaled {
            None => {
                proof {
                    assert(digits_value(digits.take(i + 1 - start)) == digits_value(digits.take(i - start)) * 10 + char_digit_value(c));
                    assert((acc as int) * 10 < i64::MIN as int || (acc as int) * 10 > i64::MAX as int);
                    assert(char_digit_value(c) >= 0);
                    lemma_digits_value_nonneg(digits.take(i - start));
                    assert(digits_value(digits.take(i + 1 - start)) > 0x8000_0000_0000_0000int);
                    if all_digits(digits) {
                        lemma_digits_value_monotone(digits, i + 1 - start);
                        assert(digits.take(digits.len() as int) =~= digits);
                    }
                }
                return None;
            },
            Some(m) => {
                match m.checked_sub(d) {
                    None => {
                        proof {
                            if all_digits(digits) {
                                lemma_digits_value_monotone(digits, i + 1 - start);
                                assert(digits.take(digits.len() as int) =~= digits);
                            }
                        }
                        return None;
                    },
                    Some(next) => {
                        acc = next;
                    },
                }
            },
        }
        i = i + 1;
        assert(all_digits(digits.take(i - start)));
    }
    assert(digits.take(len - start) =~= digits);
    if negative {
        Some(acc)
    } else {
        if acc == i64::MIN {
            None
        } else {
            Some(-acc)
        }
    }
}

/// `s` without its trailing zeros.
pub open spec fn trim_trailing_zeros(s: Seq<char>) -> Seq<char>
    decreases s.len(),
{
    if s.len() > 0 && s.last() == '0' {
        trim_trailing_zeros(s.drop_last())
    } else {
        s
    }
}

/// The `width` digits of a fraction written with leading zeros.
pub open spec fn padded_digits(value: nat, width: nat) -> Seq<char> {
    let digits = if value == 0 { Seq::<char>::empty() } else { nat_text(value) };
    if digits.len() >= width {
        digits
    } else {
        Seq::new((width - digits.len()) as nat, |_i: int| '0') + digits
    }
}

/// A decimal literal `integral.fraction` (fraction written with `width`
/// digits) in the way a number is printed: no trailing zeros after the
/// point, and no point for a whole number.
pub open spec fn decimal_text(integral: int, fraction: nat, width: nat) -> Seq<char> {
    let tail = trim_trailing_zeros(padded_digits(fraction, width));
    if tail.len() == 0 {
        int_text(integral)
    } else {
        int_text(integral) + seq!['.'] + tail
    }
}

pub fn decimal_to_string(integral: i64, fraction: u64, width: u64) -> (s: String)
    ensures
        s@ == decimal_text(integral as int, fraction as nat, width as nat),
{
    let mut digits: Vec<char> = Vec::new();
    if fraction != 0 {
        let text = u64_to_string(fraction);
        let n = text.unicode_len();
        let mut i: usize = 0;
        while i < n
            invariant
                i <= n,
                n == text@.len(),
                digits@ == text@.take(i as int),
            decreases n - i,
        {
            digits.push(text.get_char(i));
            i = i + 1;
            assert(digits@ =~= text@.take(i as int));
        }
        assert(text@.take(n as int) =~= text@);
    }
    let ghost unpadded = digits@;
    assert(unpadded == (if fraction == 0 { Seq::<char>::empty() } else { nat_text(fraction as nat) }));
    // pad with leading zeros
    let mut padded: Vec<char> = Vec::new();
    let len = digits.len() as u64;
    if len < width {
        let mut k: u64 = 0;
        while k < width - len
            invariant
                k <= width - len,
                len < width,
                padded@ == Seq::new(k as nat, |_i: int| '0'),
            decreases width - len - k,
        {
            padded.push('0');
            k = k + 1;
            assert(padded@ =~= Seq::new(k as nat, |_i: int| '0'));
        }
    }
    let mut j: usize = 0;
    let ghost prefix = padded@;
    while j < digits.len()
        invariant
            j <= digits.len(),
            padded@ == prefix + digits@.take(j as int),
        decreases digits.len() - j,
    {
        padded.push(digits[j]);
        j = j + 1;
        assert(padded@ =~= prefix + digits@.take(j as int));
    }
    assert(digits@.take(digits@.len() as int) =~= digits@);
    assert(padded@ == padded_digits(fraction as nat, width as nat)) by {
        if unpadded.len() >= width {
            assert(prefix =~= Seq::<char>::empty());
        }
    }
    // trim trailing zeros
    while padded.len() > 0 && padded[padded.len() - 1] == '0'
        invariant
            trim_trailing_zeros(padded@) == trim_trailing_zeros(padded_digits(fraction as nat, width as nat)),
        decreases padded.len(),
    {
        padded.pop();
    }
    let tail = string_from_chars(&padded);
    let mut s = i64_to_string(integral);
    if padded.len() > 0 {
        push_char(&mut s, '.');
        s.append(tail.as_str());
    }
    s
}

/// Whether two texts are equal.
pub fn str_equal(a: &str, b: &str) -> (r: bool)
    ensures
        r == (a@ == b@),
{
    let n = a.unicode_len();
    if n != b.unicode_len() {
        return false;
    }
    let mut i: usize = 0;
    while i < n
        invariant
            i <= n,
            n == a@.len(),
            n == b@.len(),
            forall|j: int| 0 <= j < i ==> a@[j] == b@[j],
        decreases n - i,
    {
        if a.get_char(i) != b.get_char(i) {
            return false;
        }
        i = i + 1;
    }
    assert(a@ =~= b@);
    true
}

} // verus!
