use vstd::prelude::*;
use crate::error::TrackError;

verus! {

/// Whether `c` is an ASCII decimal digit.
pub open spec fn is_digit(c: char) -> bool {
    '0' <= c && c <= '9'
}

/// The value of an ASCII decimal digit.
pub open spec fn digit_value(c: char) -> int {
    (c as int) - ('0' as int)
}

/// The value of a string of decimal digits, most significant first.
pub open spec fn numeral_value(s: Seq<char>) -> int
    decreases s.len(),
{
    if s.len() == 0 {
        0
    } else {
        numeral_value(s.drop_last()) * 10 + digit_value(s.last())
    }
}

/// A non-empty run of decimal digits whose value fits in a `u32`.
pub open spec fn is_u32_numeral(s: Seq<char>) -> bool {
    &&& s.len() > 0
    &&& forall|i: int| 0 <= i < s.len() ==> is_digit(#[trigger] s[i])
    &&& numeral_value(s) <= u32::MAX
}

proof fn lemma_numeral_grows(s: Seq<char>, i: int, j: int)
    requires
        0 <= i <= j <= s.len(),
        forall|k: int| 0 <= k < s.len() ==> is_digit(#[trigger] s[k]),
    ensures
        numeral_value(s.subrange(0, i)) <= numeral_value(s.subrange(0, j)),
    decreases j - i,
{
    if i < j {
        lemma_numeral_grows(s, i, j - 1);
        assert(s.subrange(0, j).drop_last() =~= s.subrange(0, j - 1));
        assert(numeral_value(s.subrange(0, j - 1)) >= 0) by {
            lemma_numeral_nonneg(s.subrange(0, j - 1));
        }
    }
}

proof fn lemma_numeral_nonneg(s: Seq<char>)
    requires
        forall|k: int| 0 <= k < s.len() ==> is_digit(#[trigger] s[k]),
    ensures
        numeral_value(s) >= 0,
    decreases s.len(),
{
    if s.len() > 0 {
        lemma_numeral_nonneg(s.drop_last());
    }
}

proof fn lemma_numeral_prepend_zero(s: Seq<char>)
    ensures
        numeral_value(seq!['0'] + s) == numeral_value(s),
    decreases s.len(),
{
    if s.len() > 0 {
        lemma_numeral_prepend_zero(s.drop_last());
        assert((seq!['0'] + s).drop_last() =~= seq!['0'] + s.drop_last());
        assert((seq!['0'] + s).last() == s.last());
        let z = seq!['0'] + s;
        assert(numeral_value(z) == numeral_value(z.drop_last()) * 10 + digit_value(z.last()));
    } else {
        assert((seq!['0'] + s).drop_last() =~= Seq::<char>::empty());
        assert((seq!['0'] + s).last() == '0');
        assert(digit_value('0') == 0);
        assert(numeral_value(Seq::<char>::empty()) == 0);
        let z = seq!['0'] + s;
        assert(numeral_value(z) == numeral_value(z.drop_last()) * 10 + digit_value(z.last()));
    }
}

/// Leading zeros do not change what a number reads as: `7h5` and `07h05`
/// name the same time, and the zero-padded fields of a time read as the
/// unpadded ones.
pub proof fn leading_zeros_keep_value(s: Seq<char>, zeros: nat)
    ensures
        numeral_value(Seq::new(zeros, |i: int| '0') + s) == numeral_value(s),
        is_u32_numeral(s) ==> is_u32_numeral(Seq::new(zeros, |i: int| '0') + s),
    decreases zeros,
{
    if zeros > 0 {
        let shorter = Seq::new((zeros - 1) as nat, |i: int| '0');
        leading_zeros_keep_value(s, (zeros - 1) as nat);
        lemma_numeral_prepend_zero(shorter + s);
        assert(Seq::new(zeros, |i: int| '0') + s =~= seq!['0'] + (shorter + s));
        if is_u32_numeral(s) {
            let longer = Seq::new(zeros, |i: int| '0') + s;
            assert forall|i: int| 0 <= i < longer.len() implies is_digit(#[trigger] longer[i]) by {
                if i >= zeros {
                    assert(longer[i] == s[i - zeros]);
                }
            }
        }
    } else {
        assert(Seq::new(0, |i: int| '0') + s =~= s);
    }
}

/// `s` without one leading `+`, if it has one.
pub open spec fn unsigned_digits(s: Seq<char>) -> Seq<char> {
    if s.len() > 0 && s[0] == '+' {
        s.subrange(1, s.len() as int)
    } else {
        s
    }
}

/// An unsigned decimal number that fits in a `u32`, with or without one
/// leading `+`.
pub open spec fn is_u32_text(s: Seq<char>) -> bool {
    is_u32_numeral(unsigned_digits(s))
}

/// The value of such a number.
pub open spec fn number_value(s: Seq<char>) -> int {
    numeral_value(unsigned_digits(s))
}

/// Reads `s` as an unsigned decimal number, as `u32::from_str` does: one
/// leading `+` is allowed, then a non-empty run of digits whose value fits
/// in a `u32`; anything else gives `None`.
pub fn parse_number(s: &str) -> (r: Option<u32>)
    ensures
        r is Some <==> is_u32_text(s@),
        r matches Some(v) ==> v as int == number_value(s@),
{
    let n = s.unicode_len();
    if n > 0 && s.get_char(0) == '+' {
        parse_digits(s.substring_char(1, n))
    } else {
        parse_digits(s)
    }
}

fn parse_digits(s: &str) -> (r: Option<u32>)
    ensures
        r is Some <==> is_u32_numeral(s@),
        r matches Some(v) ==> v as int == numeral_value(s@),
{
    let n = s.unicode_len();
    if n == 0 {
        return None;
    }
    let mut acc: u64 = 0;
    let mut i: usize = 0;
    while i < n
        invariant
            n == s@.len(),
            0 <= i <= n,
            forall|k: int| 0 <= k < i ==> is_digit(#[trigger] s@[k]),
            acc as int == numeral_value(s@.subrange(0, i as int)),
            acc <= u32::MAX,
        decreases n - i,
    {
        let c = s.get_char(i);
        if !('0' <= c && c <= '9') {
            assert(!is_digit(s@[i as int]));
            return None;
        }
        let d = (c as u32 - '0' as u32) as u64;
        assert(s@.subrange(0, i + 1).drop_last() =~= s@.subrange(0, i as int));
        acc = acc * 10 + d;
        i = i + 1;
        if acc > u32::MAX as u64 {
            proof {
                if forall|k: int| 0 <= k < s@.len() ==> is_digit(#[trigger] s@[k]) {
                    lemma_numeral_grows(s@, i as int, n as int);
                    assert(s@.subrange(0, n as int) =~= s@);
                }
            }
            return None;
        }
    }
    assert(s@.subrange(0, n as int) =~= s@);
    Some(acc as u32)
}

/// `k` is the place of the one `h` in `s`, and the text on each side of it
/// is a number that fits in a `u32`, with or without a leading `+`.
pub open spec fn splits_time_at(s: Seq<char>, k: int) -> bool {
    &&& 0 <= k < s.len()
    &&& s[k] == 'h'
    &&& is_u32_text(s.subrange(0, k))
    &&& is_u32_text(s.subrange(k + 1, s.len() as int))
}

/// Reads a clock time written `HHhMM`: hours, the letter `h`, minutes, each
/// a decimal number as `parse_number` reads it, with or without leading
/// zeros. Values are not checked against 24 hours or 60 minutes.
pub fn parse_time(s: &str) -> (r: Result<(u32, u32), TrackError>)
    ensures
        match r {
            Ok((h, m)) => exists|k: int|
                splits_time_at(s@, k) && h as int == number_value(s@.subrange(0, k))
                    && m as int == number_value(s@.subrange(k + 1, s@.len() as int)),
            Err(e) => e == TrackError::InvalidTimeFormat && forall|k: int| !splits_time_at(s@, k),
        },
{
    let n = s.unicode_len();
    let mut k: usize = 0;
    while k < n && s.get_char(k) != 'h'
        invariant
            n == s@.len(),
            0 <= k <= n,
            forall|i: int| 0 <= i < k ==> s@[i] != 'h',
        decreases n - k,
    {
        k = k + 1;
    }
    if k == n {
        return Err(TrackError::InvalidTimeFormat);
    }
    let ghost k0 = k as int;
    assert forall|j: int| splits_time_at(s@, j) implies j == k0 by {
        if j < k0 {
            assert(s@[j] == 'h');
        } else if j > k0 {
            let pre = s@.subrange(0, j);
            assert(pre[k0] == 'h');
            let digits = unsigned_digits(pre);
            if pre[0] == '+' {
                assert(digits[k0 - 1] == 'h');
                assert(is_digit(digits[k0 - 1]));
            } else {
                assert(is_digit(digits[k0]));
            }
        }
    }
    let hours = parse_number(s.substring_char(0, k));
    let minutes = parse_number(s.substring_char(k + 1, n));
    match (hours, minutes) {
        (Some(h), Some(m)) => {
            assert(splits_time_at(s@, k0));
            Ok((h, m))
        },
        _ => Err(TrackError::InvalidTimeFormat),
    }
}

/// The decimal digit `d` as a character.
pub open spec fn digit_char(d: int) -> char {
    if d == 0 { '0' }
    else if d == 1 { '1' }
    else if d == 2 { '2' }
    else if d == 3 { '3' }
    else if d == 4 { '4' }
    else if d == 5 { '5' }
    else if d == 6 { '6' }
    else if d == 7 { '7' }
    else if d == 8 { '8' }
    else { '9' }
}

/// `n` written in decimal, without leading zeros.
pub open spec fn decimal(n: nat) -> Seq<char>
    decreases n,
{
    if n < 10 {
        seq![digit_char(n as int)]
    } else {
        decimal(n / 10) + seq![digit_char((n % 10) as int)]
    }
}

/// `n` in decimal, with a leading zero when it has a single digit.
pub open spec fn two_digits(n: nat) -> Seq<char> {
    if n < 10 {
        seq!['0'] + decimal(n)
    } else {
        decimal(n)
    }
}

/// A span of minutes as hours, `h` and the remaining minutes on two digits.
pub open spec fn duration_text(total: nat) -> Seq<char> {
    decimal(total / 60) + seq!['h'] + two_digits(total % 60)
}

/// A clock time as `HHhMM`.
pub open spec fn clock_text(hour: nat, minute: nat) -> Seq<char> {
    two_digits(hour) + seq!['h'] + two_digits(minute)
}

fn digit_str(d: u64) -> (r: &'static str)
    requires
        d < 10,
    ensures
        r@ == seq![digit_char(d as int)],
{
    proof {
        reveal_strlit("0");
        reveal_strlit("1");
        reveal_strlit("2");
        reveal_strlit("3");
        reveal_strlit("4");
        reveal_strlit("5");
        reveal_strlit("6");
        reveal_strlit("7");
        reveal_strlit("8");
        reveal_strlit("9");
    }
    if d == 0 { "0" }
    else if d == 1 { "1" }
    else if d == 2 { "2" }
    else if d == 3 { "3" }
    else if d == 4 { "4" }
    else if d == 5 { "5" }
    else if d == 6 { "6" }
    else if d == 7 { "7" }
    else if d == 8 { "8" }
    else { "9" }
}

/// Appends `n` in decimal to `out`.
pub fn push_decimal(out: &mut String, n: u64)
    ensures
        final(out)@ == old(out)@ + decimal(n as nat),
    decreases n,
{
    if n >= 10 {
        push_decimal(out, n / 10);
    }
    out.append(digit_str(n % 10));
    assert(final(out)@ =~= old(out)@ + decimal(n as nat));
}

/// Appends `n` in decimal, on at least two digits, to `out`.
pub fn push_two_digits(out: &mut String, n: u64)
    ensures
        final(out)@ == old(out)@ + two_digits(n as nat),
{
    if n < 10 {
        out.append("0");
        proof { reveal_strlit("0"); }
    }
    push_decimal(out, n);
    assert(final(out)@ =~= old(out)@ + two_digits(n as nat));
}

/// Writes a number of minutes as hours and minutes: `125` gives `2h05`.
pub fn format_duration(total: u64) -> (r: String)
    ensures
        r@ == duration_text(total as nat),
{
    let mut out = String::new();
    push_decimal(&mut out, total / 60);
    out.append("h");
    proof { reveal_strlit("h"); }
    push_two_digits(&mut out, total % 60);
    assert(out@ =~= duration_text(total as nat));
    out
}

/// Writes a clock time as `HHhMM`.
pub fn format_clock(hour: u32, minute: u32) -> (r: String)
    ensures
        r@ == clock_text(hour as nat, minute as nat),
{
    let mut out = String::new();
    push_two_digits(&mut out, hour as u64);
    out.append("h");
    proof { reveal_strlit("h"); }
    push_two_digits(&mut out, minute as u64);
    assert(out@ =~= clock_text(hour as nat, minute as nat));
    out
}

} // verus!
