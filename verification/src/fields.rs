//! Numbers as they are written and read: the fields of a key in decimal, a
//! BINK id in hexadecimal.

use vstd::prelude::*;
use vstd::string::*;

verus! {

/// Why a text was not taken as a number.
#[derive(Clone, Copy, Debug, PartialEq, Eq, Structural)]
pub enum NumberError {
    /// The text is not a number.
    NotNumeric,
    /// The text is a number above the limit.
    TooLarge,
}

/// The number that the character `c` stands for as a digit: `0` to `9` for
/// themselves, `a` to `f` and `A` to `F` for ten to fifteen; nothing for any
/// other character.
pub open spec fn digit_of(c: char) -> Option<nat> {
    if '0' <= c && c <= '9' {
        Some((c as u32 - '0' as u32) as nat)
    } else if 'a' <= c && c <= 'f' {
        Some((c as u32 - 'a' as u32 + 10) as nat)
    } else if 'A' <= c && c <= 'F' {
        Some((c as u32 - 'A' as u32 + 10) as nat)
    } else {
        None
    }
}

/// Whether `c` is a digit of the base `base`.
pub open spec fn is_digit_in(c: char, base: nat) -> bool {
    digit_of(c) is Some && digit_of(c)->0 < base
}

/// Whether every item of `s` is a digit of the base `base`.
pub open spec fn all_digits_in(s: Seq<char>, base: nat) -> bool {
    forall|i: int| 0 <= i < s.len() ==> is_digit_in(#[trigger] s[i], base)
}

/// The number that a run of digits stands for in the base `base`, the first
/// digit weighing most; zero for the empty run.
pub open spec fn digits_value_in(s: Seq<char>, base: nat) -> nat
    decreases s.len(),
{
    if s.len() == 0 {
        0
    } else {
        digits_value_in(s.drop_last(), base) * base + digit_of(s.last()).unwrap_or(0)
    }
}

/// The text without the one plus sign that may stand in front of a number.
pub open spec fn unsigned_part(s: Seq<char>) -> Seq<char> {
    if s.len() > 0 && s[0] == '+' {
        s.subrange(1, s.len() as int)
    } else {
        s
    }
}

/// Whether `s` is a number written in the base `base`: at least one digit,
/// nothing but digits, and at most one plus sign in front.
pub open spec fn is_numeral(s: Seq<char>, base: nat) -> bool {
    unsigned_part(s).len() > 0 && all_digits_in(unsigned_part(s), base)
}

/// The number that the text `s` stands for in the base `base`.
pub open spec fn numeral_value(s: Seq<char>, base: nat) -> nat {
    digits_value_in(unsigned_part(s), base)
}

/// Whether `s` is a number written in decimal.
pub open spec fn is_number(s: Seq<char>) -> bool {
    is_numeral(s, 10)
}

/// The number that the text `s` stands for in decimal.
pub open spec fn number_value(s: Seq<char>) -> nat {
    numeral_value(s, 10)
}

/// What reading the text `s` as a number of the base `base`, of at most
/// `limit`, gives.
pub open spec fn spec_parse(s: Seq<char>, base: nat, limit: u64) -> Result<u64, NumberError> {
    if !is_numeral(s, base) {
        Err(NumberError::NotNumeric)
    } else if numeral_value(s, base) > limit {
        Err(NumberError::TooLarge)
    } else {
        Ok(numeral_value(s, base) as u64)
    }
}

/// The number that `c` stands for as a digit, if any.
pub fn digit(c: char) -> (r: Option<u8>)
    ensures
        match r {
            Some(d) => digit_of(c) == Some(d as nat),
            None => digit_of(c) is None,
        },
{
    if c >= '0' && c <= '9' {
        Some((c as u32 - '0' as u32) as u8)
    } else if c >= 'a' && c <= 'f' {
        Some((c as u32 - 'a' as u32 + 10) as u8)
    } else if c >= 'A' && c <= 'F' {
        Some((c as u32 - 'A' as u32 + 10) as u8)
    } else {
        None
    }
}

/// Reads a number of the base `base`, of at most `limit`, from `text`.
fn parse_in(text: &str, base: u8, limit: u64) -> (r: Result<u64, NumberError>)
    requires
        base == 10 || base == 16,
    ensures
        r == spec_parse(text@, base as nat, limit),
{
    let n: usize = text.unicode_len();
    if n == 0 {
        return Err(NumberError::NotNumeric);
    }
    let start: usize = if text.get_char(0) == '+' {
        1
    } else {
        0
    };
    if start == n {
        return Err(NumberError::NotNumeric);
    }
    let ghost body = unsigned_part(text@);
    let ghost radix = base as nat;
    assert(body =~= text@.subrange(start as int, n as int));
    let mut i: usize = start;
    let mut value: u128 = 0;
    let mut over: bool = false;
    while i < n
        invariant
            start <= i <= n,
            n == text@.len(),
            base == 10 || base == 16,
            radix == base as nat,
            body == unsigned_part(text@),
            body == text@.subrange(start as int, n as int),
            all_digits_in(body.subrange(0, i - start), radix),
            over ==> digits_value_in(body.subrange(0, i - start), radix) > limit,
            !over ==> value == digits_value_in(body.subrange(0, i - start), radix) && value
                <= limit,
        decreases n - i,
    {
        let c: char = text.get_char(i);
        let ghost seen = body.subrange(0, i - start);
        let ghost next = body.subrange(0, i - start + 1);
        assert(next.drop_last() =~= seen);
        assert(next.last() == c);
        let found: Option<u8> = digit(c);
        let d: u8 = match found {
            Some(d) => d,
            None => 16,
        };
        if d >= base {
            assert(body[i - start] == c);
            assert(!is_digit_in(body[i - start], radix));
            return Err(NumberError::NotNumeric);
        }
        assert forall|k: int| 0 <= k < next.len() implies is_digit_in(#[trigger] next[k], radix) by {
            if k < seen.len() {
                assert(next[k] == seen[k]);
            }
        }
        assert(digits_value_in(next, radix) == digits_value_in(seen, radix) * radix + d);
        assert(digits_value_in(seen, radix) * radix >= digits_value_in(seen, radix))
            by (nonlinear_arith)
            requires
                radix >= 1,
        ;
        if !over {
            assert(value * (base as u128) <= 0xFFFF_FFFF_FFFF_FFFF * 16) by (nonlinear_arith)
                requires
                    value <= 0xFFFF_FFFF_FFFF_FFFF,
                    base <= 16,
            ;
            let wider: u128 = value * (base as u128) + (d as u128);
            if wider > limit as u128 {
                over = true;
            } else {
                value = wider;
            }
        }
        i = i + 1;
    }
    assert(body.subrange(0, i - start) =~= body);
    if over {
        Err(NumberError::TooLarge)
    } else {
        Ok(value as u64)
    }
}

/// Reads a decimal number of at most `limit` from `text`.
///
/// The text is a number when it holds at least one digit and nothing but
/// digits, after at most one plus sign. A text that is no number is refused as
/// such, however long; a number above `limit` is refused as too large, however
/// large.
pub fn parse_number(text: &str, limit: u64) -> (r: Result<u64, NumberError>)
    ensures
        r == spec_parse(text@, 10, limit),
{
    parse_in(text, 10, limit)
}

/// Reads a hexadecimal number of at most `limit` from `text`, as
/// `parse_number` reads a decimal one. The digits above nine may be in upper
/// or lower case.
pub fn parse_hex(text: &str, limit: u64) -> (r: Result<u64, NumberError>)
    ensures
        r == spec_parse(text@, 16, limit),
{
    parse_in(text, 16, limit)
}

/// Reads a BINK id from the two hexadecimal digits it is written in, or from
/// any hexadecimal number of at most `FF`.
pub fn parse_bink_id(text: &str) -> (r: Option<u8>)
    ensures
        match r {
            Some(id) => is_numeral(text@, 16) && numeral_value(text@, 16) == id,
            None => !is_numeral(text@, 16) || numeral_value(text@, 16) > 255,
        },
{
    match parse_in(text, 16, 255) {
        Ok(value) => Some(value as u8),
        Err(_) => None,
    }
}

/// The character that stands for the digit `d` in bases up to sixteen, the
/// digits above nine in upper case.
pub open spec fn digit_char(d: nat) -> char {
    seq!['0', '1', '2', '3', '4', '5', '6', '7', '8', '9', 'A', 'B', 'C', 'D', 'E', 'F'][d as int]
}

/// The number `n` written in the base `base`, a base from two to sixteen,
/// without leading zeros; zero is written as one digit.
pub open spec fn numeral(n: nat, base: nat) -> Seq<char>
    decreases n,
{
    if base < 2 || n < base {
        seq![digit_char(n)]
    } else {
        proof {
            assert(n / base < n) by (nonlinear_arith)
                requires
                    base >= 2,
                    n >= base,
            ;
        }
        numeral(n / base, base).push(digit_char(n % base))
    }
}

/// The number `n` written in decimal.
pub open spec fn decimal(n: nat) -> Seq<char> {
    numeral(n, 10)
}

/// The BINK id `id` written in two hexadecimal digits, upper case.
pub open spec fn bink_id_numeral(id: u8) -> Seq<char> {
    seq![digit_char((id / 16) as nat), digit_char((id % 16) as nat)]
}

/// The number `n` written in hexadecimal, upper case, after `0x`.
pub open spec fn hexadecimal(n: nat) -> Seq<char> {
    seq!['0', 'x'] + numeral(n, 16)
}

/// A digit's character stands for that digit.
pub proof fn lemma_digit_char(d: nat)
    requires
        d < 16,
    ensures
        digit_of(digit_char(d)) == Some(d),
        digit_char(d) != '+',
{
    let digits = seq![
        '0',
        '1',
        '2',
        '3',
        '4',
        '5',
        '6',
        '7',
        '8',
        '9',
        'A',
        'B',
        'C',
        'D',
        'E',
        'F',
    ];
    assert(digit_char(d) == digits[d as int]);
}

/// A number written in decimal or hexadecimal reads as a number of that
/// base, and as the same number.
pub proof fn lemma_numeral_reads_back(n: nat, base: nat)
    requires
        base == 10 || base == 16,
    ensures
        numeral(n, base).len() > 0,
        all_digits_in(numeral(n, base), base),
        digits_value_in(numeral(n, base), base) == n,
        is_numeral(numeral(n, base), base),
        numeral_value(numeral(n, base), base) == n,
    decreases n,
{
    let text = numeral(n, base);
    if n < base {
        lemma_digit_char(n);
        assert(text =~= seq![digit_char(n)]);
        assert(text.drop_last() =~= Seq::<char>::empty());
        assert(digits_value_in(text.drop_last(), base) == 0);
        assert(digits_value_in(text, base) == 0 * base + n);
    } else {
        lemma_numeral_reads_back(n / base, base);
        lemma_digit_char(n % base);
        let shorter = numeral(n / base, base);
        assert(text == shorter.push(digit_char(n % base)));
        assert(text.drop_last() =~= shorter);
        assert(text.last() == digit_char(n % base));
        assert forall|i: int| 0 <= i < text.len() implies is_digit_in(#[trigger] text[i], base) by {
            if i < shorter.len() {
                assert(text[i] == shorter[i]);
            }
        }
        assert(digits_value_in(text, base) == (n / base) * base + n % base);
        assert((n / base) * base + n % base == n) by {
            if base == 10 {
                assert((n / 10) * 10 + n % 10 == n);
            } else {
                assert((n / 16) * 16 + n % 16 == n);
            }
        }
    }
    assert(text[0] != '+') by {
        assert(is_digit_in(text[0], base));
    }
    assert(unsigned_part(text) == text);
}

/// A number written in decimal reads as a number, and as the same number.
pub proof fn lemma_decimal_reads_back(n: nat)
    ensures
        is_number(decimal(n)),
        number_value(decimal(n)) == n,
{
    lemma_numeral_reads_back(n, 10);
}

/// A BINK id written in two hexadecimal digits reads as the same id.
pub proof fn lemma_bink_id_reads_back(id: u8)
    ensures
        is_numeral(bink_id_numeral(id), 16),
        numeral_value(bink_id_numeral(id), 16) == id,
{
    let text = bink_id_numeral(id);
    let high = (id / 16) as nat;
    let low = (id % 16) as nat;
    lemma_digit_char(high);
    lemma_digit_char(low);
    assert(unsigned_part(text) == text);
    assert(text.drop_last() =~= seq![digit_char(high)]);
    assert(text.drop_last().drop_last() =~= Seq::<char>::empty());
    assert(digits_value_in(text.drop_last().drop_last(), 16) == 0);
    assert(digits_value_in(text.drop_last(), 16) == 0 * 16 + high);
    assert(digits_value_in(text, 16) == high * 16 + low);
}

/// The text of one digit in bases up to sixteen.
fn digit_text(d: u64) -> (r: &'static str)
    requires
        d < 16,
    ensures
        r@ == seq![digit_char(d as nat)],
{
    proof {
        reveal_strlit("0");
        reveal_strlit("1");
        reveal_strlit("2");
        reveal_strlit("3");
        reveal_strlit("4");
        reveal_strlit("5");
        reveal_strlit("6");
        reveal_strlit("7");
        reveal_strlit("8");
        reveal_strlit("9");
        reveal_strlit("A");
        reveal_strlit("B");
        reveal_strlit("C");
        reveal_strlit("D");
        reveal_strlit("E");
        reveal_strlit("F");
    }
    let r: &'static str = if d == 0 {
        "0"
    } else if d == 1 {
        "1"
    } else if d == 2 {
        "2"
    } else if d == 3 {
        "3"
    } else if d == 4 {
        "4"
    } else if d == 5 {
        "5"
    } else if d == 6 {
        "6"
    } else if d == 7 {
        "7"
    } else if d == 8 {
        "8"
    } else if d == 9 {
        "9"
    } else if d == 10 {
        "A"
    } else if d == 11 {
        "B"
    } else if d == 12 {
        "C"
    } else if d == 13 {
        "D"
    } else if d == 14 {
        "E"
    } else {
        "F"
    };
    assert(r@ =~= seq![digit_char(d as nat)]);
    r
}

/// Writes `n` in the base `base`, which is ten or sixteen.
fn numeral_text(n: u64, base: u64) -> (r: String)
    requires
        base == 10 || base == 16,
    ensures
        r@ == numeral(n as nat, base as nat),
{
    let mut text: String = String::from_str(digit_text(n % base));
    let mut rest: u64 = n / base;
    assert(n < base ==> rest == 0);
    while rest > 0
        invariant
            base == 10 || base == 16,
            rest > 0 ==> numeral(n as nat, base as nat) == numeral(rest as nat, base as nat) + text@,
            rest == 0 ==> numeral(n as nat, base as nat) == text@,
        decreases rest,
    {
        let ghost before = text@;
        let ghost digit = digit_char((rest % base) as nat);
        text = String::from_str(digit_text(rest % base)).concat(text.as_str());
        assert(text@ =~= seq![digit] + before);
        proof {
            if rest >= base {
                assert(numeral(rest as nat, base as nat) == numeral(
                    (rest / base) as nat,
                    base as nat,
                ).push(digit));
                assert(numeral((rest / base) as nat, base as nat).push(digit) + before =~= numeral(
                    (rest / base) as nat,
                    base as nat,
                ) + text@);
            } else {
                assert(numeral(rest as nat, base as nat) =~= seq![digit]);
            }
        }
        rest = rest / base;
    }
    text
}

/// Writes `n` in decimal.
pub fn decimal_text(n: u64) -> (r: String)
    ensures
        r@ == decimal(n as nat),
{
    numeral_text(n, 10)
}

/// Writes a BINK id in two hexadecimal digits, upper case.
pub fn bink_id_text(id: u8) -> (r: String)
    ensures
        r@ == bink_id_numeral(id),
{
    let high: &'static str = digit_text((id / 16) as u64);
    let low: &'static str = digit_text((id % 16) as u64);
    let r: String = String::from_str(high).concat(low);
    assert(r@ =~= bink_id_numeral(id));
    r
}

/// Writes `n` in hexadecimal, upper case, after `0x`.
pub fn hex_text(n: u64) -> (r: String)
    ensures
        r@ == hexadecimal(n as nat),
{
    proof {
        reveal_strlit("0x");
    }
    let digits: String = numeral_text(n, 16);
    let r: String = String::from_str("0x").concat(digits.as_str());
    assert(r@ =~= seq!['0', 'x'] + numeral(n as nat, 16));
    r
}

/// The number that `text` holds in decimal, written in hexadecimal; nothing
/// where the text is no number or the number is above the largest of 64 bits.
pub fn hex_of_decimal(text: &str) -> (r: Option<String>)
    ensures
        match r {
            Some(hex) => is_number(text@) && number_value(text@) <= u64::MAX && hex@
                == hexadecimal(number_value(text@)),
            None => !is_number(text@) || number_value(text@) > u64::MAX,
        },
{
    match parse_number(text, u64::MAX) {
        Ok(value) => Some(hex_text(value)),
        Err(_) => None,
    }
}

} // verus!
