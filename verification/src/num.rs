//! Decimal and hexadecimal digit arithmetic for the header codec: rendering
//! a size as digits, reading digits back as a number, and the four-digit
//! hexadecimal escapes of control characters.

use vstd::prelude::*;

verus! {

/// Whether the character is a decimal digit.
pub open spec fn is_digit(c: char) -> bool {
    '0' <= c && c <= '9'
}

/// The value of a decimal digit character.
pub open spec fn digit_val(c: char) -> int {
    c as int - '0' as int
}

/// The decimal digit character for a value below ten.
pub open spec fn digit_char(d: int) -> char {
    if d == 0 {
        '0'
    } else if d == 1 {
        '1'
    } else if d == 2 {
        '2'
    } else if d == 3 {
        '3'
    } else if d == 4 {
        '4'
    } else if d == 5 {
        '5'
    } else if d == 6 {
        '6'
    } else if d == 7 {
        '7'
    } else if d == 8 {
        '8'
    } else {
        '9'
    }
}

/// The decimal rendering of a natural number, most significant digit first.
pub open spec fn dec_digits(n: nat) -> Seq<char>
    decreases n,
{
    if n < 10 {
        seq![digit_char(n as int)]
    } else {
        dec_digits(n / 10) + seq![digit_char((n % 10) as int)]
    }
}

/// The number a digit sequence denotes.
pub open spec fn dec_val(s: Seq<char>) -> int
    decreases s.len(),
{
    if s.len() == 0 {
        0
    } else {
        dec_val(s.drop_last()) * 10 + digit_val(s.last())
    }
}

pub proof fn lemma_digit_char_val(d: int)
    requires
        0 <= d < 10,
    ensures
        is_digit(digit_char(d)),
        digit_val(digit_char(d)) == d,
{
}

/// Reading the decimal rendering back gives the number itself.
pub proof fn lemma_dec_digits_val(n: nat)
    ensures
        dec_val(dec_digits(n)) == n,
    decreases n,
{
    if n < 10 {
        lemma_digit_char_val(n as int);
        assert(dec_digits(n) == seq![digit_char(n as int)]);
        assert(dec_digits(n).drop_last() =~= Seq::<char>::empty());
        assert(dec_digits(n).last() == digit_char(n as int));
        assert(dec_val(Seq::<char>::empty()) == 0);
        assert(dec_val(dec_digits(n)) == 0 * 10 + digit_val(digit_char(n as int)));
        assert(dec_val(dec_digits(n)) == n);
    } else {
        lemma_dec_digits_val(n / 10);
        lemma_digit_char_val((n % 10) as int);
        let d = digit_char((n % 10) as int);
        assert(dec_digits(n) == dec_digits(n / 10) + seq![d]);
        assert((dec_digits(n / 10) + seq![d]).drop_last() =~= dec_digits(n / 10));
        assert((dec_digits(n / 10) + seq![d]).last() == d);
        assert(dec_val(dec_digits(n)) == dec_val(dec_digits(n / 10)) * 10 + digit_val(d));
        assert(n / 10 * 10 + n % 10 == n) by (nonlinear_arith);
        assert(dec_val(dec_digits(n)) == n);
    }
}

/// The decimal rendering is one or more digits, without a leading zero
/// unless the number itself is zero.
pub proof fn lemma_dec_digits_shape(n: nat)
    ensures
        dec_digits(n).len() >= 1,
        forall|i: int| 0 <= i < dec_digits(n).len() ==> is_digit(#[trigger] dec_digits(n)[i]),
        n > 0 ==> dec_digits(n)[0] != '0',
        n < 10 ==> dec_digits(n).len() == 1,
    decreases n,
{
    if n < 10 {
        lemma_digit_char_val(n as int);
    } else {
        lemma_dec_digits_shape(n / 10);
        lemma_digit_char_val((n % 10) as int);
    }
}

/// Renders a number as decimal digits.
pub fn u64_to_dec(n: u64) -> (r: Vec<char>)
    ensures
        r@ == dec_digits(n as nat),
    decreases n,
{
    if n < 10 {
        let d = digit_char_exec(n);
        let mut r: Vec<char> = Vec::new();
        r.push(d);
        proof {
            assert(r@ =~= seq![digit_char(n as int)]);
        }
        r
    } else {
        let mut r = u64_to_dec(n / 10);
        let d = digit_char_exec(n % 10);
        r.push(d);
        proof {
            assert(r@ =~= dec_digits((n / 10) as nat) + seq![digit_char((n % 10) as int)]);
            assert((n / 10) as nat == n as nat / 10);
            assert((n % 10) as nat == n as nat % 10);
        }
        r
    }
}

/// The digit character of a value below ten.
fn digit_char_exec(d: u64) -> (r: char)
    requires
        d < 10,
    ensures
        r == digit_char(d as int),
{
    match d {
        0 => '0',
        1 => '1',
        2 => '2',
        3 => '3',
        4 => '4',
        5 => '5',
        6 => '6',
        7 => '7',
        8 => '8',
        _ => '9',
    }
}

/// Whether the character is a decimal digit.
pub fn is_digit_exec(c: char) -> (r: bool)
    ensures
        r == is_digit(c),
{
    '0' <= c && c <= '9'
}

/// A digit sequence denotes a non-negative number.
pub proof fn lemma_dec_val_nonneg(s: Seq<char>)
    requires
        forall|k: int| 0 <= k < s.len() ==> is_digit(#[trigger] s[k]),
    ensures
        dec_val(s) >= 0,
    decreases s.len(),
{
    if s.len() > 0 {
        lemma_dec_val_nonneg(s.drop_last());
    }
}

pub proof fn lemma_dec_val_monotone(s: Seq<char>, i: int, j: int)
    requires
        0 <= i <= j <= s.len(),
        forall|k: int| 0 <= k < s.len() ==> is_digit(#[trigger] s[k]),
    ensures
        dec_val(s.take(i)) <= dec_val(s.take(j)),
    decreases j - i,
{
    if i < j {
        lemma_dec_val_monotone(s, i, j - 1);
        assert(s.take(j).drop_last() =~= s.take(j - 1));
        assert(forall|k: int| 0 <= k < s.take(j - 1).len() ==> is_digit(#[trigger] s.take(j - 1)[k]));
        lemma_dec_val_nonneg(s.take(j - 1));
        assert(dec_val(s.take(j)) == dec_val(s.take(j - 1)) * 10 + digit_val(s[j - 1]));
    }
}

/// Reads a digit sequence as a number: `None` when it is empty, holds a
/// non-digit, or denotes more than `u64::MAX`.
pub fn dec_to_u64(s: &Vec<char>) -> (r: Option<u64>)
    ensures
        r is Some <==> {
            &&& s@.len() > 0
            &&& forall|k: int| 0 <= k < s@.len() ==> is_digit(#[trigger] s@[k])
            &&& dec_val(s@) <= u64::MAX
        },
        r is Some ==> r->0 == dec_val(s@),
{
    if s.len() == 0 {
        return None;
    }
    let mut acc: u64 = 0;
    let mut i: usize = 0;
    while i < s.len()
        invariant
            i <= s@.len(),
            forall|k: int| 0 <= k < i ==> is_digit(#[trigger] s@[k]),
            acc == dec_val(s@.take(i as int)),
        decreases s@.len() - i,
    {
        let c = s[i];
        if !is_digit_exec(c) {
            return None;
        }
        let d: u64 = (c as u32 as u64) - 48;
        proof {
            assert(d == digit_val(c));
        }
        if acc > (u64::MAX - d) / 10 {
            proof {
                assert(dec_val(s@.take(i + 1)) == dec_val(s@.take(i as int)) * 10 + digit_val(c))
                    by {
                    assert(s@.take(i + 1).drop_last() =~= s@.take(i as int));
                };
                assert(dec_val(s@.take(i + 1)) > u64::MAX);
                if forall|k: int| 0 <= k < s@.len() ==> is_digit(#[trigger] s@[k]) {
                    lemma_dec_val_monotone(s@, i + 1, s@.len() as int);
                    assert(s@.take(s@.len() as int) =~= s@);
                    assert(dec_val(s@) > u64::MAX);
                }
            }
            return None;
        }
        proof {
            assert(dec_val(s@.take(i + 1)) == dec_val(s@.take(i as int)) * 10 + digit_val(c)) by {
                assert(s@.take(i + 1).drop_last() =~= s@.take(i as int));
            };
        }
        acc = acc * 10 + d;
        i += 1;
    }
    proof {
        assert(s@.take(i as int) =~= s@);
    }
    Some(acc)
}

/// The first position at or after `i` that does not hold a decimal digit.
pub open spec fn scan_digits(s: Seq<char>, i: int) -> int
    decreases s.len() - i
        when 0 <= i <= s.len()
{
    if i < s.len() && is_digit(s[i]) {
        scan_digits(s, i + 1)
    } else {
        i
    }
}

pub proof fn lemma_scan_digits(s: Seq<char>, i: int)
    requires
        0 <= i <= s.len(),
    ensures
        i <= scan_digits(s, i) <= s.len(),
        forall|k: int| i <= k < scan_digits(s, i) ==> is_digit(#[trigger] s[k]),
        scan_digits(s, i) < s.len() ==> !is_digit(s[scan_digits(s, i)]),
    decreases s.len() - i,
{
    if i < s.len() && is_digit(s[i]) {
        lemma_scan_digits(s, i + 1);
    }
}

/// Finds the first position at or after `i` without a decimal digit.
pub fn scan_digits_exec(s: &Vec<char>, i: usize) -> (r: usize)
    requires
        i <= s@.len(),
    ensures
        r == scan_digits(s@, i as int),
        i <= r <= s@.len(),
{
    proof {
        lemma_scan_digits(s@, i as int);
    }
    let mut j: usize = i;
    while j < s.len() && is_digit_exec(s[j])
        invariant
            i <= j <= s@.len(),
            scan_digits(s@, i as int) == scan_digits(s@, j as int),
        decreases s@.len() - j,
    {
        j += 1;
    }
    j
}

/// Whether the exponent part of a number token, starting at `i`, is either
/// absent at the very end or an `e`/`E`, an optional sign, and one or more
/// digits reaching the end.
pub open spec fn check_exponent(s: Seq<char>, i: int) -> bool
    recommends
        0 <= i <= s.len(),
{
    if i == s.len() {
        true
    } else if s[i] == 'e' || s[i] == 'E' {
        let j: int = if i + 1 < s.len() && (s[i + 1] == '+' || s[i + 1] == '-') {
            i + 2
        } else {
            i + 1
        };
        j < s.len() && scan_digits(s, j) == s.len()
    } else {
        false
    }
}

/// Whether the fraction and exponent parts of a number token, starting at
/// `i`, are well formed: an optional `.` with one or more digits, then the
/// exponent rule.
pub open spec fn check_fraction_exponent(s: Seq<char>, i: int) -> bool
    recommends
        0 <= i <= s.len(),
{
    if i < s.len() && s[i] == '.' {
        let j = scan_digits(s, i + 1);
        j > i + 1 && check_exponent(s, j)
    } else {
        check_exponent(s, i)
    }
}

/// Whether the characters form one whole number token: an optional minus, an
/// integer part without a spurious leading zero, and optional fraction and
/// exponent parts.
pub open spec fn is_number_text(s: Seq<char>) -> bool {
    let i0: int = if s.len() > 0 && s[0] == '-' {
        1
    } else {
        0
    };
    if i0 < s.len() && is_digit(s[i0]) {
        let i1: int = if s[i0] == '0' {
            i0 + 1
        } else {
            scan_digits(s, i0)
        };
        check_fraction_exponent(s, i1)
    } else {
        false
    }
}

/// Decides whether the characters form one whole number token.
pub fn is_number_text_exec(s: &Vec<char>) -> (r: bool)
    ensures
        r == is_number_text(s@),
{
    let i0: usize = if s.len() > 0 && s[0] == '-' {
        1
    } else {
        0
    };
    if !(i0 < s.len() && is_digit_exec(s[i0])) {
        return false;
    }
    let i1: usize = if s[i0] == '0' {
        i0 + 1
    } else {
        scan_digits_exec(s, i0)
    };
    check_fraction_exponent_exec(s, i1)
}

fn check_fraction_exponent_exec(s: &Vec<char>, i: usize) -> (r: bool)
    requires
        i <= s@.len(),
    ensures
        r == check_fraction_exponent(s@, i as int),
{
    if i < s.len() && s[i] == '.' {
        let j = scan_digits_exec(s, i + 1);
        j > i + 1 && check_exponent_exec(s, j)
    } else {
        check_exponent_exec(s, i)
    }
}

fn check_exponent_exec(s: &Vec<char>, i: usize) -> (r: bool)
    requires
        i <= s@.len(),
    ensures
        r == check_exponent(s@, i as int),
{
    if i == s.len() {
        true
    } else if s[i] == 'e' || s[i] == 'E' {
        let j: usize = if i + 1 < s.len() && (s[i + 1] == '+' || s[i + 1] == '-') {
            i + 2
        } else {
            i + 1
        };
        j < s.len() && scan_digits_exec(s, j) == s.len()
    } else {
        false
    }
}

/// Whether the character can occur in a number token.
pub open spec fn is_number_char(c: char) -> bool {
    is_digit(c) || c == '-' || c == '+' || c == '.' || c == 'e' || c == 'E'
}

/// Whether the character can occur in a number token.
pub fn is_number_char_exec(c: char) -> (r: bool)
    ensures
        r == is_number_char(c),
{
    is_digit_exec(c) || c == '-' || c == '+' || c == '.' || c == 'e' || c == 'E'
}

/// Every character of a whole number token is a number character.
pub proof fn lemma_number_text_chars(s: Seq<char>)
    requires
        is_number_text(s),
    ensures
        s.len() >= 1,
        forall|k: int| 0 <= k < s.len() ==> is_number_char(#[trigger] s[k]),
{
    let i0: int = if s.len() > 0 && s[0] == '-' {
        1
    } else {
        0
    };
    let i1: int = if s[i0] == '0' {
        i0 + 1
    } else {
        scan_digits(s, i0)
    };
    lemma_scan_digits(s, i0);
    assert(i0 <= i1 <= s.len());
    assert(forall|k: int| i0 <= k < i1 ==> is_digit(#[trigger] s[k]));
    let i2: int = if i1 < s.len() && s[i1] == '.' {
        scan_digits(s, i1 + 1)
    } else {
        i1
    };
    if i1 < s.len() && s[i1] == '.' {
        lemma_scan_digits(s, i1 + 1);
    }
    assert(forall|k: int| i1 <= k < i2 ==> is_number_char(#[trigger] s[k]));
    assert(check_exponent(s, i2));
    if i2 < s.len() {
        let j: int = if i2 + 1 < s.len() && (s[i2 + 1] == '+' || s[i2 + 1] == '-') {
            i2 + 2
        } else {
            i2 + 1
        };
        lemma_scan_digits(s, j);
        assert(forall|k: int| i2 <= k < s.len() ==> is_number_char(#[trigger] s[k]));
    }
}

/// Whether the character is a lowercase or uppercase hexadecimal digit.
pub open spec fn is_hex_digit(c: char) -> bool {
    ('0' <= c && c <= '9') || ('a' <= c && c <= 'f') || ('A' <= c && c <= 'F')
}

/// The value of a hexadecimal digit character.
pub open spec fn hex_val(c: char) -> int {
    if '0' <= c && c <= '9' {
        c as int - '0' as int
    } else if 'a' <= c && c <= 'f' {
        c as int - 'a' as int + 10
    } else {
        c as int - 'A' as int + 10
    }
}

/// The lowercase hexadecimal digit character for a value below sixteen.
pub open spec fn hex_char(d: int) -> char {
    if d < 10 {
        digit_char(d)
    } else if d == 10 {
        'a'
    } else if d == 11 {
        'b'
    } else if d == 12 {
        'c'
    } else if d == 13 {
        'd'
    } else if d == 14 {
        'e'
    } else {
        'f'
    }
}

pub proof fn lemma_hex_char_val(d: int)
    requires
        0 <= d < 16,
    ensures
        is_hex_digit(hex_char(d)),
        hex_val(hex_char(d)) == d,
{
}

/// Whether the character is a hexadecimal digit.
pub fn is_hex_digit_exec(c: char) -> (r: bool)
    ensures
        r == is_hex_digit(c),
{
    ('0' <= c && c <= '9') || ('a' <= c && c <= 'f') || ('A' <= c && c <= 'F')
}

/// The value of a hexadecimal digit character.
pub fn hex_val_exec(c: char) -> (r: u32)
    requires
        is_hex_digit(c),
    ensures
        r == hex_val(c),
        r < 16,
{
    if '0' <= c && c <= '9' {
        (c as u32) - ('0' as u32)
    } else if 'a' <= c && c <= 'f' {
        (c as u32) - ('a' as u32) + 10
    } else {
        (c as u32) - ('A' as u32) + 10
    }
}

/// The lowercase hexadecimal digit character for a value below sixteen.
pub fn hex_char_exec(d: u32) -> (r: char)
    requires
        d < 16,
    ensures
        r == hex_char(d as int),
{
    match d {
        0 => '0',
        1 => '1',
        2 => '2',
        3 => '3',
        4 => '4',
        5 => '5',
        6 => '6',
        7 => '7',
        8 => '8',
        9 => '9',
        10 => 'a',
        11 => 'b',
        12 => 'c',
        13 => 'd',
        14 => 'e',
        _ => 'f',
    }
}

/// Scanning digits stops exactly at `j` when everything before `j` is a
/// digit and `j` is the end or holds none.
pub proof fn lemma_scan_digits_exact(s: Seq<char>, i: int, j: int)
    requires
        0 <= i <= j <= s.len(),
        forall|k: int| i <= k < j ==> is_digit(#[trigger] s[k]),
        j == s.len() || !is_digit(s[j]),
    ensures
        scan_digits(s, i) == j,
    decreases j - i,
{
    if i < j {
        lemma_scan_digits_exact(s, i + 1, j);
    }
}

/// The decimal rendering of a number is one whole number token.
pub proof fn lemma_dec_digits_number_text(n: nat)
    ensures
        is_number_text(dec_digits(n)),
{
    let s = dec_digits(n);
    lemma_dec_digits_shape(n);
    if n == 0 {
        assert(s[0] == digit_char(0));
        assert(s.len() == 1);
        assert(check_fraction_exponent(s, 1));
    } else {
        assert(s[0] != '0');
        assert(s[0] != '-');
        lemma_scan_digits_exact(s, 0, s.len() as int);
        assert(check_fraction_exponent(s, s.len() as int));
    }
}

} // verus!
