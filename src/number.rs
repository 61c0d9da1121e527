//! Reading numbers from text and rendering them in hexadecimal, binary and decimal.
use vstd::prelude::*;
use crate::text::{
    chars_of, string_of, strip_0x_prefix, strip_0x_prefix_chars, strip_h_suffix,
    strip_h_suffix_chars, trim, trim_chars,
};

verus! {

/// The numeral system used to render values for display.
#[derive(Clone, Copy, Debug, PartialEq, Eq, Structural)]
pub enum DisplayBase {
    Hex,
    Bin,
    Dec,
}

impl Default for DisplayBase {
    /// Hexadecimal.
    fn default() -> (r: DisplayBase)
        ensures
            r == DisplayBase::Hex,
    {
        DisplayBase::Hex
    }
}

/// The value of digit `c` in `radix` (letters of either case stand for 10 to 35).
pub open spec fn digit_value(c: char, radix: nat) -> Option<nat> {
    let u = c as u32;
    let d: int = if 48 <= u && u <= 57 {
        u - 48
    } else if 97 <= u && u <= 122 {
        u - 97 + 10
    } else if 65 <= u && u <= 90 {
        u - 65 + 10
    } else {
        radix as int
    };
    if d < radix {
        Some(d as nat)
    } else {
        None
    }
}

/// The value of the digit string `s` in `radix`, if every character is a digit.
pub open spec fn digits_value(s: Seq<char>, radix: nat) -> Option<nat>
    decreases s.len(),
{
    if s.len() == 0 {
        Some(0)
    } else {
        match (digits_value(s.drop_last(), radix), digit_value(s.last(), radix)) {
            (Some(v), Some(d)) => Some(v * radix + d),
            _ => None,
        }
    }
}

/// What `u64::from_str_radix(s, radix)` accepts: an optional `+`, then at least one digit,
/// with a value that fits in 64 bits.
pub open spec fn parse_u64(s: Seq<char>, radix: nat) -> Option<u64> {
    let body = if s.len() > 0 && s[0] == '+' {
        s.drop_first()
    } else {
        s
    };
    if body.len() == 0 {
        None
    } else {
        match digits_value(body, radix) {
            Some(v) => if v <= u64::MAX {
                Some(v as u64)
            } else {
                None
            },
            None => None,
        }
    }
}

/// The digit character for `d` (lower-case letters above nine).
pub open spec fn digit_char(d: nat) -> char {
    if d == 0 {
        '0'
    } else if d == 1 {
        '1'
    } else if d == 2 {
        '2'
    } else if d == 3 {
        '3'
    } else if d == 4 {
        '4'
    } else if d == 5 {
        '5'
    } else if d == 6 {
        '6'
    } else if d == 7 {
        '7'
    } else if d == 8 {
        '8'
    } else if d == 9 {
        '9'
    } else if d == 10 {
        'a'
    } else if d == 11 {
        'b'
    } else if d == 12 {
        'c'
    } else if d == 13 {
        'd'
    } else if d == 14 {
        'e'
    } else {
        'f'
    }
}

/// The lower-case hex digits of `v`, most significant first, without leading zeros.
pub open spec fn hex_digits(v: nat) -> Seq<char>
    decreases v,
{
    if v < 16 {
        seq![digit_char(v)]
    } else {
        hex_digits(v / 16).push(digit_char(v % 16))
    }
}

/// The decimal digits of `v`, most significant first, without leading zeros.
pub open spec fn dec_digits(v: nat) -> Seq<char>
    decreases v,
{
    if v < 10 {
        seq![digit_char(v)]
    } else {
        dec_digits(v / 10).push(digit_char(v % 10))
    }
}

/// The binary digits of `v`, most significant first, without leading zeros.
pub open spec fn bin_digits(v: nat) -> Seq<char>
    decreases v,
{
    if v < 2 {
        seq![digit_char(v)]
    } else {
        bin_digits(v / 2).push(digit_char(v % 2))
    }
}

/// The digits of `v` in `radix` (2, 10 or 16), most significant first, without leading zeros.
pub open spec fn radix_digits(v: nat, radix: nat) -> Seq<char> {
    if radix == 2 {
        bin_digits(v)
    } else if radix == 10 {
        dec_digits(v)
    } else {
        hex_digits(v)
    }
}

/// `s` with `0` characters in front, up to length `n`.
pub open spec fn zero_pad(s: Seq<char>, n: nat) -> Seq<char> {
    if s.len() < n {
        Seq::new((n - s.len()) as nat, |i: int| '0') + s
    } else {
        s
    }
}

/// `s` with one `0` in front when its length is odd.
pub open spec fn even_pad(s: Seq<char>) -> Seq<char> {
    if s.len() % 2 == 1 {
        seq!['0'] + s
    } else {
        s
    }
}

/// `0x`, then the lower-case hex digits of `v`, at least two and an even number of them.
pub open spec fn hex_prefixed(v: nat) -> Seq<char> {
    seq!['0', 'x'] + even_pad(zero_pad(radix_digits(v, 16), 2))
}

/// A raw value with surrounding whitespace and trailing `h` characters removed.
pub open spec fn clean_value(raw: Seq<char>) -> Seq<char> {
    strip_h_suffix(trim(raw))
}

/// The number a cleaned value stands for: hexadecimal (after any `0x`) first, else decimal.
pub open spec fn read_number(c: Seq<char>) -> Option<u64> {
    match parse_u64(strip_0x_prefix(c), 16) {
        Some(v) => Some(v),
        None => parse_u64(c, 10),
    }
}

/// How a raw value is shown under `base`; text that is no number is shown cleaned.
pub open spec fn format_value(raw: Seq<char>, base: DisplayBase) -> Seq<char> {
    let c = clean_value(raw);
    match read_number(c) {
        Some(v) => match base {
            DisplayBase::Hex => hex_prefixed(v as nat),
            DisplayBase::Dec => radix_digits(v as nat, 10),
            DisplayBase::Bin => zero_pad(radix_digits((v % 256) as nat, 2), 8),
        },
        None => c,
    }
}

proof fn lemma_digits_prefix(s: Seq<char>, k: int, radix: nat)
    requires
        0 <= k <= s.len(),
        radix >= 1,
    ensures
        digits_value(s.subrange(0, k), radix) is None ==> digits_value(s, radix) is None,
        digits_value(s.subrange(0, k), radix) is Some && digits_value(s, radix) is Some
            ==> digits_value(s.subrange(0, k), radix)->0 <= digits_value(s, radix)->0,
    decreases s.len(),
{
    if k == s.len() {
        assert(s.subrange(0, k) =~= s);
    } else {
        assert(s.drop_last().subrange(0, k) =~= s.subrange(0, k));
        lemma_digits_prefix(s.drop_last(), k, radix);
        match digits_value(s.drop_last(), radix) {
            Some(v) => {
                assert(v * radix >= v) by (nonlinear_arith)
                    requires
                        radix >= 1,
                ;
            },
            None => {},
        }
    }
}

fn digit_of(c: char, radix: u32) -> (r: Option<u64>)
    requires
        2 <= radix <= 16,
    ensures
        r is Some <==> digit_value(c, radix as nat) is Some,
        r is Some ==> r->0 == digit_value(c, radix as nat)->0,
        r is Some ==> r->0 < radix,
{
    let u = c as u32;
    let d: u32 = if 48 <= u && u <= 57 {
        u - 48
    } else if 97 <= u && u <= 122 {
        u - 97 + 10
    } else if 65 <= u && u <= 90 {
        u - 65 + 10
    } else {
        radix
    };
    if d < radix {
        Some(d as u64)
    } else {
        None
    }
}

/// Reads `s` as an unsigned 64-bit number in `radix`, as `u64::from_str_radix` does.
pub fn parse_u64_chars(s: &Vec<char>, radix: u32) -> (r: Option<u64>)
    requires
        2 <= radix <= 16,
    ensures
        r == parse_u64(s@, radix as nat),
{
    let n = s.len();
    let start: usize = if n > 0 && s[0] == '+' {
        1
    } else {
        0
    };
    let ghost body = if n > 0 && s@[0] == '+' {
        s@.drop_first()
    } else {
        s@
    };
    assert(body =~= s@.subrange(start as int, n as int));
    if start == n {
        return None;
    }
    let mut acc: u64 = 0;
    let mut i: usize = start;
    assert(body.subrange(0, 0) =~= Seq::<char>::empty());
    while i < n
        invariant
            start <= i <= n == s.len(),
            start < n,
            body == (if n > 0 && s@[0] == '+' {
                s@.drop_first()
            } else {
                s@
            }),
            body =~= s@.subrange(start as int, n as int),
            digits_value(body.subrange(0, i - start), radix as nat) == Some(acc as nat),
            2 <= radix <= 16,
        decreases n - i,
    {
        let ghost k = i - start + 1;
        assert(body.subrange(0, k).drop_last() =~= body.subrange(0, k - 1));
        assert(body.subrange(0, k).last() == s@[i as int]);
        match digit_of(s[i], radix) {
            None => {
                proof {
                    assert(digits_value(body.subrange(0, k), radix as nat) is None);
                    lemma_digits_prefix(body, k, radix as nat);
                    assert(digits_value(body, radix as nat) is None);
                }
                return None;
            },
            Some(d) => {
                assert(acc as u128 * radix as u128 <= 0xFFFF_FFFF_FFFF_FFFFu128 * 16) by (nonlinear_arith)
                    requires
                        acc <= 0xFFFF_FFFF_FFFF_FFFFu64,
                        radix <= 16,
                ;
                let nv: u128 = acc as u128 * radix as u128 + d as u128;
                if nv > u64::MAX as u128 {
                    proof {
                        assert(digits_value(body.subrange(0, k), radix as nat) == Some(nv as nat));
                        lemma_digits_prefix(body, k, radix as nat);
                        assert(digits_value(body, radix as nat) is None || digits_value(body, radix as nat)->0 > u64::MAX);
                    }
                    return None;
                }
                acc = nv as u64;
            },
        }
        i = i + 1;
    }
    assert(body.subrange(0, n - start) =~= body);
    Some(acc)
}

fn digit_char_of(d: u64) -> (c: char)
    requires
        d < 16,
    ensures
        c == digit_char(d as nat),
{
    match d {
        0 => '0',
        1 => '1',
        2 => '2',
        3 => '3',
        4 => '4',
        5 => '5',
        6 => '6',
        7 => '7',
        8 => '8',
        9 => '9',
        10 => 'a',
        11 => 'b',
        12 => 'c',
        13 => 'd',
        14 => 'e',
        _ => 'f',
    }
}

/// The digits of `v` in `radix`, most significant first.
pub fn radix_digits_of(v: u64, radix: u64) -> (r: Vec<char>)
    requires
        radix == 2 || radix == 10 || radix == 16,
    ensures
        r@ == radix_digits(v as nat, radix as nat),
        r@.len() >= 1,
    decreases v,
{
    if v < radix {
        vec![digit_char_of(v)]
    } else {
        let mut p = radix_digits_of(v / radix, radix);
        p.push(digit_char_of(v % radix));
        p
    }
}

fn zero_pad_chars(s: Vec<char>, n: usize) -> (r: Vec<char>)
    ensures
        r@ == zero_pad(s@, n as nat),
{
    if s.len() < n {
        let mut r: Vec<char> = Vec::new();
        let k = n - s.len();
        while r.len() < k
            invariant
                r.len() <= k,
                forall|i: int| 0 <= i < r.len() ==> r[i] == '0',
            decreases k - r.len(),
        {
            r.push('0');
        }
        let mut i: usize = 0;
        let ghost pad = r@;
        while i < s.len()
            invariant
                i <= s.len(),
                r@ == pad + s@.subrange(0, i as int),
            decreases s.len() - i,
        {
            r.push(s[i]);
            i = i + 1;
            assert(r@ =~= pad + s@.subrange(0, i as int));
        }
        assert(s@.subrange(0, s.len() as int) =~= s@);
        assert(pad =~= Seq::new((n - s.len()) as nat, |i: int| '0'));
        r
    } else {
        s
    }
}

fn hex_prefixed_chars(v: u64) -> (r: Vec<char>)
    ensures
        r@ == hex_prefixed(v as nat),
{
    let d = zero_pad_chars(radix_digits_of(v, 16), 2);
    let mut r: Vec<char> = vec!['0', 'x'];
    if d.len() % 2 == 1 {
        r.push('0');
    }
    let ghost pre = r@;
    let mut i: usize = 0;
    while i < d.len()
        invariant
            i <= d.len(),
            r@ == pre + d@.subrange(0, i as int),
        decreases d.len() - i,
    {
        r.push(d[i]);
        i = i + 1;
        assert(r@ =~= pre + d@.subrange(0, i as int));
    }
    assert(d@.subrange(0, d.len() as int) =~= d@);
    assert(r@ =~= hex_prefixed(v as nat));
    r
}

/// `0x` and the lower-case hex digits of `v`, at least two and an even number of them.
pub fn format_hex_prefixed_min2_even(v: u64) -> (r: String)
    ensures
        r@ == hex_prefixed(v as nat),
{
    string_of(&hex_prefixed_chars(v))
}

/// How an address is shown, whatever the display base: `0x` and an even number of hex digits.
pub fn format_addr(addr: u64) -> (r: String)
    ensures
        r@ == hex_prefixed(addr as nat),
{
    format_hex_prefixed_min2_even(addr)
}

/// The display text of the raw value `raw` under `base`.
pub fn format_value_chars(raw: &Vec<char>, base: DisplayBase) -> (r: Vec<char>)
    ensures
        r@ == format_value(raw@, base),
{
    let c = strip_h_suffix_chars(&trim_chars(raw));
    let num = match parse_u64_chars(&strip_0x_prefix_chars(&c), 16) {
        Some(v) => Some(v),
        None => parse_u64_chars(&c, 10),
    };
    match num {
        Some(v) => match base {
            DisplayBase::Hex => hex_prefixed_chars(v),
            DisplayBase::Dec => radix_digits_of(v, 10),
            DisplayBase::Bin => zero_pad_chars(radix_digits_of(v % 256, 2), 8),
        },
        None => c,
    }
}

/// The display text of the raw value `raw` under `base`.
pub fn format_data_with_base(raw: &str, base: DisplayBase) -> (r: String)
    ensures
        r@ == format_value(raw@, base),
{
    string_of(&format_value_chars(&chars_of(raw), base))
}

} // verus!
