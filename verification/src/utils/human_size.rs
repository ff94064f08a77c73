//! Base-1024 byte formatting and parsing of human-readable sizes.

use vstd::prelude::*;
use crate::text::{
    chars_eq_str, chars_of, extend_chars, extend_str, is_alphabetic, string_of, sub_chars,
    to_uppercase, trim_chars, alphabetic, trim_seq, uppercase_of,
};

verus! {

/// One kibibyte.
pub const KB: u64 = 1024;
/// One mebibyte.
pub const MB: u64 = 1048576;
/// One gibibyte.
pub const GB: u64 = 1073741824;
/// One tebibyte.
pub const TB: u64 = 1099511627776;

/// `10^n`.
pub open spec fn pow10(n: nat) -> nat
    decreases n,
{
    if n == 0 {
        1
    } else {
        10 * pow10((n - 1) as nat)
    }
}

/// The decimal digit character for `d < 10`.
pub open spec fn digit_char(d: nat) -> char {
    (48 + d) as char
}

/// Whether `c` is an ASCII decimal digit.
pub open spec fn is_digit(c: char) -> bool {
    '0' <= c && c <= '9'
}

/// The value of the digit character `c`.
pub open spec fn digit_val(c: char) -> nat {
    ((c as u32) - 48) as nat
}

/// Whether every character of `s` is a decimal digit.
pub open spec fn all_digits(s: Seq<char>) -> bool {
    forall|i: int| 0 <= i < s.len() ==> is_digit(#[trigger] s[i])
}

/// The value of a string of decimal digits (0 for the empty string).
pub open spec fn digits_value(s: Seq<char>) -> nat
    decreases s.len(),
{
    if s.len() == 0 {
        0
    } else {
        digits_value(s.drop_last()) * 10 + digit_val(s.last())
    }
}

/// The decimal representation of `n` without leading zeros ("0" for zero).
pub open spec fn decimal(n: nat) -> Seq<char>
    decreases n,
{
    if n < 10 {
        seq![digit_char(n)]
    } else {
        decimal(n / 10).push(digit_char(n % 10))
    }
}

/// The decimal representation of `n` left-padded with zeros to `width`.
pub open spec fn zero_padded(n: nat, width: nat) -> Seq<char> {
    let d = decimal(n);
    if d.len() >= width {
        d
    } else {
        Seq::new((width - d.len()) as nat, |i: int| '0') + d
    }
}

/// `num / den` rounded to the nearest integer, ties to the even neighbour.
pub open spec fn round_half_even(num: nat, den: nat) -> nat {
    let q = num / den;
    let r = num % den;
    if 2 * r > den {
        q + 1
    } else if 2 * r < den {
        q
    } else if q % 2 == 0 {
        q
    } else {
        q + 1
    }
}

/// `bytes / unit` written with `places` decimals, rounded to nearest
/// (ties to even, as `{:.N}` formatting rounds an exact value).
pub open spec fn fixed_point(bytes: nat, unit: nat, places: nat) -> Seq<char> {
    let v = round_half_even(bytes * pow10(places), unit);
    decimal(v / pow10(places)) + seq!['.'] + zero_padded(v % pow10(places), places)
}

/// The text `format_bytes` produces for `b` bytes.
pub open spec fn format_bytes_spec(b: nat) -> Seq<char> {
    if b < KB {
        decimal(b) + seq![' ', 'B']
    } else if b < MB {
        fixed_point(b, KB as nat, 1) + seq![' ', 'K', 'B']
    } else if b < GB {
        fixed_point(b, MB as nat, 1) + seq![' ', 'M', 'B']
    } else if b < TB {
        fixed_point(b, GB as nat, 2) + seq![' ', 'G', 'B']
    } else {
        fixed_point(b, TB as nat, 2) + seq![' ', 'T', 'B']
    }
}

proof fn lemma_decimal_len(n: nat)
    ensures
        decimal(n).len() >= 1,
        n < 10 ==> decimal(n).len() == 1,
    decreases n,
{
    if n >= 10 {
        lemma_decimal_len(n / 10);
    }
}

/// The decimal digits of `n`.
pub fn decimal_chars(n: u128) -> (r: Vec<char>)
    ensures
        r@ == decimal(n as nat),
    decreases n,
{
    let d = (n % 10) as u32;
    let c = char_of_digit(d);
    if n < 10 {
        let mut v: Vec<char> = Vec::new();
        v.push(c);
        proof {
            assert(v@ =~= seq![digit_char(n as nat)]);
        }
        v
    } else {
        let mut v = decimal_chars(n / 10);
        v.push(c);
        v
    }
}

/// The character of the decimal digit `d`.
pub fn char_of_digit(d: u32) -> (c: char)
    requires
        d < 10,
    ensures
        c == digit_char(d as nat),
{
    if d == 0 { '0' }
    else if d == 1 { '1' }
    else if d == 2 { '2' }
    else if d == 3 { '3' }
    else if d == 4 { '4' }
    else if d == 5 { '5' }
    else if d == 6 { '6' }
    else if d == 7 { '7' }
    else if d == 8 { '8' }
    else { '9' }
}

/// The decimal digits of `n` left-padded with zeros to `width`.
pub fn zero_padded_chars(n: u128, width: usize) -> (r: Vec<char>)
    ensures
        r@ == zero_padded(n as nat, width as nat),
{
    let d = decimal_chars(n);
    if d.len() >= width {
        return d;
    }
    let mut out: Vec<char> = Vec::new();
    let fill = width - d.len();
    let mut i: usize = 0;
    while i < fill
        invariant
            i <= fill,
            out@ == Seq::new(i as nat, |k: int| '0'),
        decreases fill - i,
    {
        out.push('0');
        i = i + 1;
        assert(out@ =~= Seq::new(i as nat, |k: int| '0'));
    }
    extend_chars(&mut out, d.as_slice());
    out
}

proof fn lemma_pow10_small()
    ensures
        pow10(0) == 1,
        pow10(1) == 10,
        pow10(2) == 100,
{
    reveal_with_fuel(pow10, 3);
}

/// `bytes / unit` rounded to `places` decimals (ties to even).
fn fixed_point_chars(bytes: u64, unit: u64, places: usize, scale: u64) -> (r: Vec<char>)
    requires
        unit > 0,
        scale == pow10(places as nat),
        1 <= scale <= 100,
    ensures
        r@ == fixed_point(bytes as nat, unit as nat, places as nat),
{
    assert((bytes as u128) * (scale as u128) <= 0xffff_ffff_ffff_ffff * 100) by (nonlinear_arith)
        requires
            scale <= 100,
    ;
    let num: u128 = (bytes as u128) * (scale as u128);
    let q: u128 = num / (unit as u128);
    assert(q <= num) by (nonlinear_arith)
        requires
            unit > 0,
            q == num / (unit as u128),
    ;
    let rem: u128 = num % (unit as u128);
    let v: u128 = if 2 * rem > unit as u128 {
        q + 1
    } else if 2 * rem < unit as u128 {
        q
    } else if q % 2 == 0 {
        q
    } else {
        q + 1
    };
    assert(v == round_half_even(bytes as nat * pow10(places as nat), unit as nat));
    let mut out = decimal_chars(v / (scale as u128));
    out.push('.');
    let frac = zero_padded_chars(v % (scale as u128), places);
    extend_chars(&mut out, frac.as_slice());
    out
}

/// Format a byte count in base 1024: "X B" below 1 KB, one decimal for KB and
/// MB, two decimals for GB and TB ("847 B", "4.2 KB", "3.97 GB").
pub fn format_bytes(bytes: u64) -> (r: String)
    ensures
        r@ == format_bytes_spec(bytes as nat),
{
    proof {
        lemma_pow10_small();
    }
    let mut out: Vec<char>;
    if bytes < KB {
        out = decimal_chars(bytes as u128);
        extend_str(&mut out, " B");
    } else if bytes < MB {
        out = fixed_point_chars(bytes, KB, 1, 10);
        extend_str(&mut out, " KB");
    } else if bytes < GB {
        out = fixed_point_chars(bytes, MB, 1, 10);
        extend_str(&mut out, " MB");
    } else if bytes < TB {
        out = fixed_point_chars(bytes, GB, 2, 100);
        extend_str(&mut out, " GB");
    } else {
        out = fixed_point_chars(bytes, TB, 2, 100);
        extend_str(&mut out, " TB");
    }
    proof {
        reveal_strlit(" B");
        reveal_strlit(" KB");
        reveal_strlit(" MB");
        reveal_strlit(" GB");
        reveal_strlit(" TB");
    }
    string_of(out.as_slice())
}

/// The index of the first alphabetic character of `s` (`s.len()` if none).
pub open spec fn first_alpha(s: Seq<char>) -> int
    decreases s.len(),
{
    if s.len() == 0 {
        0
    } else if alphabetic(s[0]) {
        0
    } else {
        1 + first_alpha(s.drop_first())
    }
}

/// The number part and unit part of an upper-cased size string: split before
/// the first alphabetic character and trimmed; without one, the whole string
/// and the unit `B`.
pub open spec fn number_part(upper: Seq<char>) -> Seq<char> {
    if first_alpha(upper) < upper.len() {
        trim_seq(upper.subrange(0, first_alpha(upper)))
    } else {
        upper
    }
}

/// See `number_part`.
pub open spec fn unit_part(upper: Seq<char>) -> Seq<char> {
    if first_alpha(upper) < upper.len() {
        trim_seq(upper.subrange(first_alpha(upper), upper.len() as int))
    } else {
        seq!['B']
    }
}

/// The number text without its leading sign.
pub open spec fn unsigned_body(num: Seq<char>) -> Seq<char> {
    if num.len() > 0 && (num[0] == '+' || num[0] == '-') {
        num.drop_first()
    } else {
        num
    }
}

/// Whether the number text carries a minus sign.
pub open spec fn has_minus(num: Seq<char>) -> bool {
    num.len() > 0 && num[0] == '-'
}

/// The index of the first `.` in `s`, or -1.
pub open spec fn first_dot(s: Seq<char>) -> int
    decreases s.len(),
{
    if s.len() == 0 {
        -1
    } else if s[0] == '.' {
        0
    } else if first_dot(s.drop_first()) < 0 {
        -1
    } else {
        1 + first_dot(s.drop_first())
    }
}

/// The digits before the decimal point.
pub open spec fn int_digits(num: Seq<char>) -> Seq<char> {
    let b = unsigned_body(num);
    if first_dot(b) < 0 {
        b
    } else {
        b.subrange(0, first_dot(b))
    }
}

/// The digits after the decimal point.
pub open spec fn frac_digits(num: Seq<char>) -> Seq<char> {
    let b = unsigned_body(num);
    if first_dot(b) < 0 {
        Seq::empty()
    } else {
        b.subrange(first_dot(b) + 1, b.len() as int)
    }
}

/// Whether `num` is a decimal number as `f64::from_str` accepts one without
/// letters: an optional sign, then digits with at most one decimal point and
/// at least one digit.
pub open spec fn valid_number(num: Seq<char>) -> bool {
    all_digits(int_digits(num)) && all_digits(frac_digits(num)) && (int_digits(num).len() > 0
        || frac_digits(num).len() > 0)
}

/// The byte multiplier of a (trimmed, upper-case) unit name.
pub open spec fn unit_multiplier(u: Seq<char>) -> Option<nat> {
    if u == "B"@ || u == "BYTES"@ || u == "BYTE"@ {
        Some(1)
    } else if u == "K"@ || u == "KB"@ || u == "KIB"@ {
        Some(KB as nat)
    } else if u == "M"@ || u == "MB"@ || u == "MIB"@ {
        Some(MB as nat)
    } else if u == "G"@ || u == "GB"@ || u == "GIB"@ {
        Some(GB as nat)
    } else if u == "T"@ || u == "TB"@ || u == "TIB"@ {
        Some(TB as nat)
    } else {
        None
    }
}

/// The size in bytes, times `10^(fraction digits)`, of a valid number.
pub open spec fn scaled_total(num: Seq<char>, mult: nat) -> nat {
    (digits_value(int_digits(num)) * pow10(frac_digits(num).len()) + digits_value(
        frac_digits(num),
    )) * mult
}

/// `2^64`, the bound above which a size is an overflow.
pub open spec fn two_pow_64() -> nat {
    18446744073709551616
}

/// What `parse_human_size` returns: the exact decimal value of the number
/// times the unit, rounded half away from zero (saturating at `u64::MAX`
/// when it rounds to `2^64`), or the error message.
pub open spec fn parse_size_spec(s: Seq<char>) -> Result<u64, Seq<char>> {
    let t = trim_seq(s);
    if t.len() == 0 {
        Err("Empty size string"@)
    } else {
        let upper = uppercase_of(t);
        let num = number_part(upper);
        let unit = unit_part(upper);
        if !valid_number(num) {
            Err(
                "Invalid number '"@ + num + "': "@ + if num.len() == 0 {
                    "cannot parse float from empty string"@
                } else {
                    "invalid float literal"@
                },
            )
        } else if has_minus(num) && (digits_value(int_digits(num)) > 0 || digits_value(
            frac_digits(num),
        ) > 0) {
            Err("Size cannot be negative"@)
        } else {
            match unit_multiplier(unit) {
                None => Err("Unknown size unit '"@ + unit + "'"@),
                Some(m) => {
                    let total = scaled_total(num, m);
                    let den = pow10(frac_digits(num).len());
                    if total > two_pow_64() * den {
                        Err("Size overflow"@)
                    } else {
                        let rounded = (2 * total + den) / (2 * den);
                        Ok(
                            if rounded > u64::MAX {
                                u64::MAX
                            } else {
                                rounded as u64
                            },
                        )
                    }
                },
            }
        }
    }
}

proof fn lemma_pow10_pos(n: nat)
    ensures
        pow10(n) >= 1,
    decreases n,
{
    if n > 0 {
        lemma_pow10_pos((n - 1) as nat);
    }
}

proof fn lemma_digits_concat(a: Seq<char>, b: Seq<char>)
    ensures
        digits_value(a + b) == digits_value(a) * pow10(b.len()) + digits_value(b),
    decreases b.len(),
{
    if b.len() == 0 {
        assert(a + b =~= a);
        assert(digits_value(b) == 0);
        assert(pow10(0) == 1);
    } else {
        lemma_digits_concat(a, b.drop_last());
        assert(digits_value(a + b) == digits_value((a + b).drop_last()) * 10 + digit_val((a + b).last()));
        assert(digits_value(b) == digits_value(b.drop_last()) * 10 + digit_val(b.last()));
        assert(pow10(b.len()) == 10 * pow10((b.len() - 1) as nat));
        assert((a + b).drop_last() =~= a + b.drop_last());
        assert((a + b).last() == b.last());
        let x = digits_value(a);
        let y = digits_value(b.drop_last());
        let p = pow10((b.len() - 1) as nat);
        assert((x * p + y) * 10 + digit_val(b.last()) == x * (10 * p) + (y * 10 + digit_val(
            b.last(),
        ))) by (nonlinear_arith);
    }
}

proof fn lemma_digits_bound(s: Seq<char>)
    requires
        all_digits(s),
    ensures
        digits_value(s) < pow10(s.len()),
    decreases s.len(),
{
    if s.len() > 0 {
        assert(all_digits(s.drop_last())) by {
            assert forall|i: int| 0 <= i < s.drop_last().len() implies is_digit(
                #[trigger] s.drop_last()[i],
            ) by {
                assert(s.drop_last()[i] == s[i]);
            }
        }
        lemma_digits_bound(s.drop_last());
        assert(is_digit(s[s.len() - 1]));
        let x = digits_value(s.drop_last());
        let p = pow10((s.len() - 1) as nat);
        assert(x * 10 + digit_val(s.last()) < 10 * p) by (nonlinear_arith)
            requires
                x < p,
                digit_val(s.last()) < 10,
        ;
    }
}

proof fn lemma_first_alpha_bounds(s: Seq<char>)
    ensures
        0 <= first_alpha(s) <= s.len(),
        forall|j: int| 0 <= j < first_alpha(s) ==> !alphabetic(#[trigger] s[j]),
        first_alpha(s) < s.len() ==> alphabetic(s[first_alpha(s)]),
    decreases s.len(),
{
    if s.len() > 0 && !alphabetic(s[0]) {
        lemma_first_alpha_bounds(s.drop_first());
        assert forall|j: int| 0 <= j < first_alpha(s) implies !alphabetic(#[trigger] s[j]) by {
            if j > 0 {
                assert(s[j] == s.drop_first()[j - 1]);
            }
        }
    }
}

proof fn lemma_first_dot_bounds(s: Seq<char>)
    ensures
        -1 <= first_dot(s) < s.len(),
        first_dot(s) >= 0 ==> s[first_dot(s)] == '.',
        forall|j: int| 0 <= j < s.len() && (first_dot(s) < 0 || j < first_dot(s)) ==> #[trigger] s[j] != '.',
    decreases s.len(),
{
    if s.len() > 0 && s[0] != '.' {
        lemma_first_dot_bounds(s.drop_first());
        assert forall|j: int| 0 <= j < s.len() && (first_dot(s) < 0 || j < first_dot(s)) implies #[trigger] s[j] != '.' by {
            if j > 0 {
                assert(s[j] == s.drop_first()[j - 1]);
            }
        }
    }
}

/// Whether every character of `s[from..to]` is a decimal digit.
fn digits_only(s: &[char], from: usize, to: usize) -> (r: bool)
    requires
        from <= to <= s@.len(),
    ensures
        r == all_digits(s@.subrange(from as int, to as int)),
{
    let mut i = from;
    while i < to
        invariant
            from <= i <= to <= s@.len(),
            forall|j: int| from <= j < i ==> is_digit(#[trigger] s@[j]),
        decreases to - i,
    {
        if !(s[i] >= '0' && s[i] <= '9') {
            assert(s@.subrange(from as int, to as int)[i - from] == s@[i as int]);
            return false;
        }
        i = i + 1;
    }
    assert forall|j: int| 0 <= j < to - from implies is_digit(
        #[trigger] s@.subrange(from as int, to as int)[j],
    ) by {
        assert(s@.subrange(from as int, to as int)[j] == s@[from + j]);
    }
    true
}

/// The value of the digits `s[from..to]`, saturated at `cap`.
fn digits_value_capped(s: &[char], from: usize, to: usize, cap: u128) -> (r: u128)
    requires
        from <= to <= s@.len(),
        all_digits(s@.subrange(from as int, to as int)),
        cap < 0x1_0000_0000_0000_0000_0000,
    ensures
        r == if digits_value(s@.subrange(from as int, to as int)) < cap {
            digits_value(s@.subrange(from as int, to as int))
        } else {
            cap as nat
        },
{
    let mut v: u128 = 0;
    let mut i = from;
    proof {
        assert(s@.subrange(from as int, from as int) =~= Seq::<char>::empty());
    }
    while i < to
        invariant
            from <= i <= to <= s@.len(),
            all_digits(s@.subrange(from as int, to as int)),
            cap < 0x1_0000_0000_0000_0000_0000,
            v <= cap,
            v == if digits_value(s@.subrange(from as int, i as int)) < cap {
                digits_value(s@.subrange(from as int, i as int))
            } else {
                cap as nat
            },
        decreases to - i,
    {
        let ghost pre = s@.subrange(from as int, i as int);
        let ghost nxt = s@.subrange(from as int, i + 1);
        proof {
            assert(nxt.drop_last() =~= pre);
            assert(nxt.last() == s@[i as int]);
            assert(s@.subrange(from as int, to as int)[i - from] == s@[i as int]);
        }
        let d = (s[i] as u32 - 48) as u128;
        if v < cap {
            let w = v * 10 + d;
            v = if w < cap { w } else { cap };
        } else {
            proof {
                assert(digits_value(nxt) >= digits_value(pre));
            }
        }
        i = i + 1;
    }
    v
}

/// The value of a single digit string.
proof fn lemma_digits_single(c: char)
    ensures
        digits_value(seq![c]) == digit_val(c),
{
    let s1 = seq![c];
    assert(s1.drop_last() =~= Seq::<char>::empty());
    assert(s1.last() == c);
    assert(digits_value(Seq::<char>::empty()) == 0);
    assert(digits_value(s1) == digits_value(s1.drop_last()) * 10 + digit_val(s1.last()));
}

/// Splits an upper-cased size string into its trimmed number and unit parts.
fn split_number_unit(upper: &Vec<char>) -> (r: (Vec<char>, Vec<char>))
    ensures
        r.0@ == number_part(upper@),
        r.1@ == unit_part(upper@),
{
    proof {
        lemma_first_alpha_bounds(upper@);
    }
    let mut idx: usize = 0;
    while idx < upper.len() && !is_alphabetic(upper[idx])
        invariant
            idx <= upper@.len(),
            idx <= first_alpha(upper@),
            0 <= first_alpha(upper@) <= upper@.len(),
            forall|j: int| 0 <= j < first_alpha(upper@) ==> !alphabetic(#[trigger] upper@[j]),
            first_alpha(upper@) < upper@.len() ==> alphabetic(upper@[first_alpha(upper@)]),
        decreases upper@.len() - idx,
    {
        idx = idx + 1;
    }
    if idx < upper.len() {
        let a = sub_chars(upper.as_slice(), 0, idx);
        let b = sub_chars(upper.as_slice(), idx, upper.len());
        (trim_chars(a.as_slice()), trim_chars(b.as_slice()))
    } else {
        let unit = chars_of("B");
        proof {
            assert(upper@.subrange(0, upper@.len() as int) =~= upper@);
            reveal_strlit("B");
        }
        (sub_chars(upper.as_slice(), 0, upper.len()), unit)
    }
}

/// Where the sign, integer digits and fraction digits of a number text lie:
/// `(body_start, int_end, frac_start)`.
fn number_layout(num: &Vec<char>) -> (r: (usize, usize, usize))
    ensures
        r.0 <= r.1 <= r.2 <= num@.len(),
        int_digits(num@) == num@.subrange(r.0 as int, r.1 as int),
        frac_digits(num@) == num@.subrange(r.2 as int, num@.len() as int),
{
    let body_start: usize = if num.len() > 0 && (num[0] == '+' || num[0] == '-') {
        1
    } else {
        0
    };
    let ghost body = unsigned_body(num@);
    proof {
        assert(body =~= num@.subrange(body_start as int, num@.len() as int));
        lemma_first_dot_bounds(body);
    }
    let mut dot = body_start;
    while dot < num.len() && num[dot] != '.'
        invariant
            body_start <= dot <= num@.len(),
            body == num@.subrange(body_start as int, num@.len() as int),
            dot - body_start <= first_dot(body) || first_dot(body) < 0,
            -1 <= first_dot(body) < body.len(),
            first_dot(body) >= 0 ==> body[first_dot(body)] == '.',
            forall|j: int| 0 <= j < body.len() && (first_dot(body) < 0 || j < first_dot(body)) ==> #[trigger] body[j] != '.',
        decreases num@.len() - dot,
    {
        assert(body[dot - body_start] == num@[dot as int]);
        dot = dot + 1;
    }
    let has_dot = dot < num.len();
    let frac_start = if has_dot { dot + 1 } else { num.len() };
    proof {
        if has_dot {
            assert(body[dot - body_start] == num@[dot as int]);
            assert(first_dot(body) == dot - body_start);
        } else {
            assert(first_dot(body) < 0);
        }
        assert(int_digits(num@) =~= num@.subrange(body_start as int, dot as int));
        assert(frac_digits(num@) =~= num@.subrange(frac_start as int, num@.len() as int));
    }
    (body_start, dot, frac_start)
}

/// The byte multiplier of a unit name, or 0 when it is not one.
fn unit_mult(unit: &Vec<char>) -> (r: u64)
    ensures
        match unit_multiplier(unit@) {
            Some(m) => r == m && r >= 1,
            None => r == 0,
        },
{
    let u = unit.as_slice();
    if chars_eq_str(u, "B") || chars_eq_str(u, "BYTES") || chars_eq_str(u, "BYTE") {
        1
    } else if chars_eq_str(u, "K") || chars_eq_str(u, "KB") || chars_eq_str(u, "KIB") {
        KB
    } else if chars_eq_str(u, "M") || chars_eq_str(u, "MB") || chars_eq_str(u, "MIB") {
        MB
    } else if chars_eq_str(u, "G") || chars_eq_str(u, "GB") || chars_eq_str(u, "GIB") {
        GB
    } else if chars_eq_str(u, "T") || chars_eq_str(u, "TB") || chars_eq_str(u, "TIB") {
        TB
    } else {
        0
    }
}

/// Long multiplication of the fraction digits `num[frac_start..]` by `mult`:
/// returns `(carry, first_digit, nonzero, g)` with
/// `fraction * mult == carry * 10^k + g`, `g < 10^k`, `first_digit` the
/// leading one of the `k` digits of `g`, and `nonzero == (g > 0)`.
fn fraction_times(num: &Vec<char>, frac_start: usize, mult: u64) -> (r: (u64, u64, bool, Ghost<nat>))
    requires
        frac_start <= num@.len(),
        all_digits(num@.subrange(frac_start as int, num@.len() as int)),
        1 <= mult <= TB,
    ensures
        ({
            let (carry, first_digit, nonzero, g) = r;
            let k = (num@.len() - frac_start) as nat;
            &&& carry < mult
            &&& g@ < pow10(k)
            &&& digits_value(num@.subrange(frac_start as int, num@.len() as int)) * mult == carry
                * pow10(k) + g@
            &&& nonzero == (g@ > 0)
            &&& first_digit < 10
            &&& k > 0 ==> g@ == first_digit * pow10((k - 1) as nat) + (g@ % pow10((k - 1) as nat))
        }),
{
    let ghost fp = num@.subrange(frac_start as int, num@.len() as int);
    let mut carry: u64 = 0;
    let mut first_digit: u64 = 0;
    let mut nonzero = false;
    let ghost mut g: nat = 0;
    let mut j = num.len();
    proof {
        assert(num@.subrange(j as int, num@.len() as int) =~= Seq::<char>::empty());
        assert(digits_value(Seq::<char>::empty()) == 0);
        assert(pow10(0) == 1);
    }
    while j > frac_start
        invariant
            frac_start <= j <= num@.len(),
            fp == num@.subrange(frac_start as int, num@.len() as int),
            all_digits(fp),
            1 <= mult <= TB,
            carry < mult,
            g < pow10((num@.len() - j) as nat),
            digits_value(num@.subrange(j as int, num@.len() as int)) * mult == carry * pow10(
                (num@.len() - j) as nat,
            ) + g,
            nonzero == (g > 0),
            j < num@.len() ==> g == first_digit * pow10((num@.len() - j - 1) as nat) + (g
                % pow10((num@.len() - j - 1) as nat)),
            first_digit < 10,
        decreases j - frac_start,
    {
        let ghost rest = num@.subrange(j as int, num@.len() as int);
        let ghost p = pow10((num@.len() - j) as nat);
        let ghost g_old = g;
        proof {
            assert(fp[j - 1 - frac_start] == num@[j - 1]);
            assert(is_digit(num@[j - 1]));
            assert(num@.subrange(j - 1, num@.len() as int) =~= seq![num@[j - 1]] + rest);
            lemma_digits_concat(seq![num@[j - 1]], rest);
            lemma_digits_single(num@[j - 1]);
            lemma_pow10_pos((num@.len() - j) as nat);
            assert(pow10((num@.len() - (j - 1)) as nat) == 10 * p);
        }
        let d = (num[j - 1] as u32 - 48) as u64;
        assert(d < 10);
        assert(d * mult <= 9 * TB) by (nonlinear_arith)
            requires
                d < 10,
                mult <= TB,
        ;
        let t = d * mult + carry;
        let nd = t % 10;
        let nc = t / 10;
        proof {
            let dv = digits_value(rest);
            assert(d == digit_val(num@[j - 1]));
            assert((d * p + dv) * mult == nc * (10 * p) + (nd * p + g_old)) by (nonlinear_arith)
                requires
                    dv * mult == carry * p + g_old,
                    t == d * mult + carry,
                    t == nc * 10 + nd,
            ;
            assert(nd * p + g_old < 10 * p) by (nonlinear_arith)
                requires
                    nd < 10,
                    g_old < p,
            ;
            assert(nc < mult) by (nonlinear_arith)
                requires
                    d < 10,
                    carry < mult,
                    t == d * mult + carry,
                    nc == t / 10,
            ;
            assert(((nd * p + g_old) as int) % (p as int) == g_old) by (nonlinear_arith)
                requires
                    g_old < p,
                    p >= 1,
            ;
            assert((nd * p + g_old > 0) == (nd > 0 || g_old > 0)) by (nonlinear_arith)
                requires
                    p >= 1,
            ;
            g = (nd * p + g_old) as nat;
        }
        carry = nc;
        first_digit = nd;
        nonzero = nonzero || nd > 0;
        j = j - 1;
    }
    (carry, first_digit, nonzero, Ghost(g))
}

/// Parse a human-readable size such as "3.97 GB", "500MB", "1.2TB" or
/// "1024 B" into bytes (base 1024), rounding to the nearest byte.
pub fn parse_human_size(s: &str) -> (r: Result<u64, String>)
    ensures
        match r {
            Ok(v) => parse_size_spec(s@) == Ok::<u64, Seq<char>>(v),
            Err(e) => parse_size_spec(s@) == Err::<u64, Seq<char>>(e@),
        },
{
    let cs = chars_of(s);
    let t = trim_chars(cs.as_slice());
    if t.len() == 0 {
        return Err(String::from_str("Empty size string"));
    }
    let ts = string_of(t.as_slice());
    let us = to_uppercase(ts.as_str());
    let upper = chars_of(us.as_str());
    let (num, unit) = split_number_unit(&upper);
    let (body_start, int_end, frac_start) = number_layout(&num);
    let ok_int = digits_only(num.as_slice(), body_start, int_end);
    let ok_frac = digits_only(num.as_slice(), frac_start, num.len());
    if !(ok_int && ok_frac && (int_end > body_start || num.len() > frac_start)) {
        let mut msg: Vec<char> = chars_of("Invalid number '");
        extend_chars(&mut msg, num.as_slice());
        extend_str(&mut msg, "': ");
        if num.len() == 0 {
            extend_str(&mut msg, "cannot parse float from empty string");
        } else {
            extend_str(&mut msg, "invalid float literal");
        }
        return Err(string_of(msg.as_slice()));
    }
    let ghost ip = int_digits(num@);
    let ghost fp = frac_digits(num@);
    let neg = num.len() > 0 && num[0] == '-';
    let cap: u128 = 0x1_0000_0000_0000_0001;
    let iv = digits_value_capped(num.as_slice(), body_start, int_end, cap);
    let fnz = digits_value_capped(num.as_slice(), frac_start, num.len(), 1);
    if neg && (iv > 0 || fnz > 0) {
        return Err(String::from_str("Size cannot be negative"));
    }
    let mult = unit_mult(&unit);
    if mult == 0 {
        let mut msg: Vec<char> = chars_of("Unknown size unit '");
        extend_chars(&mut msg, unit.as_slice());
        extend_str(&mut msg, "'");
        return Err(string_of(msg.as_slice()));
    }
    let (carry, first_digit, nonzero, g) = fraction_times(&num, frac_start, mult);
    let ghost k = fp.len();
    proof {
        lemma_pow10_pos(k);
        lemma_digits_bound(fp);
    }
    if iv == cap {
        proof {
            let i_full = digits_value(ip);
            let f_full = digits_value(fp);
            assert(scaled_total(num@, mult as nat) > two_pow_64() * pow10(k)) by (nonlinear_arith)
                requires
                    i_full >= 0x1_0000_0000_0000_0001,
                    mult >= 1,
                    pow10(k) >= 1,
                    scaled_total(num@, mult as nat) == (i_full * pow10(k) + f_full) * mult,
                    two_pow_64() == 18446744073709551616,
            ;
        }
        return Err(String::from_str("Size overflow"));
    }
    assert(iv * (mult as u128) <= 0x1_0000_0000_0000_0000 * TB) by (nonlinear_arith)
        requires
            iv <= 0x1_0000_0000_0000_0000,
            mult <= TB,
    ;
    let q: u128 = iv * (mult as u128) + (carry as u128);
    let ghost p = pow10(k);
    proof {
        let i_full = digits_value(ip);
        assert(iv == i_full);
        assert(scaled_total(num@, mult as nat) == q * p + g@) by (nonlinear_arith)
            requires
                scaled_total(num@, mult as nat) == (i_full * p + digits_value(fp)) * mult,
                digits_value(fp) * mult == carry * p + g@,
                q == i_full * mult + carry,
        ;
    }
    if q > 0x1_0000_0000_0000_0000 || (q == 0x1_0000_0000_0000_0000 && nonzero) {
        proof {
            assert(q * p + g@ > two_pow_64() * p) by (nonlinear_arith)
                requires
                    q > 0x1_0000_0000_0000_0000 || (q == 0x1_0000_0000_0000_0000 && g@ > 0),
                    g@ < p,
                    two_pow_64() == 0x1_0000_0000_0000_0000,
            ;
        }
        return Err(String::from_str("Size overflow"));
    }
    let up: u128 = if frac_start < num.len() && first_digit >= 5 { 1 } else { 0 };
    let rounded = q + up;
    proof {
        assert(!(q * p + g@ > two_pow_64() * p)) by (nonlinear_arith)
            requires
                q < 0x1_0000_0000_0000_0000 || (q == 0x1_0000_0000_0000_0000 && g@ == 0),
                g@ < p,
                two_pow_64() == 0x1_0000_0000_0000_0000,
        ;
        if k > 0 {
            let p1 = pow10((k - 1) as nat);
            assert(p == 10 * p1);
            assert((2 * g@ >= p) == (first_digit >= 5)) by (nonlinear_arith)
                requires
                    g@ == first_digit * p1 + (g@ % p1),
                    0 <= g@ % p1 < p1,
                    p == 10 * p1,
                    first_digit < 10,
            ;
        } else {
            assert(p == 1);
        }
        assert(((2 * (q * p + g@) + p) as int) / ((2 * p) as int) == q + up) by (nonlinear_arith)
            requires
                p >= 1,
                0 <= g@ < p,
                (up == 1) == (2 * g@ >= p),
                up == 0 || up == 1,
        ;
    }
    if rounded > 0xffff_ffff_ffff_ffff {
        Ok(0xffff_ffff_ffff_ffff)
    } else {
        Ok(rounded as u64)
    }
}


/// The digits of `decimal(n)` spell `n` back.
pub proof fn lemma_decimal_value(n: nat)
    ensures
        digits_value(decimal(n)) == n,
        all_digits(decimal(n)),
        decimal(n).len() >= 1,
    decreases n,
{
    let d = (n % 10) as nat;
    assert(digit_val(digit_char(d)) == d);
    if n < 10 {
        let s = decimal(n);
        assert(s.drop_last() =~= Seq::<char>::empty());
        assert(digits_value(Seq::<char>::empty()) == 0);
        assert(digits_value(s) == digits_value(s.drop_last()) * 10 + digit_val(s.last()));
    } else {
        lemma_decimal_value(n / 10);
        let s = decimal(n);
        assert(s.drop_last() =~= decimal(n / 10));
        assert(digits_value(s) == digits_value(s.drop_last()) * 10 + digit_val(s.last()));
        assert forall|i: int| 0 <= i < s.len() implies is_digit(#[trigger] s[i]) by {
            if i < s.len() - 1 {
                assert(s[i] == decimal(n / 10)[i]);
            }
        }
    }
}

/// Distinct numbers have distinct decimal representations.
pub proof fn lemma_decimal_injective(n: nat, m: nat)
    requires
        decimal(n) == decimal(m),
    ensures
        n == m,
{
    lemma_decimal_value(n);
    lemma_decimal_value(m);
}

} // verus!
