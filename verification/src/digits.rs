//! Decimal text for the integers that appear in an encoded arrangement:
//! the specification of the digit form, an executable writer and scanner,
//! and the lemmas that make the two inverse to each other.

use vstd::prelude::*;

verus! {

/// The character for one decimal digit.
pub open spec fn digit_char(d: nat) -> char
    recommends
        d < 10,
{
    if d == 0 {
        '0'
    } else if d == 1 {
        '1'
    } else if d == 2 {
        '2'
    } else if d == 3 {
        '3'
    } else if d == 4 {
        '4'
    } else if d == 5 {
        '5'
    } else if d == 6 {
        '6'
    } else if d == 7 {
        '7'
    } else if d == 8 {
        '8'
    } else {
        '9'
    }
}

/// Whether `c` is a decimal digit.
pub open spec fn is_digit(c: char) -> bool {
    c == '0' || c == '1' || c == '2' || c == '3' || c == '4' || c == '5' || c == '6' || c == '7'
        || c == '8' || c == '9'
}

/// The value of one digit character.
pub open spec fn digit_val(c: char) -> nat
    recommends
        is_digit(c),
{
    if c == '0' {
        0
    } else if c == '1' {
        1
    } else if c == '2' {
        2
    } else if c == '3' {
        3
    } else if c == '4' {
        4
    } else if c == '5' {
        5
    } else if c == '6' {
        6
    } else if c == '7' {
        7
    } else if c == '8' {
        8
    } else {
        9
    }
}

/// The decimal encoding of a natural number: most significant digit first,
/// no leading zeros, and zero itself is "0".
pub open spec fn dec_nat(n: nat) -> Seq<char>
    decreases n,
{
    if n < 10 {
        seq![digit_char(n)]
    } else {
        dec_nat(n / 10) + seq![digit_char(n % 10)]
    }
}

/// The value of a digit string, most significant digit first.
pub open spec fn digits_val(ds: Seq<char>) -> nat
    decreases ds.len(),
{
    if ds.len() == 0 {
        0
    } else {
        digits_val(ds.drop_last()) * 10 + digit_val(ds.last())
    }
}

/// Every character of `ds` is a decimal digit.
pub open spec fn all_digits(ds: Seq<char>) -> bool {
    forall|i: int| 0 <= i < ds.len() ==> is_digit(ds[i])
}

/// `dec_nat` writes only digits, at least one, and `digits_val` reads the
/// number back.
pub proof fn lemma_dec_nat_digits(n: nat)
    ensures
        all_digits(dec_nat(n)),
        dec_nat(n).len() >= 1,
        digits_val(dec_nat(n)) == n,
    decreases n,
{
    if n < 10 {
        assert(dec_nat(n) =~= seq![digit_char(n)]);
        assert(dec_nat(n).drop_last() =~= Seq::<char>::empty());
        assert(dec_nat(n).last() == digit_char(n));
        assert(digits_val(Seq::<char>::empty()) == 0);
        assert(digits_val(dec_nat(n)) == digit_val(digit_char(n)));
        assert(digit_val(digit_char(n)) == n);
    } else {
        lemma_dec_nat_digits(n / 10);
        assert(dec_nat(n).drop_last() =~= dec_nat(n / 10));
        assert(dec_nat(n).last() == digit_char(n % 10));
        assert(digits_val(dec_nat(n)) == (n / 10) * 10 + n % 10);
        vstd::arithmetic::div_mod::lemma_fundamental_div_mod(n as int, 10);
    }
}

/// The end of the run of digit characters that starts at `i`.
pub open spec fn digit_run_end(s: Seq<char>, i: int) -> int
    decreases s.len() - i,
{
    if 0 <= i < s.len() && is_digit(s[i]) {
        digit_run_end(s, i + 1)
    } else {
        i
    }
}

/// Basic facts about a digit run: it stays inside the string, holds only
/// digits, and stops at the first non-digit.
pub proof fn lemma_digit_run_end_props(s: Seq<char>, i: int)
    requires
        0 <= i <= s.len(),
    ensures
        i <= digit_run_end(s, i) <= s.len(),
        forall|k: int| i <= k < digit_run_end(s, i) ==> is_digit(s[k]),
        digit_run_end(s, i) == s.len() || !is_digit(s[digit_run_end(s, i)]),
    decreases s.len() - i,
{
    if i < s.len() && is_digit(s[i]) {
        lemma_digit_run_end_props(s, i + 1);
    }
}

/// A run that holds only digits and is followed by a non-digit (or the end)
/// is exactly what `digit_run_end` finds.
pub proof fn lemma_digit_run_end_of(s: Seq<char>, i: int, e: int)
    requires
        0 <= i <= e <= s.len(),
        forall|k: int| i <= k < e ==> is_digit(s[k]),
        e == s.len() || !is_digit(s[e]),
    ensures
        digit_run_end(s, i) == e,
    decreases e - i,
{
    if i < e {
        lemma_digit_run_end_of(s, i + 1, e);
    }
}

/// Greedy decimal parse at position `i`: the value of the maximal digit run
/// starting there, and the position just past it, provided the run is
/// non-empty and the value is at most `max`.
pub open spec fn parse_dec(s: Seq<char>, i: int, max: nat) -> Option<(nat, int)> {
    let e = digit_run_end(s, i);
    if e > i && digits_val(s.subrange(i, e)) <= max {
        Some((digits_val(s.subrange(i, e)), e))
    } else {
        None
    }
}

/// A successful decimal parse lands strictly past `i` and inside the string.
pub proof fn lemma_parse_dec_bounds(s: Seq<char>, i: int, max: nat)
    requires
        0 <= i <= s.len(),
    ensures
        parse_dec(s, i, max) matches Some((v, j)) ==> i < j <= s.len() && v <= max,
{
    lemma_digit_run_end_props(s, i);
}

/// Parsing right after `dec_nat(n)` was written (with no digit following)
/// gives back `n`.
pub proof fn lemma_parse_dec_of_enc(s: Seq<char>, i: int, n: nat, max: nat)
    requires
        n <= max,
        0 <= i,
        i + dec_nat(n).len() <= s.len(),
        s.subrange(i, i + dec_nat(n).len() as int) == dec_nat(n),
        i + dec_nat(n).len() == s.len() || !is_digit(s[i + dec_nat(n).len()]),
    ensures
        parse_dec(s, i, max) == Some((n, i + dec_nat(n).len() as int)),
{
    let e = i + dec_nat(n).len() as int;
    lemma_dec_nat_digits(n);
    assert forall|k: int| i <= k < e implies is_digit(s[k]) by {
        assert(s[k] == dec_nat(n)[k - i]);
    }
    lemma_digit_run_end_of(s, i, e);
}

/// The decimal encoding of a signed integer: a minus sign for a negative
/// value, then the magnitude.
pub open spec fn dec_int(x: int) -> Seq<char> {
    if x < 0 {
        seq!['-'] + dec_nat((-x) as nat)
    } else {
        dec_nat(x as nat)
    }
}

/// Greedy parse of a signed decimal number within the range of `i32`.
pub open spec fn parse_i32(s: Seq<char>, i: int) -> Option<(int, int)> {
    if 0 <= i < s.len() && s[i] == '-' {
        match parse_dec(s, i + 1, 0x8000_0000) {
            Some((v, j)) => Some((-(v as int), j)),
            None => None,
        }
    } else {
        match parse_dec(s, i, 0x7fff_ffff) {
            Some((v, j)) => Some((v as int, j)),
            None => None,
        }
    }
}

/// A successful signed parse lands strictly past `i`, inside the string, and
/// within the range of `i32`.
pub proof fn lemma_parse_i32_bounds(s: Seq<char>, i: int)
    requires
        0 <= i <= s.len(),
    ensures
        parse_i32(s, i) matches Some((v, j)) ==> i < j <= s.len() && -0x8000_0000 <= v
            <= 0x7fff_ffff,
{
    lemma_parse_dec_bounds(s, i, 0x7fff_ffff);
    if i < s.len() && s[i] == '-' {
        lemma_parse_dec_bounds(s, i + 1, 0x8000_0000);
    }
}

/// Parsing right after `dec_int(x)` was written (with no digit following)
/// gives back `x`.
pub proof fn lemma_parse_i32_of_enc(s: Seq<char>, i: int, x: int)
    requires
        -0x8000_0000 <= x <= 0x7fff_ffff,
        0 <= i,
        i + dec_int(x).len() <= s.len(),
        s.subrange(i, i + dec_int(x).len() as int) == dec_int(x),
        i + dec_int(x).len() == s.len() || !is_digit(s[i + dec_int(x).len()]),
    ensures
        parse_i32(s, i) == Some((x, i + dec_int(x).len() as int)),
{
    if x < 0 {
        let m = (-x) as nat;
        lemma_dec_nat_digits(m);
        assert(s[i] == dec_int(x)[0]);
        assert(dec_int(x)[0] == '-');
        assert forall|k: int| 0 <= k < dec_nat(m).len() implies s.subrange(
            i + 1,
            i + 1 + dec_nat(m).len() as int,
        )[k] == dec_nat(m)[k] by {
            assert(s[i + 1 + k] == s.subrange(i, i + dec_int(x).len() as int)[1 + k]);
            assert(dec_int(x)[1 + k] == dec_nat(m)[k]);
        }
        assert(s.subrange(i + 1, i + 1 + dec_nat(m).len() as int) =~= dec_nat(m));
        lemma_parse_dec_of_enc(s, i + 1, m, 0x8000_0000);
    } else {
        lemma_dec_nat_digits(x as nat);
        assert(s[i] == dec_nat(x as nat)[0]);
        assert(is_digit(s[i]));
        assert(s[i] != '-');
        lemma_parse_dec_of_enc(s, i, x as nat, 0x7fff_ffff);
    }
}

/// Relies on `String::push`: appends exactly the one character.
#[verifier::external_body]
pub(crate) fn push_char(s: &mut String, c: char)
    ensures
        final(s)@ == old(s)@.push(c),
{
    s.push(c);
}

/// The character for a digit below ten.
pub(crate) fn digit_char_exec(d: u64) -> (r: char)
    requires
        d < 10,
    ensures
        r == digit_char(d as nat),
{
    if d == 0 {
        '0'
    } else if d == 1 {
        '1'
    } else if d == 2 {
        '2'
    } else if d == 3 {
        '3'
    } else if d == 4 {
        '4'
    } else if d == 5 {
        '5'
    } else if d == 6 {
        '6'
    } else if d == 7 {
        '7'
    } else if d == 8 {
        '8'
    } else {
        '9'
    }
}

/// The value of a digit character, or `None` if `c` is not a digit.
pub(crate) fn digit_value(c: char) -> (r: Option<u64>)
    ensures
        match r {
            Some(v) => is_digit(c) && v as nat == digit_val(c) && v < 10,
            None => !is_digit(c),
        },
{
    if c == '0' {
        Some(0)
    } else if c == '1' {
        Some(1)
    } else if c == '2' {
        Some(2)
    } else if c == '3' {
        Some(3)
    } else if c == '4' {
        Some(4)
    } else if c == '5' {
        Some(5)
    } else if c == '6' {
        Some(6)
    } else if c == '7' {
        Some(7)
    } else if c == '8' {
        Some(8)
    } else if c == '9' {
        Some(9)
    } else {
        None
    }
}

/// Appends the decimal encoding of `v` to `out`.
pub fn append_dec(out: &mut String, v: u64)
    ensures
        final(out)@ == old(out)@ + dec_nat(v as nat),
    decreases v,
{
    if v < 10 {
        push_char(out, digit_char_exec(v));
        assert(out@ =~= old(out)@ + dec_nat(v as nat));
    } else {
        append_dec(out, v / 10);
        push_char(out, digit_char_exec(v % 10));
        assert(out@ =~= old(out)@ + dec_nat(v as nat));
    }
}

/// Appends the decimal encoding of `x` to `out`.
pub fn append_int(out: &mut String, x: i32)
    ensures
        final(out)@ == old(out)@ + dec_int(x as int),
{
    if x < 0 {
        push_char(out, '-');
        let m: u64 = if x < -0x7fff_ffff {
            0x8000_0000u64
        } else {
            (0 - x) as u64
        };
        assert(m as nat == (-(x as int)) as nat);
        append_dec(out, m);
        assert(out@ =~= old(out)@ + dec_int(x as int));
    } else {
        append_dec(out, x as u64);
        assert(out@ =~= old(out)@ + dec_int(x as int));
    }
}

/// Reads the maximal decimal run starting at `i`, returning its value and
/// the position just past it; `None` if no digit starts there or the value
/// exceeds `max`.
pub fn scan_dec(s: &str, n: usize, i: usize, max: u64) -> (r: Option<(u64, usize)>)
    requires
        n == s@.len(),
        i <= n,
        max <= 0xffff_ffff,
    ensures
        match r {
            Some((v, j)) => parse_dec(s@, i as int, max as nat) == Some((v as nat, j as int))
                && i < j <= n,
            None => parse_dec(s@, i as int, max as nat) is None,
        },
{
    let ghost sv = s@;
    let mut j: usize = i;
    let mut acc: u64 = 0;
    let mut over: bool = false;
    loop
        invariant
            n == sv.len(),
            sv == s@,
            i <= j <= n,
            max <= 0xffff_ffff,
            forall|k: int| i <= k < j ==> is_digit(sv[k]),
            !over ==> acc as nat == digits_val(sv.subrange(i as int, j as int)) && acc <= max,
            over ==> digits_val(sv.subrange(i as int, j as int)) > max,
        ensures
            i <= j <= n,
            forall|k: int| i <= k < j ==> is_digit(sv[k]),
            !over ==> acc as nat == digits_val(sv.subrange(i as int, j as int)) && acc <= max,
            over ==> digits_val(sv.subrange(i as int, j as int)) > max,
            j == n || !is_digit(sv[j as int]),
        decreases n - j,
    {
        if j == n {
            break ;
        }
        let c = s.get_char(j);
        match digit_value(c) {
            None => {
                break ;
            },
            Some(d) => {
                proof {
                    assert(sv.subrange(i as int, j + 1).drop_last() =~= sv.subrange(
                        i as int,
                        j as int,
                    ));
                    assert(sv.subrange(i as int, j + 1).last() == sv[j as int]);
                }
                if !over {
                    let acc2 = acc * 10 + d;
                    if acc2 > max {
                        over = true;
                    } else {
                        acc = acc2;
                    }
                } else {
                    proof {
                        let prev = digits_val(sv.subrange(i as int, j as int));
                        assert(prev * 10 + digit_val(sv[j as int]) > max);
                    }
                }
                j = j + 1;
            },
        }
    }
    proof {
        lemma_digit_run_end_of(sv, i as int, j as int);
    }
    if j == i {
        None
    } else if over {
        None
    } else {
        Some((acc, j))
    }
}

/// Reads a possibly signed decimal number at `i`, within the range of `i32`.
pub fn scan_int(s: &str, n: usize, i: usize) -> (r: Option<(i32, usize)>)
    requires
        n == s@.len(),
        i <= n,
    ensures
        match r {
            Some((v, j)) => parse_i32(s@, i as int) == Some((v as int, j as int)) && i < j <= n,
            None => parse_i32(s@, i as int) is None,
        },
{
    if i < n && s.get_char(i) == '-' {
        match scan_dec(s, n, i + 1, 0x8000_0000) {
            Some((v, j)) => {
                let r: i32 = if v >= 0x8000_0000 {
                    -0x7fff_ffff - 1
                } else {
                    0 - (v as i32)
                };
                Some((r, j))
            },
            None => None,
        }
    } else {
        match scan_dec(s, n, i, 0x7fff_ffff) {
            Some((v, j)) => Some((v as i32, j)),
            None => None,
        }
    }
}

} // verus!
