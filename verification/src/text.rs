//! Characters, decimal digits, and decimal renderings of numbers.
//!
//! The persistence format and the display output both write numbers in
//! decimal, most significant digit first; the specification functions
//! here give that rendering a mathematical form and prove the facts the
//! parser's round-trip proof needs.

use vstd::prelude::*;

verus! {

/// Characters the persistence format treats as blank space: the
/// Unicode White_Space set, the same characters `str::trim` removes.
pub open spec fn is_space(c: char) -> bool {
    ||| 9 <= c as u32 && c as u32 <= 13
    ||| c as u32 == 32
    ||| c as u32 == 0x85
    ||| c as u32 == 0xA0
    ||| c as u32 == 0x1680
    ||| 0x2000 <= c as u32 && c as u32 <= 0x200A
    ||| c as u32 == 0x2028
    ||| c as u32 == 0x2029
    ||| c as u32 == 0x202F
    ||| c as u32 == 0x205F
    ||| c as u32 == 0x3000
}

/// Decimal digit characters `'0'` through `'9'`.
pub open spec fn is_digit(c: char) -> bool {
    48 <= c as u32 && c as u32 <= 57
}

/// Numeric value of a decimal digit character.
pub open spec fn digit_val(c: char) -> nat
    recommends
        is_digit(c),
{
    (c as u32 - 48) as nat
}

/// The decimal digit character for a value below ten.
pub open spec fn digit_char(d: nat) -> char
    recommends
        d <= 9,
{
    if d == 0 { '0' }
    else if d == 1 { '1' }
    else if d == 2 { '2' }
    else if d == 3 { '3' }
    else if d == 4 { '4' }
    else if d == 5 { '5' }
    else if d == 6 { '6' }
    else if d == 7 { '7' }
    else if d == 8 { '8' }
    else { '9' }
}

/// Decimal digit string of a number, most significant digit first,
/// with no leading zero except for the number zero itself.
pub open spec fn dec_seq(n: nat) -> Seq<char>
    decreases n,
{
    if n < 10 {
        seq![digit_char(n)]
    } else {
        dec_seq(n / 10).push(digit_char(n % 10))
    }
}

pub open spec fn all_digits(ds: Seq<char>) -> bool {
    forall|i: int| 0 <= i < ds.len() ==> is_digit(#[trigger] ds[i])
}

pub open spec fn pow10(k: nat) -> int
    decreases k,
{
    if k == 0 { 1 } else { 10 * pow10((k - 1) as nat) }
}

/// Value of a digit string, most significant digit first.
pub open spec fn ds_val(ds: Seq<char>) -> int
    decreases ds.len(),
{
    if ds.len() == 0 {
        0
    } else {
        digit_val(ds[0]) * pow10((ds.len() - 1) as nat) + ds_val(ds.drop_first())
    }
}

pub proof fn lemma_pow10_pos(k: nat)
    ensures
        pow10(k) >= 1,
    decreases k,
{
    if k > 0 {
        lemma_pow10_pos((k - 1) as nat);
    }
}

pub proof fn lemma_digit_roundtrip(d: nat)
    requires
        d <= 9,
    ensures
        is_digit(digit_char(d)),
        digit_val(digit_char(d)) == d,
{
}

pub proof fn lemma_ds_val_nonneg(ds: Seq<char>)
    ensures
        ds_val(ds) >= 0,
    decreases ds.len(),
{
    if ds.len() > 0 {
        lemma_ds_val_nonneg(ds.drop_first());
        lemma_pow10_pos((ds.len() - 1) as nat);
        assert(digit_val(ds[0]) * pow10((ds.len() - 1) as nat) >= 0) by (nonlinear_arith)
            requires
                pow10((ds.len() - 1) as nat) >= 1,
        ;
    }
}

/// Appending a digit at the low end multiplies the value by ten.
pub proof fn lemma_ds_val_push(ds: Seq<char>, c: char)
    ensures
        ds_val(ds.push(c)) == ds_val(ds) * 10 + digit_val(c),
    decreases ds.len(),
{
    let e = ds.push(c);
    assert(e.len() == ds.len() + 1);
    if ds.len() == 0 {
        assert(e.drop_first() =~= Seq::<char>::empty());
        assert(ds_val(e.drop_first()) == 0);
        assert(ds_val(e) == digit_val(c) * pow10(0) + 0);
    } else {
        assert(e.drop_first() =~= ds.drop_first().push(c));
        lemma_ds_val_push(ds.drop_first(), c);
        let k = (ds.len() - 1) as nat;
        assert(e[0] == ds[0]);
        assert((e.len() - 1) as nat == ds.len() as nat);
        assert(ds_val(e) == digit_val(ds[0]) * pow10(ds.len() as nat) + ds_val(e.drop_first()));
        assert(ds_val(e.drop_first()) == ds_val(ds.drop_first()) * 10 + digit_val(c));
        assert(ds_val(ds) == digit_val(ds[0]) * pow10(k) + ds_val(ds.drop_first()));
        assert(pow10(ds.len() as nat) == 10 * pow10(k));
        assert(digit_val(ds[0]) * pow10(ds.len() as nat) == (digit_val(ds[0]) * pow10(k)) * 10)
            by (nonlinear_arith)
            requires
                pow10(ds.len() as nat) == 10 * pow10(k),
        ;
    }
}

/// The decimal rendering of `n` is a nonempty digit string whose value is `n`.
pub proof fn lemma_dec_seq_val(n: nat)
    ensures
        all_digits(dec_seq(n)),
        dec_seq(n).len() >= 1,
        ds_val(dec_seq(n)) == n,
    decreases n,
{
    if n < 10 {
        lemma_digit_roundtrip(n);
        assert(dec_seq(n) == seq![digit_char(n)]);
        assert(dec_seq(n).drop_first() =~= Seq::<char>::empty());
        assert(ds_val(dec_seq(n).drop_first()) == 0);
        assert(dec_seq(n)[0] == digit_char(n));
        assert(ds_val(dec_seq(n)) == digit_val(digit_char(n)) * pow10(0) + 0);
    } else {
        lemma_dec_seq_val(n / 10);
        lemma_digit_roundtrip(n % 10);
        lemma_ds_val_push(dec_seq(n / 10), digit_char(n % 10));
        assert(dec_seq(n) == dec_seq(n / 10).push(digit_char(n % 10)));
        assert(ds_val(dec_seq(n)) == (n / 10) * 10 + (n % 10));
        vstd::arithmetic::div_mod::lemma_fundamental_div_mod(n as int, 10);
        assert(forall|i: int| 0 <= i < dec_seq(n).len() ==> is_digit(#[trigger] dec_seq(n)[i]));
    }
}

/// Relies on `String::push`: appends the given character to the end of
/// the string.
#[verifier::external_body]
pub fn push_char(s: &mut String, c: char)
    ensures
        final(s)@ == old(s)@.push(c),
{
    s.push(c);
}

pub fn digit_char_x(d: u32) -> (c: char)
    requires
        d <= 9,
    ensures
        c == digit_char(d as nat),
{
    if d == 0 { '0' }
    else if d == 1 { '1' }
    else if d == 2 { '2' }
    else if d == 3 { '3' }
    else if d == 4 { '4' }
    else if d == 5 { '5' }
    else if d == 6 { '6' }
    else if d == 7 { '7' }
    else if d == 8 { '8' }
    else { '9' }
}

pub fn is_digit_x(c: char) -> (r: bool)
    ensures
        r == is_digit(c),
{
    let u: u32 = c as u32;
    48 <= u && u <= 57
}

pub fn digit_val_x(c: char) -> (r: u32)
    requires
        is_digit(c),
    ensures
        r == digit_val(c),
        r <= 9,
{
    c as u32 - 48
}

pub fn is_space_x(c: char) -> (r: bool)
    ensures
        r == is_space(c),
{
    let u: u32 = c as u32;
    (9 <= u && u <= 13) || u == 32 || u == 0x85 || u == 0xA0 || u == 0x1680
        || (0x2000 <= u && u <= 0x200A) || u == 0x2028 || u == 0x2029 || u == 0x202F
        || u == 0x205F || u == 0x3000
}

/// Appends the decimal rendering of `n`.
pub fn append_u32(out: &mut String, n: u32)
    ensures
        final(out)@ == old(out)@ + dec_seq(n as nat),
    decreases n,
{
    if n < 10 {
        let c = digit_char_x(n);
        push_char(out, c);
        assert(old(out)@.push(c) =~= old(out)@ + dec_seq(n as nat));
    } else {
        append_u32(out, n / 10);
        let c = digit_char_x(n % 10);
        push_char(out, c);
        assert((n / 10) as nat == (n as nat) / 10);
        assert((n % 10) as nat == (n as nat) % 10);
        assert((old(out)@ + dec_seq((n as nat) / 10)).push(c) =~= old(out)@ + dec_seq(n as nat));
    }
}

} // verus!
