//! Decimal rendering of integers, used when emitting MML commands such as
//! tempo (`T120`), octave (`O4`) and length (`L8`) tokens.

use vstd::prelude::*;

verus! {

/// The character for a single decimal digit value.
pub open spec fn dec_digit_char(d: int) -> char {
    ((d + 48) as u8) as char
}

/// The decimal digits of a non-negative integer, most significant first.
pub open spec fn dec_chars(n: int) -> Seq<char>
    recommends
        n >= 0,
    decreases n,
{
    if n < 10 {
        seq![dec_digit_char(n)]
    } else {
        dec_chars(n / 10).push(dec_digit_char(n % 10))
    }
}

/// The decimal rendering of a possibly negative integer.
pub open spec fn dec_chars_signed(n: int) -> Seq<char> {
    if n < 0 {
        seq!['-'] + dec_chars(-n)
    } else {
        dec_chars(n)
    }
}

fn digit_str(d: u8) -> (s: &'static str)
    requires
        d < 10,
    ensures
        s@ =~= seq![dec_digit_char(d as int)],
{
    proof {
        reveal_strlit("0");
        reveal_strlit("1");
        reveal_strlit("2");
        reveal_strlit("3");
        reveal_strlit("4");
        reveal_strlit("5");
        reveal_strlit("6");
        reveal_strlit("7");
        reveal_strlit("8");
        reveal_strlit("9");
    }
    match d {
        0 => "0",
        1 => "1",
        2 => "2",
        3 => "3",
        4 => "4",
        5 => "5",
        6 => "6",
        7 => "7",
        8 => "8",
        _ => "9",
    }
}

/// Renders `n` in decimal.
pub fn u64_to_dec(n: u64) -> (s: String)
    ensures
        s@ == dec_chars(n as int),
{
    let ghost target = dec_chars(n as int);
    let mut digits: Vec<u8> = Vec::new();
    let mut m: u64 = n;
    loop
        invariant_except_break
            digits@.len() > 0 ==> m > 0,
        invariant
            target == dec_chars(n as int),
            forall|j: int| 0 <= j < digits@.len() ==> #[trigger] digits@[j] < 10,
            m <= n,
            digits@.len() == 0 ==> m == n,
            digits@.len() > 0 && m > 0 ==> target =~= dec_chars(m as int) + Seq::new(
                digits@.len(),
                |j: int| dec_digit_char(digits@[digits@.len() - 1 - j] as int),
            ),
        ensures
            digits@.len() > 0,
            target =~= Seq::new(
                digits@.len(),
                |j: int| dec_digit_char(digits@[digits@.len() - 1 - j] as int),
            ),
        decreases m,
    {
        let ghost old_digits = digits@;
        let ghost old_m = m as int;
        let d: u8 = (m % 10) as u8;
        digits.push(d);
        m = m / 10;
        proof {
            let old_rev = Seq::new(
                old_digits.len(),
                |j: int| dec_digit_char(old_digits[old_digits.len() - 1 - j] as int),
            );
            let new_rev = Seq::new(
                digits@.len(),
                |j: int| dec_digit_char(digits@[digits@.len() - 1 - j] as int),
            );
            assert(new_rev =~= seq![dec_digit_char(old_m % 10)] + old_rev);
            if old_digits.len() == 0 {
                if old_m < 10 {
                    assert(target =~= new_rev);
                } else {
                    assert(dec_chars(old_m) =~= dec_chars(old_m / 10) + seq![
                        dec_digit_char(old_m % 10),
                    ]);
                    assert(target =~= dec_chars(m as int) + new_rev);
                }
            } else {
                if old_m >= 10 {
                    assert(dec_chars(old_m) =~= dec_chars(old_m / 10) + seq![
                        dec_digit_char(old_m % 10),
                    ]);
                    if old_m / 10 > 0 {
                        assert(target =~= dec_chars(m as int) + new_rev);
                    }
                } else if old_m > 0 {
                    assert(dec_chars(old_m) =~= seq![dec_digit_char(old_m % 10)]);
                    assert(target =~= new_rev);
                }
            }
        }
        if m == 0 {
            break;
        }
    }
    let ghost rev = Seq::new(
        digits@.len(),
        |j: int| dec_digit_char(digits@[digits@.len() - 1 - j] as int),
    );
    let mut s = String::new();
    let mut i: usize = digits.len();
    while i > 0
        invariant
            i <= digits@.len(),
            forall|j: int| 0 <= j < digits@.len() ==> #[trigger] digits@[j] < 10,
            target =~= rev,
            rev == Seq::new(
                digits@.len(),
                |j: int| dec_digit_char(digits@[digits@.len() - 1 - j] as int),
            ),
            s@ =~= rev.take(digits@.len() - i),
        decreases i,
    {
        i = i - 1;
        let d = digits[i];
        proof {
            assert(d < 10);
            assert(rev[digits@.len() - 1 - i] == dec_digit_char(d as int));
        }
        s.append(digit_str(d));
        proof {
            assert(s@ =~= rev.take(digits@.len() - i));
        }
    }
    proof {
        assert(s@ =~= rev);
    }
    s
}

/// Renders `n` in decimal.
pub fn u32_to_dec(n: u32) -> (s: String)
    ensures
        s@ == dec_chars(n as int),
{
    u64_to_dec(n as u64)
}

/// Renders `n` in decimal with a leading minus sign when negative.
pub fn i32_to_dec(n: i32) -> (s: String)
    ensures
        s@ == dec_chars_signed(n as int),
{
    if n < 0 {
        let mag: u64 = (-(n as i64)) as u64;
        let mut s = String::new();
        proof {
            reveal_strlit("-");
        }
        s.append("-");
        let tail = u64_to_dec(mag);
        s.append(tail.as_str());
        proof {
            assert(s@ =~= seq!['-'] + dec_chars(mag as int));
        }
        s
    } else {
        u64_to_dec(n as u64)
    }
}

} // verus!
