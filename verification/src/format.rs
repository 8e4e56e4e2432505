//! Decimal rendering for the one-line city summary.

use vstd::prelude::*;

verus! {

/// The character of one decimal digit.
pub open spec fn digit_char(d: nat) -> char {
    (48 + d) as char
}

/// Decimal numeral of `n`, most significant digit first.
pub open spec fn dec_digits(n: nat) -> Seq<char>
    decreases n,
{
    if n < 10 {
        seq![digit_char(n)]
    } else {
        dec_digits(n / 10).push(digit_char(n % 10))
    }
}

/// Decimal numeral of `n` padded with leading zeros to exactly `width`
/// digits; digits beyond `width` are cut.
pub open spec fn pad_digits(n: nat, width: nat) -> Seq<char>
    decreases width,
{
    if width == 0 {
        Seq::<char>::empty()
    } else {
        pad_digits(n / 10, (width - 1) as nat).push(digit_char(n % 10))
    }
}

/// `k` spaces.
pub open spec fn spaces(k: nat) -> Seq<char>
    decreases k,
{
    if k == 0 {
        Seq::<char>::empty()
    } else {
        spaces((k - 1) as nat).push(' ')
    }
}

/// The one-character numeral of a single digit.
fn digit_str(d: u64) -> (r: &'static str)
    requires
        d < 10,
    ensures
        r@ == seq![digit_char(d as nat)],
{
    proof {
        reveal_strlit("0");
        reveal_strlit("1");
        reveal_strlit("2");
        reveal_strlit("3");
        reveal_strlit("4");
        reveal_strlit("5");
        reveal_strlit("6");
        reveal_strlit("7");
        reveal_strlit("8");
        reveal_strlit("9");
    }
    if d == 0 {
        "0"
    } else if d == 1 {
        "1"
    } else if d == 2 {
        "2"
    } else if d == 3 {
        "3"
    } else if d == 4 {
        "4"
    } else if d == 5 {
        "5"
    } else if d == 6 {
        "6"
    } else if d == 7 {
        "7"
    } else if d == 8 {
        "8"
    } else {
        "9"
    }
}

/// Renders an unsigned number in decimal.
pub fn u64_to_string(n: u64) -> (r: String)
    ensures
        r@ == dec_digits(n as nat),
    decreases n,
{
    if n < 10 {
        digit_str(n).to_owned()
    } else {
        let mut r = u64_to_string(n / 10);
        r.append(digit_str(n % 10));
        proof {
            assert(r@ =~= dec_digits(n as nat));
        }
        r
    }
}

/// Renders a number zero-padded to a fixed digit count.
pub fn padded_to_string(n: u64, width: u64) -> (r: String)
    ensures
        r@ == pad_digits(n as nat, width as nat),
    decreases width,
{
    if width == 0 {
        String::new()
    } else {
        let mut r = padded_to_string(n / 10, width - 1);
        r.append(digit_str(n % 10));
        proof {
            assert(r@ =~= pad_digits(n as nat, width as nat));
        }
        r
    }
}

/// `k` spaces, as a string.
pub fn spaces_string(k: usize) -> (r: String)
    ensures
        r@ == spaces(k as nat),
    decreases k,
{
    if k == 0 {
        String::new()
    } else {
        let mut r = spaces_string(k - 1);
        proof {
            reveal_strlit(" ");
            assert(" "@ =~= seq![' ']);
        }
        r.append(" ");
        proof {
            assert(r@ =~= spaces(k as nat));
        }
        r
    }
}

/// Decimal rendering of a signed microdegree coordinate: an optional minus
/// sign, the whole degrees, a point, and six fraction digits.
pub open spec fn micro_chars(m: int) -> Seq<char> {
    if m < 0 {
        seq!['-'] + micro_chars_mag((-m) as nat)
    } else {
        micro_chars_mag(m as nat)
    }
}

/// Rendering of a coordinate magnitude in microdegrees.
pub open spec fn micro_chars_mag(u: nat) -> Seq<char> {
    dec_digits(u / 1000000) + seq!['.'] + pad_digits(u % 1000000, 6)
}

/// Renders a coordinate magnitude held in microdegrees.
fn micro_mag_to_string(mag: u64) -> (r: String)
    ensures
        r@ == micro_chars_mag(mag as nat),
{
    let mut r = u64_to_string(mag / 1000000);
    proof {
        reveal_strlit(".");
        assert("."@ =~= seq!['.']);
    }
    r.append(".");
    let frac = padded_to_string(mag % 1000000, 6);
    r.append(frac.as_str());
    proof {
        assert(r@ =~= micro_chars_mag(mag as nat));
    }
    r
}

/// Renders a signed microdegree coordinate.
pub fn micro_to_string(m: i64) -> (r: String)
    ensures
        r@ == micro_chars(m as int),
{
    if m >= 0 {
        micro_mag_to_string(m as u64)
    } else {
        let mag: u64 = if m == i64::MIN {
            9223372036854775808u64
        } else {
            (-m) as u64
        };
        proof {
            reveal_strlit("-");
            assert("-"@ =~= seq!['-']);
        }
        let mut r = "-".to_owned();
        let body = micro_mag_to_string(mag);
        r.append(body.as_str());
        proof {
            assert(r@ =~= micro_chars(m as int));
        }
        r
    }
}

} // verus!
