//! Character-level text utilities: ASCII case folding, splitting on a
//! separator character, and decimal parsing and formatting.

use vstd::prelude::*;

verus! {

/// Case-folds one character: ASCII uppercase letters map to their lowercase
/// counterpart, every other character is unchanged.
pub open spec fn lower_char(c: char) -> char {
    if 'A' <= c && c <= 'Z' {
        ((c as u32) + 32) as char
    } else {
        c
    }
}

/// Case-folds a character sequence, element by element.
pub open spec fn lower_seq(s: Seq<char>) -> Seq<char> {
    s.map_values(|c: char| lower_char(c))
}

/// ASCII case-fold of one character.
pub fn lower(c: char) -> (r: char)
    ensures
        r == lower_char(c),
{
    let u = c as u32;
    if 65 <= u && u <= 90 {
        ((u + 32) as u8) as char
    } else {
        c
    }
}

/// Index of the first occurrence of `sep` in `s`, or `s.len()` if `sep`
/// does not occur.
pub open spec fn find_sep(s: Seq<char>, sep: char) -> int
    decreases s.len(),
{
    if s.len() == 0 {
        0
    } else if s[0] == sep {
        0
    } else {
        1 + find_sep(s.drop_first(), sep)
    }
}

pub proof fn lemma_find_sep_bounds(s: Seq<char>, sep: char)
    ensures
        0 <= find_sep(s, sep) <= s.len(),
        find_sep(s, sep) < s.len() ==> s[find_sep(s, sep)] == sep,
        forall|i: int| 0 <= i < find_sep(s, sep) ==> s[i] != sep,
    decreases s.len(),
{
    if s.len() == 0 {
    } else if s[0] == sep {
    } else {
        lemma_find_sep_bounds(s.drop_first(), sep);
        assert forall|i: int| 0 <= i < find_sep(s, sep) implies s[i] != sep by {
            if i > 0 {
                assert(s.drop_first()[i - 1] != sep);
            }
        }
    }
}

/// If the first `j` characters are free of `sep` and position `j` is the end
/// of `s` or holds `sep`, then `j` is where the first `sep` stands.
pub proof fn lemma_find_sep_at(s: Seq<char>, sep: char, j: int)
    requires
        0 <= j <= s.len(),
        forall|i: int| 0 <= i < j ==> s[i] != sep,
        j < s.len() ==> s[j] == sep,
    ensures
        find_sep(s, sep) == j,
    decreases j,
{
    if j == 0 {
    } else {
        assert(s[0] != sep);
        lemma_find_sep_at(s.drop_first(), sep, j - 1);
    }
}

/// The pieces of `s` between occurrences of `sep`: one more piece than there
/// are separators, in order, none containing `sep`.
pub open spec fn split_on(s: Seq<char>, sep: char) -> Seq<Seq<char>>
    decreases s.len(),
{
    let i = find_sep(s, sep);
    if i < 0 || i >= s.len() {
        seq![s]
    } else {
        seq![s.subrange(0, i)] + split_on(s.subrange(i + 1, s.len() as int), sep)
    }
}

/// Splits `s` at every occurrence of `sep`.
pub fn split_str<'a>(s: &'a str, sep: char) -> (r: Vec<&'a str>)
    ensures
        r@.map_values(|t: &str| t@) == split_on(s@, sep),
{
    let n = s.unicode_len();
    let mut r: Vec<&'a str> = Vec::new();
    let mut start: usize = 0;
    let mut j: usize = 0;
    proof {
        lemma_find_sep_bounds(s@, sep);
        assert(s@.subrange(0, n as int) =~= s@);
        assert(r@.map_values(|t: &str| t@) =~= Seq::<Seq<char>>::empty());
        assert(Seq::<Seq<char>>::empty() + split_on(s@, sep) =~= split_on(s@, sep));
    }
    while j < n
        invariant
            n == s@.len(),
            start <= j <= n,
            forall|i: int| start <= i < j ==> s@[i] != sep,
            split_on(s@, sep) == r@.map_values(|t: &str| t@) + split_on(
                s@.subrange(start as int, n as int),
                sep,
            ),
        decreases n - j,
    {
        if s.get_char(j) == sep {
            let piece = s.substring_char(start, j);
            proof {
                let tail = s@.subrange(start as int, n as int);
                lemma_find_sep_at(tail, sep, j - start);
                assert(tail.subrange(0, j - start) =~= s@.subrange(start as int, j as int));
                assert(tail.subrange(j - start + 1, tail.len() as int) =~= s@.subrange(
                    j + 1,
                    n as int,
                ));
                assert((r@.push(piece)).map_values(|t: &str| t@) =~= r@.map_values(|t: &str| t@)
                    + seq![piece@]);
            }
            r.push(piece);
            start = j + 1;
        }
        j += 1;
    }
    let piece = s.substring_char(start, n);
    proof {
        let tail = s@.subrange(start as int, n as int);
        lemma_find_sep_at(tail, sep, n - start);
        assert(tail =~= piece@);
        assert((r@.push(piece)).map_values(|t: &str| t@) =~= r@.map_values(|t: &str| t@)
            + seq![piece@]);
        assert(r@.map_values(|t: &str| t@) + seq![piece@] =~= (r@.push(piece)).map_values(
            |t: &str| t@,
        ));
    }
    r.push(piece);
    r
}

pub open spec fn is_digit(c: char) -> bool {
    '0' <= c && c <= '9'
}

pub open spec fn digit_val(c: char) -> nat {
    (c as int - '0' as int) as nat
}

pub open spec fn all_digits(s: Seq<char>) -> bool {
    forall|i: int| 0 <= i < s.len() ==> is_digit(#[trigger] s[i])
}

/// Value of a digit sequence read as a base-ten numeral.
pub open spec fn digits_val(s: Seq<char>) -> nat
    decreases s.len(),
{
    if s.len() == 0 {
        0
    } else {
        digits_val(s.drop_last()) * 10 + digit_val(s.last())
    }
}

/// A numeral's value never shrinks when digits are appended.
pub proof fn lemma_digits_val_take_le(s: Seq<char>, j: int)
    requires
        0 <= j <= s.len(),
    ensures
        digits_val(s.take(j)) <= digits_val(s),
    decreases s.len() - j,
{
    if j < s.len() {
        lemma_digits_val_take_le(s.drop_last(), j);
        assert(s.drop_last().take(j) =~= s.take(j));
    } else {
        assert(s.take(j) =~= s);
    }
}

/// The whole string as an unsigned base-ten numeral: defined exactly when the
/// string is nonempty, all digits, and its value fits in a `u64`.
pub open spec fn parse_u64_spec(s: Seq<char>) -> Option<u64> {
    if s.len() > 0 && all_digits(s) && digits_val(s) <= u64::MAX {
        Some(digits_val(s) as u64)
    } else {
        None
    }
}

/// Reads `s` as an unsigned base-ten numeral.
pub fn parse_u64(s: &str) -> (r: Option<u64>)
    ensures
        r == parse_u64_spec(s@),
{
    let n = s.unicode_len();
    if n == 0 {
        return None;
    }
    let mut acc: u64 = 0;
    let mut j: usize = 0;
    while j < n
        invariant
            n == s@.len(),
            0 < n,
            0 <= j <= n,
            all_digits(s@.take(j as int)),
            acc == digits_val(s@.take(j as int)),
        decreases n - j,
    {
        let c = s.get_char(j);
        let u = c as u32;
        if u < 48 || u > 57 {
            return None;
        }
        let d: u64 = (u - 48) as u64;
        if acc > (u64::MAX - d) / 10 {
            proof {
                assert(s@.take(j + 1).drop_last() =~= s@.take(j as int));
                assert(digits_val(s@.take(j + 1)) > u64::MAX);
                lemma_digits_val_take_le(s@, j + 1);
            }
            return None;
        }
        proof {
            assert(s@.take(j + 1).drop_last() =~= s@.take(j as int));
            assert(acc * 10 + d <= u64::MAX) by (nonlinear_arith)
                requires
                    acc <= (u64::MAX - d) / 10,
                    d <= 9,
            ;
        }
        acc = acc * 10 + d;
        j += 1;
    }
    proof {
        assert(s@.take(n as int) =~= s@);
    }
    Some(acc)
}

pub open spec fn pow10(k: nat) -> nat
    decreases k,
{
    if k == 0 {
        1
    } else {
        10 * pow10((k - 1) as nat)
    }
}

/// A string of digits reads as a value below ten to the number of digits.
pub proof fn lemma_digits_val_bound(s: Seq<char>)
    requires
        all_digits(s),
    ensures
        digits_val(s) < pow10(s.len()),
    decreases s.len(),
{
    if s.len() == 0 {
    } else {
        assert(all_digits(s.drop_last()));
        lemma_digits_val_bound(s.drop_last());
        assert(is_digit(s.last()));
        assert(digits_val(s.drop_last()) * 10 + digit_val(s.last()) < pow10(s.len()))
            by (nonlinear_arith)
            requires
                digits_val(s.drop_last()) < pow10((s.len() - 1) as nat),
                digit_val(s.last()) <= 9,
                pow10(s.len()) == 10 * pow10((s.len() - 1) as nat),
        ;
    }
}

/// Fraction digits scaled to six decimal places (microdegree units); digits
/// beyond the sixth are discarded.
pub open spec fn frac_micro(s: Seq<char>) -> nat {
    if s.len() >= 6 {
        digits_val(s.take(6))
    } else if s.len() == 5 {
        digits_val(s) * 10
    } else if s.len() == 4 {
        digits_val(s) * 100
    } else if s.len() == 3 {
        digits_val(s) * 1000
    } else if s.len() == 2 {
        digits_val(s) * 10000
    } else if s.len() == 1 {
        digits_val(s) * 100000
    } else {
        0
    }
}

/// An unsigned decimal numeral, with an optional fraction part, read as a
/// count of microdegrees (millionths): `digits` or `digits.digits`.
pub open spec fn unsigned_micro(s: Seq<char>) -> Option<int> {
    let dot = find_sep(s, '.');
    if !(0 <= dot < s.len()) {
        if s.len() > 0 && all_digits(s) {
            Some((digits_val(s) * 1000000) as int)
        } else {
            None
        }
    } else {
        let ip = s.subrange(0, dot);
        let fp = s.subrange(dot + 1, s.len() as int);
        if ip.len() > 0 && fp.len() > 0 && all_digits(ip) && all_digits(fp) {
            Some((digits_val(ip) * 1000000 + frac_micro(fp)) as int)
        } else {
            None
        }
    }
}

/// A signed decimal coordinate read as microdegrees: `-?digits(.digits)?`,
/// `None` when malformed or when the magnitude exceeds `i64::MAX` millionths.
pub open spec fn coord_micro(s: Seq<char>) -> Option<i64> {
    if s.len() > 0 && s[0] == '-' {
        match unsigned_micro(s.drop_first()) {
            Some(m) => if m <= i64::MAX {
                Some((-m) as i64)
            } else {
                None
            },
            None => None,
        }
    } else {
        match unsigned_micro(s) {
            Some(m) => if m <= i64::MAX {
                Some(m as i64)
            } else {
                None
            },
            None => None,
        }
    }
}

/// Position of the first occurrence of `sep`, or the length when absent.
pub fn find_char(s: &str, sep: char) -> (i: usize)
    ensures
        i as int == find_sep(s@, sep),
{
    let n = s.unicode_len();
    let mut j: usize = 0;
    while j < n
        invariant
            n == s@.len(),
            0 <= j <= n,
            forall|i: int| 0 <= i < j ==> s@[i] != sep,
        decreases n - j,
    {
        if s.get_char(j) == sep {
            proof {
                lemma_find_sep_at(s@, sep, j as int);
            }
            return j;
        }
        j += 1;
    }
    proof {
        lemma_find_sep_at(s@, sep, n as int);
    }
    n
}

/// Reads a fraction field (the digits after a decimal point) as microdegree
/// units.
fn parse_frac(s: &str) -> (r: Option<u64>)
    ensures
        r == (if s@.len() > 0 && all_digits(s@) {
            Some(frac_micro(s@) as u64)
        } else {
            None::<u64>
        }),
        r is Some ==> frac_micro(s@) < 1000000,
{
    let n = s.unicode_len();
    if n == 0 {
        return None;
    }
    let k: usize = if n < 6 {
        n
    } else {
        6
    };
    let mut acc: u64 = 0;
    let mut j: usize = 0;
    while j < n
        invariant
            n == s@.len(),
            0 < n,
            k == if n < 6 {
                n as int
            } else {
                6
            },
            0 <= j <= n,
            all_digits(s@.take(j as int)),
            acc == digits_val(s@.take(if j <= k {
                j as int
            } else {
                k as int
            })),
            acc < 1000000,
        decreases n - j,
    {
        let c = s.get_char(j);
        let u = c as u32;
        if u < 48 || u > 57 {
            return None;
        }
        proof {
            assert(s@.take(j + 1).drop_last() =~= s@.take(j as int));
            if j < k {
                lemma_digits_val_bound(s@.take(j as int));
                assert(pow10(0) == 1 && pow10(1) == 10 && pow10(2) == 100 && pow10(3) == 1000
                    && pow10(4) == 10000 && pow10(5) == 100000) by {
                    reveal_with_fuel(pow10, 6);
                }
                assert(digits_val(s@.take(j as int)) < 100000);
            } else {
                assert(s@.take(if j + 1 <= k {
                    j + 1
                } else {
                    k as int
                }) =~= s@.take(k as int));
            }
        }
        if j < k {
            acc = acc * 10 + ((u - 48) as u64);
        }
        j += 1;
    }
    proof {
        assert(s@.take(n as int) =~= s@);
        if n >= 6 {
            assert(s@.take(k as int) =~= s@.take(6));
        } else {
            assert(s@.take(k as int) =~= s@);
            lemma_digits_val_bound(s@);
            assert(pow10(5) == 100000 && pow10(4) == 10000 && pow10(3) == 1000 && pow10(2) == 100
                && pow10(1) == 10) by {
                reveal_with_fuel(pow10, 6);
            }
        }
    }
    if n >= 6 {
        Some(acc)
    } else if n == 5 {
        Some(acc * 10)
    } else if n == 4 {
        Some(acc * 100)
    } else if n == 3 {
        Some(acc * 1000)
    } else if n == 2 {
        Some(acc * 10000)
    } else {
        Some(acc * 100000)
    }
}

/// Reads an unsigned decimal numeral with optional fraction as microdegrees,
/// capped at `i64::MAX`.
fn parse_unsigned_micro(s: &str) -> (r: Option<u64>)
    ensures
        r == (match unsigned_micro(s@) {
            Some(m) => if m <= i64::MAX {
                Some(m as u64)
            } else {
                None::<u64>
            },
            None => None::<u64>,
        }),
{
    let n = s.unicode_len();
    let dot = find_char(s, '.');
    proof {
        lemma_find_sep_bounds(s@, '.');
    }
    if dot == n {
        match parse_u64(s) {
            None => {
                proof {
                    if s@.len() > 0 && all_digits(s@) {
                        assert(digits_val(s@) > u64::MAX);
                        assert(digits_val(s@) * 1000000 > i64::MAX) by (nonlinear_arith)
                            requires
                                digits_val(s@) > u64::MAX,
                        ;
                    }
                }
                None
            },
            Some(v) => {
                if (v as u128) * 1000000 <= i64::MAX as u128 {
                    Some(v * 1000000)
                } else {
                    None
                }
            },
        }
    } else {
        let ip = s.substring_char(0, dot);
        let fp = s.substring_char(dot + 1, n);
        let iv = parse_u64(ip);
        let fv = parse_frac(fp);
        proof {
            assert(ip@ =~= s@.subrange(0, dot as int));
            assert(fp@ =~= s@.subrange(dot + 1, n as int));
        }
        match (iv, fv) {
            (Some(a), Some(b)) => {
                if (a as u128) * 1000000 + (b as u128) <= i64::MAX as u128 {
                    Some(a * 1000000 + b)
                } else {
                    None
                }
            },
            _ => {
                proof {
                    let ips = s@.subrange(0, dot as int);
                    let fps = s@.subrange(dot + 1, n as int);
                    if ips.len() > 0 && fps.len() > 0 && all_digits(ips) && all_digits(fps) {
                        assert(digits_val(ips) > u64::MAX);
                        assert(digits_val(ips) * 1000000 > i64::MAX) by (nonlinear_arith)
                            requires
                                digits_val(ips) > u64::MAX,
                        ;
                    }
                }
                None
            },
        }
    }
}

/// Reads a signed decimal coordinate as microdegrees.
pub fn parse_coord(s: &str) -> (r: Option<i64>)
    ensures
        r == coord_micro(s@),
{
    let n = s.unicode_len();
    if n == 0 {
        return None;
    }
    if s.get_char(0) == '-' {
        let body = s.substring_char(1, n);
        proof {
            assert(body@ =~= s@.drop_first());
        }
        match parse_unsigned_micro(body) {
            Some(m) => Some(-(m as i64)),
            None => None,
        }
    } else {
        match parse_unsigned_micro(s) {
            Some(m) => Some(m as i64),
            None => None,
        }
    }
}

} // verus!
