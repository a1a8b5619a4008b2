//! Decimal rendering and parsing of unsigned integers, with a proved
//! round trip between the two.

use vstd::prelude::*;
use crate::text::{find_char, lemma_spec_find_at, lemma_spec_find_none, spec_find};

verus! {

/// `c` is a decimal digit.
pub open spec fn is_digit(c: char) -> bool {
    48 <= c as u32 <= 57
}

/// Numeric value of a digit character.
pub open spec fn digit_val(c: char) -> nat
    recommends
        is_digit(c),
{
    (c as u32 - 48) as nat
}

/// The digit character for a value below ten.
pub open spec fn digit_char(d: nat) -> char
    recommends
        d < 10,
{
    if d == 0 {
        '0'
    } else if d == 1 {
        '1'
    } else if d == 2 {
        '2'
    } else if d == 3 {
        '3'
    } else if d == 4 {
        '4'
    } else if d == 5 {
        '5'
    } else if d == 6 {
        '6'
    } else if d == 7 {
        '7'
    } else if d == 8 {
        '8'
    } else {
        '9'
    }
}

/// Every character of `s` is a decimal digit.
pub open spec fn all_digits(s: Seq<char>) -> bool {
    forall|i: int| 0 <= i < s.len() ==> is_digit(#[trigger] s[i])
}

/// The number denoted by a sequence of digit characters.
pub open spec fn digits_val(s: Seq<char>) -> nat
    decreases s.len(),
{
    if s.len() == 0 {
        0
    } else {
        digits_val(s.drop_last()) * 10 + digit_val(s.last())
    }
}

/// The canonical decimal rendering of `n`: no sign, no leading zero
/// except for zero itself.
pub open spec fn spec_u64_chars(n: nat) -> Seq<char>
    decreases n,
{
    if n < 10 {
        seq![digit_char(n)]
    } else {
        spec_u64_chars(n / 10).push(digit_char(n % 10))
    }
}

/// What `parse_u64` returns: the denoted number, for a nonempty string of
/// digits whose value fits in a `u64`; `None` otherwise.
pub open spec fn spec_parse_u64(s: Seq<char>) -> Option<u64> {
    if s.len() > 0 && all_digits(s) && digits_val(s) <= u64::MAX {
        Some(digits_val(s) as u64)
    } else {
        None
    }
}

/// The canonical rendering of `n` is a nonempty digit string denoting `n`.
pub proof fn lemma_u64_chars_val(n: nat)
    ensures
        spec_u64_chars(n).len() >= 1,
        all_digits(spec_u64_chars(n)),
        digits_val(spec_u64_chars(n)) == n,
    decreases n,
{
    if n < 10 {
        assert(digits_val(seq![digit_char(n)]) == digits_val(
            seq![digit_char(n)].drop_last(),
        ) * 10 + digit_val(digit_char(n)));
        assert(seq![digit_char(n)].drop_last() =~= Seq::<char>::empty());
    } else {
        lemma_u64_chars_val(n / 10);
        let p = spec_u64_chars(n / 10);
        let w = p.push(digit_char(n % 10));
        assert(w.drop_last() =~= p);
        assert(digits_val(w) == digits_val(p) * 10 + digit_val(digit_char(n % 10)));
        assert(forall|i: int|
            0 <= i < w.len() ==> is_digit(#[trigger] w[i]) == if i < p.len() {
                is_digit(p[i])
            } else {
                is_digit(digit_char(n % 10))
            });
    }
}

/// Rendering then parsing gives the number back.
pub proof fn lemma_u64_round_trip(n: u64)
    ensures
        spec_parse_u64(spec_u64_chars(n as nat)) == Some(n),
{
    lemma_u64_chars_val(n as nat);
}

/// The value denoted by a prefix never exceeds the value of a longer prefix.
pub proof fn lemma_digits_val_mono(s: Seq<char>, i: int, j: int)
    requires
        0 <= i <= j <= s.len(),
    ensures
        digits_val(s.take(i)) <= digits_val(s.take(j)),
    decreases j - i,
{
    if i < j {
        lemma_digits_val_mono(s, i, j - 1);
        let t = s.take(j);
        assert(t.drop_last() =~= s.take(j - 1));
        assert(digits_val(s.take(j - 1)) * 10 >= digits_val(s.take(j - 1)));
    }
}

/// Digit string for a single digit value.
fn digit_str(d: u64) -> (r: &'static str)
    requires
        d < 10,
    ensures
        r@ =~= seq![digit_char(d as nat)],
{
    if d == 0 {
        proof {
            reveal_strlit("0");
        }
        "0"
    } else if d == 1 {
        proof {
            reveal_strlit("1");
        }
        "1"
    } else if d == 2 {
        proof {
            reveal_strlit("2");
        }
        "2"
    } else if d == 3 {
        proof {
            reveal_strlit("3");
        }
        "3"
    } else if d == 4 {
        proof {
            reveal_strlit("4");
        }
        "4"
    } else if d == 5 {
        proof {
            reveal_strlit("5");
        }
        "5"
    } else if d == 6 {
        proof {
            reveal_strlit("6");
        }
        "6"
    } else if d == 7 {
        proof {
            reveal_strlit("7");
        }
        "7"
    } else if d == 8 {
        proof {
            reveal_strlit("8");
        }
        "8"
    } else {
        proof {
            reveal_strlit("9");
        }
        "9"
    }
}

/// Render `n` in decimal.
pub fn u64_to_string(n: u64) -> (r: String)
    ensures
        r@ == spec_u64_chars(n as nat),
    decreases n,
{
    if n < 10 {
        digit_str(n).to_owned()
    } else {
        let mut s = u64_to_string(n / 10);
        s.append(digit_str(n % 10));
        proof {
            assert(s@ =~= spec_u64_chars(n as nat));
        }
        s
    }
}

/// Parse a nonempty string of decimal digits; `None` on any other character
/// or on a value out of range.
pub fn parse_u64(s: &str) -> (r: Option<u64>)
    ensures
        r == spec_parse_u64(s@),
{
    let n = s.unicode_len();
    if n == 0 {
        return None;
    }
    let mut acc: u64 = 0;
    let mut i: usize = 0;
    while i < n
        invariant
            i <= n,
            n == s@.len(),
            all_digits(s@.take(i as int)),
            acc == digits_val(s@.take(i as int)),
        decreases n - i,
    {
        let c = s.get_char(i);
        let v = c as u32;
        if v < 48 || v > 57 {
            assert(!is_digit(s@[i as int]));
            return None;
        }
        let d = (v - 48) as u64;
        let next = match acc.checked_mul(10) {
            Some(x) => x.checked_add(d),
            None => None,
        };
        proof {
            assert(s@.take(i + 1).drop_last() =~= s@.take(i as int));
            assert(s@.take(i + 1).last() == s@[i as int]);
            assert(digits_val(s@.take(i + 1)) == acc * 10 + d);
        }
        match next {
            Some(x) => {
                acc = x;
            },
            None => {
                proof {
                    assert(digits_val(s@.take(i + 1)) > u64::MAX);
                    lemma_digits_val_mono(s@, i + 1, s@.len() as int);
                    assert(s@.take(s@.len() as int) =~= s@);
                }
                return None;
            },
        }
        i = i + 1;
    }
    proof {
        assert(s@.take(n as int) =~= s@);
    }
    Some(acc)
}

/// The fraction digits of a value in thousandths, most significant first,
/// trailing zeros trimmed; only for a nonzero fraction below one thousand.
pub open spec fn frac_chars(f: nat) -> Seq<char>
    recommends
        0 < f < 1000,
{
    let d1 = f / 100;
    let d2 = (f / 10) % 10;
    let d3 = f % 10;
    if d3 != 0 {
        seq![digit_char(d1), digit_char(d2), digit_char(d3)]
    } else if d2 != 0 {
        seq![digit_char(d1), digit_char(d2)]
    } else {
        seq![digit_char(d1)]
    }
}

/// The decimal rendering of a value counted in thousandths: the whole part,
/// then a point and the trimmed fraction digits when the fraction is nonzero.
pub open spec fn spec_milli_chars(v: u64) -> Seq<char> {
    let ip = v as nat / 1000;
    let f = v as nat % 1000;
    if f == 0 {
        spec_u64_chars(ip)
    } else {
        spec_u64_chars(ip) + seq!['.'] + frac_chars(f)
    }
}

/// The thousandths denoted by up to three fraction digits.
pub open spec fn frac_milli(fp: Seq<char>) -> nat
    recommends
        fp.len() <= 3,
{
    if fp.len() == 0 {
        0
    } else if fp.len() == 1 {
        digits_val(fp) * 100
    } else if fp.len() == 2 {
        digits_val(fp) * 10
    } else {
        digits_val(fp)
    }
}

/// What `parse_milli` returns: the denoted number of thousandths for a
/// non-negative decimal with at most three fraction digits, `None` otherwise.
pub open spec fn spec_parse_milli(s: Seq<char>) -> Option<u64> {
    let d = spec_find(s, '.');
    if d < 0 {
        if s.len() > 0 && all_digits(s) && digits_val(s) * 1000 <= u64::MAX {
            Some((digits_val(s) * 1000) as u64)
        } else {
            None
        }
    } else {
        let ip = s.take(d);
        let fp = s.skip(d + 1);
        if ip.len() + fp.len() > 0 && all_digits(ip) && all_digits(fp) && fp.len() <= 3
            && digits_val(ip) * 1000 + frac_milli(fp) <= u64::MAX {
            Some((digits_val(ip) * 1000 + frac_milli(fp)) as u64)
        } else {
            None
        }
    }
}

/// The digit character of a value below ten denotes that value.
proof fn lemma_digit_char_val(d: nat)
    requires
        d < 10,
    ensures
        is_digit(digit_char(d)),
        digit_val(digit_char(d)) == d,
{
}

/// A digit character is never a decimal point.
proof fn lemma_digits_have_no_point(s: Seq<char>)
    requires
        all_digits(s),
    ensures
        forall|j: int| 0 <= j < s.len() ==> s[j] != '.',
{
    assert(forall|j: int| 0 <= j < s.len() ==> is_digit(#[trigger] s[j]) && s[j] != '.');
}

/// Rendering thousandths then parsing them gives the value back.
pub proof fn lemma_milli_round_trip(v: u64)
    ensures
        spec_parse_milli(spec_milli_chars(v)) == Some(v),
{
    let ip = v as nat / 1000;
    let f = v as nat % 1000;
    lemma_u64_chars_val(ip);
    let a = spec_u64_chars(ip);
    lemma_digits_have_no_point(a);
    if f == 0 {
        lemma_spec_find_none(a, '.');
        assert(ip * 1000 == v);
    } else {
        let fc = frac_chars(f);
        reveal_with_fuel(digits_val, 5);
        let s = a + seq!['.'] + fc;
        assert(s[a.len() as int] == '.');
        assert(forall|j: int| 0 <= j < a.len() ==> s[j] == a[j]);
        lemma_spec_find_at(s, '.', a.len() as int);
        assert(s.take(a.len() as int) =~= a);
        assert(s.skip(a.len() as int + 1) =~= fc);
        let d1 = f / 100;
        let d2 = (f / 10) % 10;
        let d3 = f % 10;
        assert(f < 1000);
        assert(f == d1 * 100 + d2 * 10 + d3) by (nonlinear_arith)
            requires
                f < 1000,
                d1 == f / 100,
                d2 == (f / 10) % 10,
                d3 == f % 10,
        ;
        assert(d1 < 10) by (nonlinear_arith)
            requires
                f < 1000,
                d1 == f / 100,
        ;
        assert(d2 < 10 && d3 < 10);
        lemma_digit_char_val(d1);
        lemma_digit_char_val(d2);
        lemma_digit_char_val(d3);
        if d3 != 0 {
            let t = seq![digit_char(d1), digit_char(d2), digit_char(d3)];
            assert(t.drop_last() =~= seq![digit_char(d1), digit_char(d2)]);
            assert(seq![digit_char(d1), digit_char(d2)].drop_last() =~= seq![digit_char(d1)]);
            assert(seq![digit_char(d1)].drop_last() =~= Seq::<char>::empty());
            assert(digits_val(t) == (d1 * 10 + d2) * 10 + d3);
            assert(frac_milli(fc) == f);
        } else if d2 != 0 {
            let t = seq![digit_char(d1), digit_char(d2)];
            assert(t.drop_last() =~= seq![digit_char(d1)]);
            assert(seq![digit_char(d1)].drop_last() =~= Seq::<char>::empty());
            assert(digits_val(t) == d1 * 10 + d2);
            assert(frac_milli(fc) == f);
        } else {
            let t = seq![digit_char(d1)];
            assert(t.drop_last() =~= Seq::<char>::empty());
            assert(digits_val(t) == d1);
            assert(frac_milli(fc) == f);
        }
        assert(all_digits(fc));
        assert(ip * 1000 + f == v);
    }
}

/// The fraction digits of a nonzero fraction are all digits.
proof fn lemma_frac_chars_digits(f: nat)
    requires
        0 < f < 1000,
    ensures
        all_digits(frac_chars(f)),
{
    let d1 = f / 100;
    let d2 = (f / 10) % 10;
    let d3 = f % 10;
    assert(d1 < 10) by (nonlinear_arith)
        requires
            f < 1000,
            d1 == f / 100,
    ;
    assert(d2 < 10 && d3 < 10);
    lemma_digit_char_val(d1);
    lemma_digit_char_val(d2);
    lemma_digit_char_val(d3);
    let fc = frac_chars(f);
    assert(forall|j: int| 0 <= j < fc.len() ==> is_digit(#[trigger] fc[j]));
}

/// Every character of a rendered count of thousandths is a digit or the
/// decimal point.
pub proof fn lemma_milli_chars_digits_or_point(v: u64)
    ensures
        forall|j: int|
            0 <= j < spec_milli_chars(v).len() ==> is_digit(#[trigger] spec_milli_chars(v)[j])
                || spec_milli_chars(v)[j] == '.',
{
    let ip = v as nat / 1000;
    let f = v as nat % 1000;
    lemma_u64_chars_val(ip);
    let a = spec_u64_chars(ip);
    if f != 0 {
        lemma_frac_chars_digits(f);
        let fc = frac_chars(f);
        let s = a + seq!['.'] + fc;
        assert(forall|j: int|
            0 <= j < s.len() ==> is_digit(#[trigger] s[j]) || s[j] == '.') by {
            assert(forall|j: int| 0 <= j < a.len() ==> s[j] == a[j]);
            assert(s[a.len() as int] == '.');
            assert(forall|j: int| a.len() + 1 <= j < s.len() ==> s[j] == fc[j - a.len() - 1]);
        }
    }
}

/// Render a value counted in thousandths as a decimal.
pub fn milli_to_string(v: u64) -> (r: String)
    ensures
        r@ == spec_milli_chars(v),
{
    let ip = v / 1000;
    let f = v % 1000;
    let mut s = u64_to_string(ip);
    if f != 0 {
        proof {
            reveal_strlit(".");
        }
        s.append(".");
        let d1 = f / 100;
        let d2 = (f / 10) % 10;
        let d3 = f % 10;
        if d3 != 0 {
            s.append(digit_str(d1));
            s.append(digit_str(d2));
            s.append(digit_str(d3));
        } else if d2 != 0 {
            s.append(digit_str(d1));
            s.append(digit_str(d2));
        } else {
            s.append(digit_str(d1));
        }
        proof {
            assert(s@ =~= spec_milli_chars(v));
        }
    }
    s
}

/// Parse a non-negative decimal with at most three fraction digits into a
/// count of thousandths; `None` on any other shape or on overflow.
pub fn parse_milli(s: &str) -> (r: Option<u64>)
    ensures
        r == spec_parse_milli(s@),
{
    let n = s.unicode_len();
    match find_char(s, '.') {
        None => {
            match parse_u64(s) {
                Some(x) => {
                    match x.checked_mul(1000) {
                        Some(y) => Some(y),
                        None => None,
                    }
                },
                None => {
                    proof {
                        if s@.len() > 0 && all_digits(s@) {
                            assert(digits_val(s@) > u64::MAX);
                            assert(digits_val(s@) * 1000 >= digits_val(s@)) by (nonlinear_arith);
                        }
                    }
                    None
                },
            }
        },
        Some(d) => {
            let ghost ip = s@.take(d as int);
            let ghost fp = s@.skip(d as int + 1);
            let ip_str = s.substring_char(0, d);
            let fp_str = s.substring_char(d + 1, n);
            let fn_len = fp_str.unicode_len();
            if d == 0 && fn_len == 0 {
                return None;
            }
            if fn_len > 3 {
                return None;
            }
            let ipv: u64 = if d == 0 {
                proof {
                    assert(ip.len() == 0);
                    assert(digits_val(ip) == 0);
                }
                0
            } else {
                match parse_u64(ip_str) {
                    Some(x) => x,
                    None => {
                        proof {
                            if all_digits(ip) {
                                assert(digits_val(ip) > u64::MAX);
                                assert(digits_val(ip) * 1000 + frac_milli(fp) >= digits_val(ip))
                                    by (nonlinear_arith);
                            }
                        }
                        return None;
                    },
                }
            };
            let mut fv: u64 = 0;
            if fn_len >= 1 {
                let c = fp_str.get_char(0);
                let u = c as u32;
                if u < 48 || u > 57 {
                    assert(!is_digit(fp[0]));
                    return None;
                }
                fv = (u - 48) as u64;
            }
            if fn_len >= 2 {
                let c = fp_str.get_char(1);
                let u = c as u32;
                if u < 48 || u > 57 {
                    assert(!is_digit(fp[1]));
                    return None;
                }
                fv = fv * 10 + (u - 48) as u64;
            }
            if fn_len == 3 {
                let c = fp_str.get_char(2);
                let u = c as u32;
                if u < 48 || u > 57 {
                    assert(!is_digit(fp[2]));
                    return None;
                }
                fv = fv * 10 + (u - 48) as u64;
            }
            let fm: u64 = if fn_len == 0 {
                0
            } else if fn_len == 1 {
                fv * 100
            } else if fn_len == 2 {
                fv * 10
            } else {
                fv
            };
            proof {
                assert(fp.len() == fn_len);
                reveal_with_fuel(digits_val, 5);
                if fn_len == 0 {
                    assert(fp =~= Seq::<char>::empty());
                    assert(all_digits(fp));
                    assert(fm == frac_milli(fp));
                } else if fn_len == 1 {
                    assert(fp =~= seq![fp[0]]);
                    assert(seq![fp[0]].drop_last() =~= Seq::<char>::empty());
                    assert(all_digits(fp));
                    assert(digits_val(fp) == fv);
                    assert(fm == frac_milli(fp));
                } else if fn_len == 2 {
                    assert(fp =~= seq![fp[0], fp[1]]);
                    assert(seq![fp[0], fp[1]].drop_last() =~= seq![fp[0]]);
                    assert(seq![fp[0]].drop_last() =~= Seq::<char>::empty());
                    assert(all_digits(fp));
                    assert(digits_val(fp) == fv);
                    assert(fm == frac_milli(fp));
                } else {
                    assert(fp =~= seq![fp[0], fp[1], fp[2]]);
                    assert(seq![fp[0], fp[1], fp[2]].drop_last() =~= seq![fp[0], fp[1]]);
                    assert(seq![fp[0], fp[1]].drop_last() =~= seq![fp[0]]);
                    assert(seq![fp[0]].drop_last() =~= Seq::<char>::empty());
                    assert(all_digits(fp));
                    assert(digits_val(fp) == fv);
                    assert(fm == frac_milli(fp));
                }
            }
            let scaled = match ipv.checked_mul(1000) {
                Some(y) => y,
                None => {
                    proof {
                        assert(digits_val(ip) * 1000 + frac_milli(fp) > u64::MAX);
                    }
                    return None;
                },
            };
            match scaled.checked_add(fm) {
                Some(total) => Some(total),
                None => None,
            }
        },
    }
}

} // verus!
