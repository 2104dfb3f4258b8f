//! Decimal text: reading a non-negative integer from a run of digits, and
//! rendering a small integer back as decimal digits.

use vstd::prelude::*;

verus! {

/// A decimal digit character.
pub open spec fn is_digit(c: char) -> bool {
    48 <= c as u32 <= 57
}

/// The numeric value of a digit character.
pub open spec fn digit_val(c: char) -> int {
    c as u32 - 48
}

/// Every character of `s` is a decimal digit.
pub open spec fn all_digits(s: Seq<char>) -> bool {
    forall|i: int| 0 <= i < s.len() ==> is_digit(s[i])
}

/// The number written in `s`, read as decimal digits, most significant first.
pub open spec fn digits_val(s: Seq<char>) -> int
    decreases s.len(),
{
    if s.len() == 0 {
        0
    } else {
        digits_val(s.drop_last()) * 10 + digit_val(s.last())
    }
}

/// The digits of a numeric field: an optional single leading plus sign
/// is not part of the number.
pub open spec fn digits_part(s: Seq<char>) -> Seq<char> {
    if s.len() > 0 && s[0] == '+' {
        s.drop_first()
    } else {
        s
    }
}

/// The number a value field yields: the digits' value when `s` is a
/// non-empty run of digits, after an optional leading plus sign, that
/// fits in 64 bits, and zero otherwise (an unparsable field degrades to
/// zero rather than failing).
pub open spec fn parse_or_zero(s: Seq<char>) -> u64 {
    let d = digits_part(s);
    if d.len() > 0 && all_digits(d) && digits_val(d) <= u64::MAX {
        digits_val(d) as u64
    } else {
        0
    }
}

/// A run of digits has a non-negative value.
pub proof fn lemma_digits_val_nonneg(s: Seq<char>)
    requires
        all_digits(s),
    ensures
        digits_val(s) >= 0,
    decreases s.len(),
{
    if s.len() > 0 {
        assert(all_digits(s.drop_last()));
        lemma_digits_val_nonneg(s.drop_last());
        assert(digit_val(s.last()) >= 0);
    }
}

/// Reading a prefix of a run of digits never yields more than the whole run.
pub proof fn lemma_digits_prefix_le(s: Seq<char>, i: int)
    requires
        all_digits(s),
        0 <= i <= s.len(),
    ensures
        digits_val(s.subrange(0, i)) <= digits_val(s),
    decreases s.len() - i,
{
    if i < s.len() {
        lemma_digits_prefix_le(s, i + 1);
        assert(s.subrange(0, i + 1).drop_last() =~= s.subrange(0, i));
        assert(all_digits(s.subrange(0, i)));
        lemma_digits_val_nonneg(s.subrange(0, i));
        assert(digits_val(s.subrange(0, i + 1)) == digits_val(s.subrange(0, i)) * 10
            + digit_val(s.subrange(0, i + 1).last()));
    } else {
        assert(s.subrange(0, i) =~= s);
    }
}

/// Read a value field as a non-negative 64-bit integer; anything but a
/// non-empty run of digits (after an optional leading plus sign) that
/// fits, including an overflowing run, reads as zero.
pub fn parse_u64_or_zero(s: &str) -> (r: u64)
    ensures
        r == parse_or_zero(s@),
{
    let n: usize = s.unicode_len();
    if n == 0 {
        return 0;
    }
    let start: usize = if s.get_char(0) == '+' {
        1
    } else {
        0
    };
    let ghost d = digits_part(s@);
    proof {
        assert(d =~= s@.subrange(start as int, n as int));
    }
    let mut acc: u64 = 0;
    let mut i: usize = start;
    while i < n
        invariant
            0 < n == s@.len(),
            start <= i <= n,
            d == digits_part(s@),
            d == s@.subrange(start as int, n as int),
            all_digits(s@.subrange(start as int, i as int)),
            acc == digits_val(s@.subrange(start as int, i as int)),
        decreases n - i,
    {
        let ghost prefix = s@.subrange(start as int, i as int);
        let c = s.get_char(i);
        let u: u32 = c as u32;
        if u < 48 || u > 57 {
            proof {
                assert(d[i as int - start as int] == s@[i as int]);
                assert(!is_digit(d[i as int - start as int]));
            }
            return 0;
        }
        let da: u64 = (u - 48) as u64;
        proof {
            assert(s@.subrange(start as int, i as int + 1).drop_last() =~= prefix);
            assert(s@.subrange(start as int, i as int + 1).last() == s@[i as int]);
            assert(all_digits(s@.subrange(start as int, i as int + 1)));
        }
        if acc > (u64::MAX - da) / 10 {
            proof {
                let ext = s@.subrange(start as int, i as int + 1);
                assert(digits_val(ext) == acc * 10 + da);
                assert(acc >= (u64::MAX - da) / 10 + 1);
                assert(((u64::MAX - da) / 10 + 1) * 10 == ((u64::MAX - da) / 10) * 10 + 10);
                assert(((u64::MAX - da) / 10) * 10 + (u64::MAX - da) % 10 == u64::MAX - da);
                assert(acc * 10 >= ((u64::MAX - da) / 10 + 1) * 10) by (nonlinear_arith)
                    requires
                        acc >= (u64::MAX - da) / 10 + 1,
                {}
                assert(digits_val(ext) > u64::MAX);
                if all_digits(d) {
                    lemma_digits_prefix_le(d, i as int + 1 - start as int);
                    assert(d.subrange(0, i as int + 1 - start as int) =~= ext);
                    assert(digits_val(d) > u64::MAX);
                }
            }
            return 0;
        }
        proof {
            assert(acc <= (u64::MAX - da) / 10);
            assert(((u64::MAX - da) / 10) * 10 + (u64::MAX - da) % 10 == u64::MAX - da);
            assert(acc * 10 <= ((u64::MAX - da) / 10) * 10) by (nonlinear_arith)
                requires
                    acc <= (u64::MAX - da) / 10,
            {}
            assert(acc * 10 + da <= u64::MAX);
        }
        acc = acc * 10 + da;
        i = i + 1;
    }
    acc
}

/// The decimal digit character for `d`.
pub open spec fn digit_char(d: int) -> char {
    if d == 0 {
        '0'
    } else if d == 1 {
        '1'
    } else if d == 2 {
        '2'
    } else if d == 3 {
        '3'
    } else if d == 4 {
        '4'
    } else if d == 5 {
        '5'
    } else if d == 6 {
        '6'
    } else if d == 7 {
        '7'
    } else if d == 8 {
        '8'
    } else {
        '9'
    }
}

/// The decimal rendering of `n`, most significant digit first, no leading
/// zeros (a single zero for zero itself).
pub open spec fn spec_dec(n: int) -> Seq<char>
    decreases n,
{
    if n < 10 {
        seq![digit_char(n)]
    } else {
        spec_dec(n / 10).push(digit_char(n % 10))
    }
}

fn digit_str(d: u8) -> (r: &'static str)
    requires
        d < 10,
    ensures
        r@ == seq![digit_char(d as int)],
{
    proof {
        reveal_strlit("0");
        reveal_strlit("1");
        reveal_strlit("2");
        reveal_strlit("3");
        reveal_strlit("4");
        reveal_strlit("5");
        reveal_strlit("6");
        reveal_strlit("7");
        reveal_strlit("8");
        reveal_strlit("9");
    }
    let r: &'static str = if d == 0 {
        "0"
    } else if d == 1 {
        "1"
    } else if d == 2 {
        "2"
    } else if d == 3 {
        "3"
    } else if d == 4 {
        "4"
    } else if d == 5 {
        "5"
    } else if d == 6 {
        "6"
    } else if d == 7 {
        "7"
    } else if d == 8 {
        "8"
    } else {
        "9"
    };
    proof {
        assert(r@ =~= seq![digit_char(d as int)]);
    }
    r
}

/// Render `n` as decimal digits.
pub fn dec_u8(n: u8) -> (r: String)
    ensures
        r@ == spec_dec(n as int),
{
    if n < 10 {
        String::from_str(digit_str(n))
    } else if n < 100 {
        let mut s = String::from_str(digit_str(n / 10));
        s.append(digit_str(n % 10));
        proof {
            assert(spec_dec(n as int) == spec_dec(n as int / 10).push(digit_char(n as int % 10)));
            assert(s@ =~= spec_dec(n as int));
        }
        s
    } else {
        let mut s = String::from_str(digit_str(n / 100));
        s.append(digit_str((n / 10) % 10));
        s.append(digit_str(n % 10));
        proof {
            assert(n as int / 10 / 10 == n as int / 100);
            assert(spec_dec(n as int) == spec_dec(n as int / 10).push(digit_char(n as int % 10)));
            assert(spec_dec(n as int / 10) == spec_dec(n as int / 100).push(
                digit_char((n as int / 10) % 10),
            ));
            assert(s@ =~= spec_dec(n as int));
        }
        s
    }
}

} // verus!
