//! Decimal numerals: specification of digit strings and verified
//! rendering/parsing for the integer value types of the engine.

use vstd::prelude::*;

verus! {

pub open spec fn is_digit_char(c: char) -> bool {
    '0' <= c && c <= '9'
}

pub open spec fn digit_val(c: char) -> nat {
    ((c as int) - 48) as nat
}

pub open spec fn digit_char(d: nat) -> char {
    ((d + 48) as char)
}

/// The decimal numeral of `n`, most significant digit first, no sign,
/// no leading zeros (`0` itself is the one-digit numeral `"0"`).
pub open spec fn dec_digits(n: nat) -> Seq<char>
    decreases n,
{
    if n < 10 {
        seq![digit_char(n)]
    } else {
        dec_digits(n / 10).push(digit_char(n % 10))
    }
}

/// The value of a digit string, most significant digit first.
pub open spec fn digits_val(s: Seq<char>) -> nat
    decreases s.len(),
{
    if s.len() == 0 {
        0
    } else {
        digits_val(s.drop_last()) * 10 + digit_val(s.last())
    }
}

pub open spec fn all_digits(s: Seq<char>) -> bool {
    forall|i: int| 0 <= i < s.len() ==> is_digit_char(#[trigger] s[i])
}

/// The numeral of the signed value `n`: a minus sign for negative values,
/// then the numeral of the magnitude.
pub open spec fn int_digits(n: int) -> Seq<char> {
    if n < 0 {
        seq!['-'] + dec_digits((-n) as nat)
    } else {
        dec_digits(n as nat)
    }
}

/// A nonempty all-digit string denotes its value; anything else is rejected.
pub open spec fn parse_nat(s: Seq<char>) -> Option<nat> {
    if s.len() > 0 && all_digits(s) {
        Some(digits_val(s))
    } else {
        None
    }
}

/// Grammar accepted for an int column: an optional minus sign, then one or
/// more digits, with the value in range for `i32`.
pub open spec fn parse_i32_spec(s: Seq<char>) -> Option<i32> {
    if s.len() > 0 && s[0] == '-' {
        match parse_nat(s.subrange(1, s.len() as int)) {
            Some(n) => if n <= 0x8000_0000 {
                Some((-(n as int)) as i32)
            } else {
                None
            },
            None => None,
        }
    } else {
        match parse_nat(s) {
            Some(n) => if n < 0x8000_0000 {
                Some(n as i32)
            } else {
                None
            },
            None => None,
        }
    }
}

pub proof fn lemma_dec_digits_are_digits(n: nat)
    ensures
        all_digits(dec_digits(n)),
        dec_digits(n).len() >= 1,
    decreases n,
{
    if n < 10 {
    } else {
        lemma_dec_digits_are_digits(n / 10);
    }
}

pub proof fn lemma_digit_char_val(d: nat)
    requires
        d < 10,
    ensures
        is_digit_char(digit_char(d)),
        digit_val(digit_char(d)) == d,
{
    assert(digit_char(d) as int == d + 48);
}

pub proof fn lemma_dec_digits_val(n: nat)
    ensures
        digits_val(dec_digits(n)) == n,
    decreases n,
{
    if n < 10 {
        lemma_digit_char_val(n);
        let s = seq![digit_char(n)];
        assert(s.len() == 1);
        assert(s.last() == digit_char(n));
        assert(s.drop_last() =~= Seq::<char>::empty());
        assert(digits_val(s.drop_last()) == 0);
        assert(digits_val(s) == digits_val(s.drop_last()) * 10 + digit_val(s.last()));
        assert(digits_val(s) == n);
        assert(dec_digits(n) == s);
    } else {
        lemma_dec_digits_val(n / 10);
        lemma_digit_char_val(n % 10);
        assert(dec_digits(n) == dec_digits(n / 10).push(digit_char(n % 10)));
        assert(dec_digits(n).drop_last() =~= dec_digits(n / 10));
        assert(dec_digits(n).last() == digit_char(n % 10));
        assert(dec_digits(n).len() > 0);
        assert(digits_val(dec_digits(n)) == digits_val(dec_digits(n).drop_last()) * 10
            + digit_val(dec_digits(n).last()));
        assert(digits_val(dec_digits(n)) == (n / 10) * 10 + (n % 10));
        assert((n / 10) * 10 + (n % 10) == n);
    }
}

/// Extending a digit string on the right can only grow its value.
pub proof fn lemma_digits_val_take_le(s: Seq<char>, k: int)
    requires
        0 <= k <= s.len(),
    ensures
        digits_val(s.take(k)) <= digits_val(s),
    decreases s.len() - k,
{
    if k < s.len() {
        lemma_digits_val_take_le(s, k + 1);
        assert(s.take(k + 1).drop_last() =~= s.take(k));
        assert(digits_val(s.take(k)) <= digits_val(s.take(k + 1)));
    } else {
        assert(s.take(k) =~= s);
    }
}

/// Renders `n` as its decimal numeral.
pub fn u64_digits(n: u64) -> (out: Vec<char>)
    ensures
        out@ == dec_digits(n as nat),
{
    let mut rev: Vec<char> = Vec::new();
    let mut cur: u64 = n;
    loop
        invariant_except_break
            dec_digits(n as nat) == dec_digits(cur as nat) + rev@.reverse(),
        ensures
            dec_digits(n as nat) == rev@.reverse(),
        decreases cur,
    {
        let d: u8 = (cur % 10) as u8;
        let c: char = (d + 48) as char;
        let next: u64 = cur / 10;
        proof {
            let curn = cur as nat;
            assert(c == digit_char(curn % 10)) by {
                assert(d == curn % 10);
            }
            if curn < 10 {
                assert(dec_digits(curn) =~= seq![digit_char(curn)]);
                assert(curn % 10 == curn);
                assert(rev@.push(c).reverse() =~= seq![c] + rev@.reverse());
                assert(dec_digits(n as nat) =~= rev@.push(c).reverse());
            } else {
                assert(dec_digits(curn) == dec_digits(curn / 10).push(digit_char(curn % 10)));
                assert(dec_digits(curn / 10).push(c) + rev@.reverse() =~= dec_digits(curn / 10)
                    + rev@.push(c).reverse());
            }
        }
        rev.push(c);
        cur = next;
        if cur == 0 {
            break;
        }
    }
    let mut out: Vec<char> = Vec::new();
    let total: usize = rev.len();
    let mut i: usize = 0;
    while i < total
        invariant
            total == rev.len(),
            i <= total,
            out@ =~= rev@.reverse().take(i as int),
        decreases total - i,
    {
        out.push(rev[total - 1 - i]);
        proof {
            assert(rev@.reverse()[i as int] == rev@[total - 1 - i]);
            assert(out@ =~= rev@.reverse().take(i + 1));
        }
        i = i + 1;
    }
    proof {
        assert(out@ =~= rev@.reverse());
    }
    out
}

/// Renders a signed value: minus sign for negatives, then the magnitude.
pub fn i32_digits(n: i32) -> (out: Vec<char>)
    ensures
        out@ == int_digits(n as int),
{
    if n < 0 {
        let mag: u64 = (-(n as i64)) as u64;
        let digits = u64_digits(mag);
        let mut out: Vec<char> = Vec::new();
        out.push('-');
        let mut i: usize = 0;
        while i < digits.len()
            invariant
                i <= digits.len(),
                out@ =~= seq!['-'] + digits@.take(i as int),
            decreases digits.len() - i,
        {
            out.push(digits[i]);
            proof {
                assert(out@ =~= seq!['-'] + digits@.take(i + 1));
            }
            i = i + 1;
        }
        proof {
            assert(digits@.take(digits@.len() as int) =~= digits@);
            assert(mag as nat == (-(n as int)) as nat);
        }
        out
    } else {
        let digits = u64_digits(n as u64);
        digits
    }
}

/// Parses an unsigned numeral: the whole input must be digits and the value
/// must fit in `u64`.
pub fn parse_u64(v: &Vec<char>) -> (r: Option<u64>)
    ensures
        match r {
            Some(n) => parse_nat(v@) == Some(n as nat),
            None => parse_nat(v@) is None || parse_nat(v@).unwrap() > u64::MAX,
        },
{
    if v.len() == 0 {
        return None;
    }
    let mut acc: u64 = 0;
    let mut i: usize = 0;
    while i < v.len()
        invariant
            i <= v.len(),
            all_digits(v@.take(i as int)),
            acc as nat == digits_val(v@.take(i as int)),
        decreases v.len() - i,
    {
        let c = v[i];
        if c < '0' || c > '9' {
            return None;
        }
        let cv: u32 = c as u32;
        proof {
            assert(cv as int == c as int);
        }
        let d: u64 = (cv - 48) as u64;
        proof {
            assert(is_digit_char(c));
            assert(d as nat == digit_val(c));
            assert(v@.take(i + 1).drop_last() =~= v@.take(i as int));
        }
        if acc > (u64::MAX - d) / 10 {
            proof {
                lemma_digits_val_take_le(v@, i + 1);
                assert(digits_val(v@.take(i + 1)) == acc as nat * 10 + digit_val(c));
                assert(acc as nat * 10 + d as nat > u64::MAX) by (nonlinear_arith)
                    requires
                        acc > (u64::MAX - d) / 10,
                        d <= 9,
                        acc <= u64::MAX,
                ;
            }
            return None;
        }
        proof {
            assert(acc * 10 + d <= u64::MAX) by (nonlinear_arith)
                requires
                    acc <= (u64::MAX - d) / 10,
                    d <= 9,
            ;
        }
        acc = acc * 10 + d;
        i = i + 1;
    }
    proof {
        assert(v@.take(v@.len() as int) =~= v@);
    }
    Some(acc)
}

/// Parses a signed numeral in the grammar of [`parse_i32_spec`].
pub fn parse_i32(v: &Vec<char>) -> (r: Option<i32>)
    ensures
        r == parse_i32_spec(v@),
{
    if v.len() == 0 {
        return None;
    }
    if v[0] == '-' {
        let mut rest: Vec<char> = Vec::new();
        let mut i: usize = 1;
        while i < v.len()
            invariant
                1 <= i <= v.len(),
                rest@ =~= v@.subrange(1, i as int),
            decreases v.len() - i,
        {
            rest.push(v[i]);
            proof {
                assert(rest@ =~= v@.subrange(1, i + 1));
            }
            i = i + 1;
        }
        proof {
            assert(rest@ =~= v@.subrange(1, v@.len() as int));
        }
        match parse_u64(&rest) {
            Some(n) => {
                if n <= 0x8000_0000 {
                    Some((-(n as i64)) as i32)
                } else {
                    None
                }
            },
            None => {
                proof {
                    if parse_nat(rest@) is Some {
                        assert(parse_nat(rest@).unwrap() > u64::MAX);
                    }
                }
                None
            },
        }
    } else {
        match parse_u64(v) {
            Some(n) => {
                if n < 0x8000_0000 {
                    Some(n as i32)
                } else {
                    None
                }
            },
            None => {
                proof {
                    if parse_nat(v@) is Some {
                        assert(parse_nat(v@).unwrap() > u64::MAX);
                    }
                }
                None
            },
        }
    }
}

} // verus!
