//! Exact decimal numbers for float-typed columns: a sign, an integer part
//! and a normalized sequence of fraction digits.  Values are kept in a
//! canonical form so that structural equality is value equality.

use vstd::prelude::*;

use crate::num::{
    all_digits, dec_digits, digit_char, digit_val, is_digit_char, lemma_digit_char_val, parse_nat,
    parse_u64,
};
use crate::text::{find_first, sub_chars};

verus! {

/// A decimal value: `-` when `neg`, then `int_part`, then the fraction
/// digits.  Canonical form: no trailing zero fraction digits and no
/// negative zero.
pub struct Decimal {
    pub neg: bool,
    pub int_part: u64,
    pub frac: Vec<u8>,
}

/// The mathematical content of a [`Decimal`].
#[verifier::ext_equal]
pub ghost struct DecV {
    pub neg: bool,
    pub ip: u64,
    pub frac: Seq<u8>,
}

impl View for Decimal {
    type V = DecV;

    open spec fn view(&self) -> DecV {
        DecV { neg: self.neg, ip: self.int_part, frac: self.frac@ }
    }
}

/// Canonical form: fraction digits below ten, no trailing zero, and zero is
/// never negative.
pub open spec fn dec_wf(d: DecV) -> bool {
    &&& forall|i: int| 0 <= i < d.frac.len() ==> #[trigger] d.frac[i] < 10
    &&& d.frac.len() > 0 ==> d.frac.last() != 0
    &&& d.neg ==> d.ip > 0 || d.frac.len() > 0
}

/// Canonical rendering: optional minus sign, integer numeral, and a dot
/// followed by the fraction digits when there are any.
pub open spec fn dec_render(d: DecV) -> Seq<char> {
    let sign: Seq<char> = if d.neg {
        seq!['-']
    } else {
        Seq::<char>::empty()
    };
    let frac: Seq<char> = if d.frac.len() > 0 {
        seq!['.'] + d.frac.map_values(|x: u8| digit_char(x as nat))
    } else {
        Seq::<char>::empty()
    };
    sign + dec_digits(d.ip as nat) + frac
}

/// Strips trailing zero digits.
pub open spec fn strip_zeros(s: Seq<u8>) -> Seq<u8>
    decreases s.len(),
{
    if s.len() > 0 && s.last() == 0 {
        strip_zeros(s.drop_last())
    } else {
        s
    }
}

/// Grammar accepted for a float column: an optional minus sign, one or more
/// digits, then optionally a dot and one or more fraction digits; the
/// integer part must fit in `u64`.  The parsed value is normalized.
pub open spec fn parse_dec_spec(s: Seq<char>) -> Option<DecV> {
    let neg = s.len() > 0 && s[0] == '-';
    let body = if neg {
        s.skip(1)
    } else {
        s
    };
    let dot = crate::text::first_occ(body, '.');
    let ipart = body.take(dot);
    let fpart = body.skip(dot + 1);
    if dot == body.len() {
        match parse_nat(body) {
            Some(n) => if n <= u64::MAX {
                Some(normalize(neg, n as u64, Seq::<u8>::empty()))
            } else {
                None
            },
            None => None,
        }
    } else {
        match parse_nat(ipart) {
            Some(n) => if n <= u64::MAX && fpart.len() > 0 && all_digits(fpart) {
                Some(normalize(neg, n as u64, fpart.map_values(|c: char| digit_val(c) as u8)))
            } else {
                None
            },
            None => None,
        }
    }
}

/// Canonicalizes a parsed triple: trailing fraction zeros go, and a zero
/// magnitude is never negative.
pub open spec fn normalize(neg: bool, ip: u64, frac: Seq<u8>) -> DecV {
    let f = strip_zeros(frac);
    DecV { neg: neg && !(ip == 0 && f.len() == 0), ip, frac: f }
}

/// Order on fraction-digit sequences in canonical form: compare digit by
/// digit; a proper prefix is smaller.
pub open spec fn frac_lt(a: Seq<u8>, b: Seq<u8>) -> bool
    decreases a.len() + b.len(),
{
    if b.len() == 0 {
        false
    } else if a.len() == 0 {
        true
    } else if a[0] != b[0] {
        a[0] < b[0]
    } else {
        frac_lt(a.skip(1), b.skip(1))
    }
}

/// The native strict order on decimal values.
pub open spec fn dec_lt(a: DecV, b: DecV) -> bool {
    if a.neg && !b.neg {
        true
    } else if !a.neg && b.neg {
        false
    } else if !a.neg && !b.neg {
        a.ip < b.ip || (a.ip == b.ip && frac_lt(a.frac, b.frac))
    } else {
        b.ip < a.ip || (b.ip == a.ip && frac_lt(b.frac, a.frac))
    }
}

impl Decimal {
    /// Parses the decimal grammar above; `None` exactly on inputs the
    /// grammar rejects.
    #[verifier::loop_isolation(false)]
    pub fn parse(v: &Vec<char>) -> (r: Option<Decimal>)
        ensures
            match r {
                Some(d) => parse_dec_spec(v@) == Some(d@) && dec_wf(d@),
                None => parse_dec_spec(v@) is None,
            },
    {
        let neg = v.len() > 0 && v[0] == '-';
        let start: usize = if neg {
            1
        } else {
            0
        };
        let body = sub_chars(v, start, v.len());
        proof {
            if neg {
                assert(body@ =~= v@.skip(1));
            } else {
                assert(body@ =~= v@);
            }
        }
        let dot = find_first(&body, '.');
        if dot == body.len() {
            match parse_u64(&body) {
                Some(n) => {
                    let d = Self::build(neg, n, Vec::new());
                    Some(d)
                },
                None => None,
            }
        } else {
            let ipart = sub_chars(&body, 0, dot);
            proof {
                assert(ipart@ =~= body@.take(dot as int));
            }
            let ip = match parse_u64(&ipart) {
                Some(n) => n,
                None => {
                    return None;
                },
            };
            let fstart = dot + 1;
            let mut fdigits: Vec<u8> = Vec::new();
            let mut i: usize = fstart;
            proof {
                assert(body@.skip(dot + 1).len() == body@.len() - dot - 1);
            }
            while i < body.len()
                invariant
                    fstart == dot + 1,
                    dot < body@.len(),
                    fstart <= i <= body@.len(),
                    fdigits@.len() == i - fstart,
                    all_digits(body@.subrange(fstart as int, i as int)),
                    forall|j: int|
                        0 <= j < fdigits@.len() ==> #[trigger] fdigits@[j] == digit_val(
                            body@[fstart + j],
                        ) && fdigits@[j] < 10,
                decreases body@.len() - i,
            {
                let c = body[i];
                if c < '0' || c > '9' {
                    proof {
                        assert(!is_digit_char(body@[i as int]));
                        let fpart = body@.skip(dot + 1);
                        assert(fpart[i - fstart] == body@[i as int]);
                        assert(!all_digits(fpart));
                    }
                    return None;
                }
                let u: u32 = c as u32;
                proof {
                    assert(u as int == c as int);
                    assert(is_digit_char(c));
                    assert forall|j: int|
                        0 <= j < i + 1 - fstart implies is_digit_char(
                        #[trigger] body@.subrange(fstart as int, i + 1)[j],
                    ) by {
                        if j < i - fstart {
                            assert(body@.subrange(fstart as int, i as int)[j] == body@.subrange(
                                fstart as int,
                                i + 1,
                            )[j]);
                        }
                    }
                }
                fdigits.push((u - 48) as u8);
                i = i + 1;
            }
            if fdigits.len() == 0 {
                proof {
                    assert(body@.skip(dot + 1).len() == 0);
                }
                return None;
            }
            proof {
                let fpart = body@.skip(dot + 1);
                assert(body@.subrange(fstart as int, body@.len() as int) =~= fpart);
                assert(fdigits@ =~= fpart.map_values(|c: char| digit_val(c) as u8)) by {
                    assert(fdigits@.len() == fpart.len());
                    assert forall|j: int| 0 <= j < fpart.len() implies fdigits@[j] == fpart.map_values(
                        |c: char| digit_val(c) as u8,
                    )[j] by {
                        assert(fdigits@[j] == digit_val(body@[fstart + j]));
                        assert(fpart[j] == body@[fstart + j]);
                    }
                }
            }
            let d = Self::build(neg, ip, fdigits);
            Some(d)
        }
    }

    /// Canonicalizes and builds a decimal from its parsed pieces.
    fn build(neg: bool, ip: u64, frac: Vec<u8>) -> (d: Decimal)
        requires
            forall|i: int| 0 <= i < frac@.len() ==> #[trigger] frac@[i] < 10,
        ensures
            d@ == normalize(neg, ip, frac@),
            dec_wf(d@),
    {
        let mut f = frac;
        loop
            invariant_except_break
                forall|i: int| 0 <= i < f@.len() ==> #[trigger] f@[i] < 10,
                strip_zeros(f@) == strip_zeros(frac@),
            ensures
                forall|i: int| 0 <= i < f@.len() ==> #[trigger] f@[i] < 10,
                f@ == strip_zeros(frac@),
            decreases f@.len(),
        {
            if f.len() == 0 {
                proof {
                    assert(strip_zeros(f@) == f@);
                }
                break;
            }
            let lastix = f.len() - 1;
            if f[lastix] != 0 {
                proof {
                    assert(f@.last() != 0);
                    assert(strip_zeros(f@) == f@);
                }
                break;
            }
            proof {
                assert(f@.last() == 0);
                assert(strip_zeros(f@) == strip_zeros(f@.drop_last()));
            }
            f.pop();
        }
        let neg2 = neg && !(ip == 0 && f.len() == 0);
        let d = Decimal { neg: neg2, int_part: ip, frac: f };
        proof {
            lemma_strip_zeros_wf(frac@);
            assert(d@ =~= normalize(neg, ip, frac@));
        }
        d
    }

    /// Renders the canonical text of this decimal.
    pub fn render(&self) -> (out: Vec<char>)
        requires
            dec_wf(self@),
        ensures
            out@ == dec_render(self@),
    {
        let mut out: Vec<char> = Vec::new();
        if self.neg {
            out.push('-');
        }
        let digits = crate::num::u64_digits(self.int_part);
        let mut i: usize = 0;
        let ghost sign: Seq<char> = if self@.neg {
            seq!['-']
        } else {
            Seq::<char>::empty()
        };
        proof {
            assert(out@ =~= sign);
        }
        while i < digits.len()
            invariant
                i <= digits.len(),
                digits@ == dec_digits(self@.ip as nat),
                out@ =~= sign + digits@.take(i as int),
                sign == if self@.neg {
                    seq!['-']
                } else {
                    Seq::<char>::empty()
                },
            decreases digits.len() - i,
        {
            out.push(digits[i]);
            proof {
                assert(out@ =~= sign + digits@.take(i + 1));
            }
            i = i + 1;
        }
        proof {
            assert(digits@.take(digits@.len() as int) =~= digits@);
        }
        if self.frac.len() > 0 {
            out.push('.');
            let ghost head: Seq<char> = sign + dec_digits(self@.ip as nat) + seq!['.'];
            proof {
                assert(out@ =~= head);
            }
            let mut j: usize = 0;
            while j < self.frac.len()
                invariant
                    j <= self.frac.len(),
                    dec_wf(self@),
                    out@ =~= head + self@.frac.take(j as int).map_values(
                        |x: u8| digit_char(x as nat),
                    ),
                    head == sign + dec_digits(self@.ip as nat) + seq!['.'],
                decreases self.frac.len() - j,
            {
                let dg = self.frac[j];
                proof {
                    assert(self@.frac[j as int] < 10);
                    lemma_digit_char_val(dg as nat);
                    assert((dg + 48) as char == digit_char(dg as nat));
                }
                out.push((dg + 48) as char);
                proof {
                    assert(self@.frac.take(j + 1).map_values(|x: u8| digit_char(x as nat)) =~= self@.frac.take(
                        j as int,
                    ).map_values(|x: u8| digit_char(x as nat)).push(digit_char(self@.frac[j as int] as nat)));
                    assert(out@ =~= head + self@.frac.take(j + 1).map_values(
                        |x: u8| digit_char(x as nat),
                    ));
                }
                j = j + 1;
            }
            proof {
                assert(self@.frac.take(self@.frac.len() as int) =~= self@.frac);
                assert(out@ =~= dec_render(self@));
            }
        } else {
            proof {
                assert(out@ =~= dec_render(self@));
            }
        }
        out
    }

    /// Value equality; decimals are canonical, so this is structural.
    pub fn eq_dec(&self, other: &Decimal) -> (r: bool)
        ensures
            r == (self@ == other@),
    {
        if self.neg != other.neg || self.int_part != other.int_part {
            proof {
                assert(self@ != other@);
            }
            return false;
        }
        if self.frac.len() != other.frac.len() {
            proof {
                assert(self@.frac.len() != other@.frac.len());
            }
            return false;
        }
        let mut i: usize = 0;
        while i < self.frac.len()
            invariant
                i <= self.frac.len(),
                self.frac.len() == other.frac.len(),
                self.neg == other.neg,
                self.int_part == other.int_part,
                forall|j: int| 0 <= j < i ==> self.frac@[j] == other.frac@[j],
            decreases self.frac.len() - i,
        {
            if self.frac[i] != other.frac[i] {
                return false;
            }
            i = i + 1;
        }
        proof {
            assert(self@.frac =~= other@.frac);
            assert(self@ =~= other@);
        }
        true
    }

    /// The native strict order.
    pub fn lt_dec(&self, other: &Decimal) -> (r: bool)
        ensures
            r == dec_lt(self@, other@),
    {
        if self.neg && !other.neg {
            true
        } else if !self.neg && other.neg {
            false
        } else if !self.neg && !other.neg {
            if self.int_part != other.int_part {
                self.int_part < other.int_part
            } else {
                frac_lt_exec(&self.frac, &other.frac)
            }
        } else {
            if self.int_part != other.int_part {
                other.int_part < self.int_part
            } else {
                frac_lt_exec(&other.frac, &self.frac)
            }
        }
    }

    /// Copies this decimal.
    pub fn clone_dec(&self) -> (d: Decimal)
        ensures
            d@ == self@,
    {
        let mut f: Vec<u8> = Vec::new();
        let mut i: usize = 0;
        while i < self.frac.len()
            invariant
                i <= self.frac.len(),
                f@ =~= self.frac@.take(i as int),
            decreases self.frac.len() - i,
        {
            f.push(self.frac[i]);
            proof {
                assert(f@ =~= self.frac@.take(i + 1));
            }
            i = i + 1;
        }
        proof {
            assert(self.frac@.take(self.frac@.len() as int) =~= self.frac@);
        }
        let d = Decimal { neg: self.neg, int_part: self.int_part, frac: f };
        proof {
            assert(d@ =~= self@);
        }
        d
    }
}

/// A successfully parsed decimal is canonical.
pub proof fn lemma_parse_dec_wf(s: Seq<char>)
    ensures
        parse_dec_spec(s) is Some ==> dec_wf(parse_dec_spec(s)->Some_0),
{
    if parse_dec_spec(s) is Some {
        let neg = s.len() > 0 && s[0] == '-';
        let body = if neg {
            s.skip(1)
        } else {
            s
        };
        let dot = crate::text::first_occ(body, '.');
        let fpart = body.skip(dot + 1);
        if dot == body.len() {
            lemma_strip_zeros_wf(Seq::<u8>::empty());
        } else {
            let digits = fpart.map_values(|c: char| digit_val(c) as u8);
            assert forall|i: int| 0 <= i < digits.len() implies #[trigger] digits[i] < 10 by {
                assert(is_digit_char(fpart[i]));
            }
            lemma_strip_zeros_wf(digits);
        }
    }
}

proof fn lemma_strip_zeros_wf(s: Seq<u8>)
    requires
        forall|i: int| 0 <= i < s.len() ==> #[trigger] s[i] < 10,
    ensures
        forall|i: int| 0 <= i < strip_zeros(s).len() ==> #[trigger] strip_zeros(s)[i] < 10,
        strip_zeros(s).len() > 0 ==> strip_zeros(s).last() != 0,
    decreases s.len(),
{
    if s.len() > 0 && s.last() == 0 {
        lemma_strip_zeros_wf(s.drop_last());
    }
}

/// Compares fraction-digit sequences digit by digit.
fn frac_lt_exec(a: &Vec<u8>, b: &Vec<u8>) -> (r: bool)
    ensures
        r == frac_lt(a@, b@),
{
    let mut i: usize = 0;
    loop
        invariant
            i <= a.len(),
            i <= b.len(),
            forall|j: int| 0 <= j < i ==> a@[j] == b@[j],
        decreases a.len() - i,
    {
        proof {
            lemma_frac_lt_prefix(a@, b@, i as int);
        }
        if i >= b.len() {
            proof {
                assert(b@.skip(i as int).len() == 0);
            }
            return false;
        }
        if i >= a.len() {
            proof {
                assert(a@.skip(i as int).len() == 0);
                assert(b@.skip(i as int).len() > 0);
            }
            return true;
        }
        if a[i] != b[i] {
            proof {
                assert(a@.skip(i as int)[0] == a@[i as int]);
                assert(b@.skip(i as int)[0] == b@[i as int]);
            }
            return a[i] < b[i];
        }
        i = i + 1;
    }
}

proof fn lemma_frac_lt_prefix(a: Seq<u8>, b: Seq<u8>, i: int)
    requires
        0 <= i <= a.len(),
        i <= b.len(),
        forall|j: int| 0 <= j < i ==> a[j] == b[j],
    ensures
        frac_lt(a, b) == frac_lt(a.skip(i), b.skip(i)),
    decreases i,
{
    if i == 0 {
        assert(a.skip(0) =~= a);
        assert(b.skip(0) =~= b);
    } else {
        assert(a[0] == b[0]);
        lemma_frac_lt_prefix(a.skip(1), b.skip(1), i - 1);
        assert(a.skip(1).skip(i - 1) =~= a.skip(i));
        assert(b.skip(1).skip(i - 1) =~= b.skip(i));
        assert(forall|j: int| 0 <= j < i - 1 ==> a.skip(1)[j] == b.skip(1)[j]);
    }
}

} // verus!
