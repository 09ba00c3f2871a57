//! The snapshot codec: a self-describing text encoding of a whole database
//! registry, with a proof that decoding an encoding gives the registry
//! back — schema order, column order and row order included.

use vstd::prelude::*;

use crate::base::{store_len, store_wf, AttrV, DataType, StoreV};
use crate::db::{db_wf, DbV};
use crate::decimal::{dec_wf, DecV};
use crate::errors::Errors;
use crate::num::{
    all_digits, dec_digits, digit_char, digit_val, digits_val, is_digit_char,
    lemma_dec_digits_are_digits, lemma_dec_digits_val, lemma_digit_char_val,
};
use crate::table::{table_wf, TableV};

verus! {

// ---------------------------------------------------------------------
// encoders
// ---------------------------------------------------------------------
/// A number: its digits, closed by a semicolon.
pub open spec fn enc_nat(n: nat) -> Seq<char> {
    dec_digits(n) + seq![';']
}

/// A string: its length, then its characters verbatim.
pub open spec fn enc_str(s: Seq<char>) -> Seq<char> {
    enc_nat(s.len()) + s
}

pub open spec fn enc_bool(b: bool) -> Seq<char> {
    if b {
        seq!['T']
    } else {
        seq!['F']
    }
}

pub open spec fn enc_opt_str(o: Option<Seq<char>>) -> Seq<char> {
    match o {
        None => seq!['N'],
        Some(s) => seq!['S'] + enc_str(s),
    }
}

pub open spec fn enc_dt(dt: DataType) -> Seq<char> {
    match dt {
        DataType::Float => seq!['f'],
        DataType::Int => seq!['i'],
        DataType::Bool => seq!['b'],
        DataType::String => seq!['s'],
        DataType::Invalid => seq!['x'],
    }
}

/// A signed number: an optional minus sign, then the magnitude.
pub open spec fn enc_i32(n: i32) -> Seq<char> {
    if n < 0 {
        seq!['-'] + enc_nat((-(n as int)) as nat)
    } else {
        enc_nat(n as nat)
    }
}

/// A decimal: sign flag, integer part, then the fraction digits with their
/// count.
pub open spec fn enc_dec(d: DecV) -> Seq<char> {
    enc_bool(d.neg) + enc_nat(d.ip as nat) + enc_nat(d.frac.len()) + d.frac.map_values(
        |x: u8| digit_char(x as nat),
    )
}

pub open spec fn enc_attr(a: AttrV) -> Seq<char> {
    enc_str(a.name) + enc_dt(a.datatype) + enc_bool(a.is_pk) + enc_bool(a.is_nullable)
        + enc_opt_str(a.default)
}

pub open spec fn enc_i32s(v: Seq<i32>) -> Seq<char>
    decreases v.len(),
{
    if v.len() == 0 {
        Seq::<char>::empty()
    } else {
        enc_i32(v[0]) + enc_i32s(v.skip(1))
    }
}

pub open spec fn enc_decs(v: Seq<DecV>) -> Seq<char>
    decreases v.len(),
{
    if v.len() == 0 {
        Seq::<char>::empty()
    } else {
        enc_dec(v[0]) + enc_decs(v.skip(1))
    }
}

pub open spec fn enc_strs(v: Seq<Seq<char>>) -> Seq<char>
    decreases v.len(),
{
    if v.len() == 0 {
        Seq::<char>::empty()
    } else {
        enc_str(v[0]) + enc_strs(v.skip(1))
    }
}

pub open spec fn enc_bools(v: Seq<bool>) -> Seq<char>
    decreases v.len(),
{
    if v.len() == 0 {
        Seq::<char>::empty()
    } else {
        enc_bool(v[0]) + enc_bools(v.skip(1))
    }
}

pub open spec fn enc_attrs(v: Seq<AttrV>) -> Seq<char>
    decreases v.len(),
{
    if v.len() == 0 {
        Seq::<char>::empty()
    } else {
        enc_attr(v[0]) + enc_attrs(v.skip(1))
    }
}

/// A store: a type tag, the row count, then the values.
pub open spec fn enc_store(s: StoreV) -> Seq<char> {
    match s {
        StoreV::Ints(v) => seq!['I'] + enc_nat(v.len()) + enc_i32s(v),
        StoreV::Floats(v) => seq!['D'] + enc_nat(v.len()) + enc_decs(v),
        StoreV::Strs(v) => seq!['S'] + enc_nat(v.len()) + enc_strs(v),
        StoreV::Bools(v) => seq!['B'] + enc_nat(v.len()) + enc_bools(v),
        StoreV::Missing => seq!['X'],
    }
}

pub open spec fn enc_stores(v: Seq<StoreV>) -> Seq<char>
    decreases v.len(),
{
    if v.len() == 0 {
        Seq::<char>::empty()
    } else {
        enc_store(v[0]) + enc_stores(v.skip(1))
    }
}

pub open spec fn enc_table(t: TableV) -> Seq<char> {
    enc_str(t.name) + enc_nat(t.columns.len()) + enc_attrs(t.columns) + enc_nat(t.stores.len())
        + enc_stores(t.stores)
}

pub open spec fn enc_tables(v: Seq<TableV>) -> Seq<char>
    decreases v.len(),
{
    if v.len() == 0 {
        Seq::<char>::empty()
    } else {
        enc_table(v[0]) + enc_tables(v.skip(1))
    }
}

/// The whole registry: its name, then each table.
pub open spec fn enc_db(d: DbV) -> Seq<char> {
    enc_str(d.name) + enc_nat(d.tables.len()) + enc_tables(d.tables)
}

// ---------------------------------------------------------------------
// decoders
// ---------------------------------------------------------------------
/// The length of the leading digit run.
pub open spec fn digit_run(s: Seq<char>) -> int
    decreases s.len(),
{
    if s.len() > 0 && is_digit_char(s[0]) {
        1 + digit_run(s.skip(1))
    } else {
        0
    }
}

pub open spec fn dec_nat(s: Seq<char>) -> Option<(nat, Seq<char>)> {
    let k = digit_run(s);
    if k == 0 {
        None
    } else if k >= s.len() {
        None
    } else if s[k] != ';' {
        None
    } else if digits_val(s.take(k)) > u64::MAX {
        None
    } else {
        Some((digits_val(s.take(k)), s.skip(k + 1)))
    }
}

pub open spec fn dec_str(s: Seq<char>) -> Option<(Seq<char>, Seq<char>)> {
    match dec_nat(s) {
        None => None,
        Some((n, rest)) => if rest.len() >= n {
            Some((rest.take(n as int), rest.skip(n as int)))
        } else {
            None
        },
    }
}

pub open spec fn dec_bool(s: Seq<char>) -> Option<(bool, Seq<char>)> {
    if s.len() > 0 && s[0] == 'T' {
        Some((true, s.skip(1)))
    } else if s.len() > 0 && s[0] == 'F' {
        Some((false, s.skip(1)))
    } else {
        None
    }
}

pub open spec fn dec_opt_str(s: Seq<char>) -> Option<(Option<Seq<char>>, Seq<char>)> {
    if s.len() > 0 && s[0] == 'N' {
        Some((None, s.skip(1)))
    } else if s.len() > 0 && s[0] == 'S' {
        match dec_str(s.skip(1)) {
            None => None,
            Some((v, rest)) => Some((Some(v), rest)),
        }
    } else {
        None
    }
}

pub open spec fn dec_dt(s: Seq<char>) -> Option<(DataType, Seq<char>)> {
    if s.len() == 0 {
        None
    } else if s[0] == 'f' {
        Some((DataType::Float, s.skip(1)))
    } else if s[0] == 'i' {
        Some((DataType::Int, s.skip(1)))
    } else if s[0] == 'b' {
        Some((DataType::Bool, s.skip(1)))
    } else if s[0] == 's' {
        Some((DataType::String, s.skip(1)))
    } else if s[0] == 'x' {
        Some((DataType::Invalid, s.skip(1)))
    } else {
        None
    }
}

pub open spec fn dec_i32(s: Seq<char>) -> Option<(i32, Seq<char>)> {
    if s.len() > 0 && s[0] == '-' {
        match dec_nat(s.skip(1)) {
            None => None,
            Some((n, rest)) => if 0 < n <= 0x8000_0000 {
                Some(((-(n as int)) as i32, rest))
            } else {
                None
            },
        }
    } else {
        match dec_nat(s) {
            None => None,
            Some((n, rest)) => if n < 0x8000_0000 {
                Some((n as i32, rest))
            } else {
                None
            },
        }
    }
}

/// Reads `n` fraction digits.
pub open spec fn dec_frac(s: Seq<char>, n: nat) -> Option<(Seq<u8>, Seq<char>)>
    decreases n,
{
    if n == 0 {
        Some((Seq::<u8>::empty(), s))
    } else if s.len() > 0 && is_digit_char(s[0]) {
        match dec_frac(s.skip(1), (n - 1) as nat) {
            None => None,
            Some((v, rest)) => Some((seq![digit_val(s[0]) as u8] + v, rest)),
        }
    } else {
        None
    }
}

pub open spec fn dec_dec(s: Seq<char>) -> Option<(DecV, Seq<char>)> {
    match dec_bool(s) {
        None => None,
        Some((neg, s1)) => match dec_nat(s1) {
            None => None,
            Some((ip, s2)) => match dec_nat(s2) {
                None => None,
                Some((fl, s3)) => match dec_frac(s3, fl) {
                    None => None,
                    Some((frac, s4)) => {
                        let d = DecV { neg, ip: ip as u64, frac };
                        if dec_wf(d) {
                            Some((d, s4))
                        } else {
                            None
                        }
                    },
                },
            },
        },
    }
}

pub open spec fn dec_attr(s: Seq<char>) -> Option<(AttrV, Seq<char>)> {
    match dec_str(s) {
        None => None,
        Some((name, s1)) => match dec_dt(s1) {
            None => None,
            Some((dt, s2)) => match dec_bool(s2) {
                None => None,
                Some((is_pk, s3)) => match dec_bool(s3) {
                    None => None,
                    Some((is_nullable, s4)) => match dec_opt_str(s4) {
                        None => None,
                        Some((default, s5)) => Some(
                            (AttrV { name, datatype: dt, is_pk, is_nullable, default }, s5),
                        ),
                    },
                },
            },
        },
    }
}

pub open spec fn dec_i32s(s: Seq<char>, n: nat) -> Option<(Seq<i32>, Seq<char>)>
    decreases n,
{
    if n == 0 {
        Some((Seq::<i32>::empty(), s))
    } else {
        match dec_i32(s) {
            None => None,
            Some((x, rest)) => match dec_i32s(rest, (n - 1) as nat) {
                None => None,
                Some((v, rest2)) => Some((seq![x] + v, rest2)),
            },
        }
    }
}

pub open spec fn dec_decs(s: Seq<char>, n: nat) -> Option<(Seq<DecV>, Seq<char>)>
    decreases n,
{
    if n == 0 {
        Some((Seq::<DecV>::empty(), s))
    } else {
        match dec_dec(s) {
            None => None,
            Some((x, rest)) => match dec_decs(rest, (n - 1) as nat) {
                None => None,
                Some((v, rest2)) => Some((seq![x] + v, rest2)),
            },
        }
    }
}

pub open spec fn dec_strs(s: Seq<char>, n: nat) -> Option<(Seq<Seq<char>>, Seq<char>)>
    decreases n,
{
    if n == 0 {
        Some((Seq::<Seq<char>>::empty(), s))
    } else {
        match dec_str(s) {
            None => None,
            Some((x, rest)) => match dec_strs(rest, (n - 1) as nat) {
                None => None,
                Some((v, rest2)) => Some((seq![x] + v, rest2)),
            },
        }
    }
}

pub open spec fn dec_bools(s: Seq<char>, n: nat) -> Option<(Seq<bool>, Seq<char>)>
    decreases n,
{
    if n == 0 {
        Some((Seq::<bool>::empty(), s))
    } else {
        match dec_bool(s) {
            None => None,
            Some((x, rest)) => match dec_bools(rest, (n - 1) as nat) {
                None => None,
                Some((v, rest2)) => Some((seq![x] + v, rest2)),
            },
        }
    }
}

pub open spec fn dec_attrs(s: Seq<char>, n: nat) -> Option<(Seq<AttrV>, Seq<char>)>
    decreases n,
{
    if n == 0 {
        Some((Seq::<AttrV>::empty(), s))
    } else {
        match dec_attr(s) {
            None => None,
            Some((x, rest)) => match dec_attrs(rest, (n - 1) as nat) {
                None => None,
                Some((v, rest2)) => Some((seq![x] + v, rest2)),
            },
        }
    }
}

pub open spec fn dec_store(s: Seq<char>) -> Option<(StoreV, Seq<char>)> {
    if s.len() == 0 {
        None
    } else if s[0] == 'X' {
        Some((StoreV::Missing, s.skip(1)))
    } else if s[0] == 'I' {
        match dec_nat(s.skip(1)) {
            None => None,
            Some((n, rest)) => match dec_i32s(rest, n) {
                None => None,
                Some((v, rest2)) => Some((StoreV::Ints(v), rest2)),
            },
        }
    } else if s[0] == 'D' {
        match dec_nat(s.skip(1)) {
            None => None,
            Some((n, rest)) => match dec_decs(rest, n) {
                None => None,
                Some((v, rest2)) => Some((StoreV::Floats(v), rest2)),
            },
        }
    } else if s[0] == 'S' {
        match dec_nat(s.skip(1)) {
            None => None,
            Some((n, rest)) => match dec_strs(rest, n) {
                None => None,
                Some((v, rest2)) => Some((StoreV::Strs(v), rest2)),
            },
        }
    } else if s[0] == 'B' {
        match dec_nat(s.skip(1)) {
            None => None,
            Some((n, rest)) => match dec_bools(rest, n) {
                None => None,
                Some((v, rest2)) => Some((StoreV::Bools(v), rest2)),
            },
        }
    } else {
        None
    }
}

pub open spec fn dec_stores(s: Seq<char>, n: nat) -> Option<(Seq<StoreV>, Seq<char>)>
    decreases n,
{
    if n == 0 {
        Some((Seq::<StoreV>::empty(), s))
    } else {
        match dec_store(s) {
            None => None,
            Some((x, rest)) => match dec_stores(rest, (n - 1) as nat) {
                None => None,
                Some((v, rest2)) => Some((seq![x] + v, rest2)),
            },
        }
    }
}

pub open spec fn dec_table(s: Seq<char>) -> Option<(TableV, Seq<char>)> {
    match dec_str(s) {
        None => None,
        Some((name, s1)) => match dec_nat(s1) {
            None => None,
            Some((nc, s2)) => match dec_attrs(s2, nc) {
                None => None,
                Some((columns, s3)) => match dec_nat(s3) {
                    None => None,
                    Some((ns, s4)) => match dec_stores(s4, ns) {
                        None => None,
                        Some((stores, s5)) => {
                            let t = TableV { name, columns, stores };
                            if table_wf(t) {
                                Some((t, s5))
                            } else {
                                None
                            }
                        },
                    },
                },
            },
        },
    }
}

pub open spec fn dec_tables(s: Seq<char>, n: nat) -> Option<(Seq<TableV>, Seq<char>)>
    decreases n,
{
    if n == 0 {
        Some((Seq::<TableV>::empty(), s))
    } else {
        match dec_table(s) {
            None => None,
            Some((x, rest)) => match dec_tables(rest, (n - 1) as nat) {
                None => None,
                Some((v, rest2)) => Some((seq![x] + v, rest2)),
            },
        }
    }
}

/// The whole registry; the encoding must be consumed exactly.
pub open spec fn dec_db(s: Seq<char>) -> Option<DbV> {
    match dec_str(s) {
        None => None,
        Some((name, s1)) => match dec_nat(s1) {
            None => None,
            Some((nt, s2)) => match dec_tables(s2, nt) {
                None => None,
                Some((tables, rest)) => if rest.len() == 0 {
                    Some(DbV { name, tables })
                } else {
                    None
                },
            },
        },
    }
}

// ---------------------------------------------------------------------
// the round trip: decoding an encoding gives the value back
// ---------------------------------------------------------------------
/// Lengths the number encoding can carry.
pub open spec fn attr_bounded(a: AttrV) -> bool {
    &&& a.name.len() <= u64::MAX
    &&& match a.default {
        Some(s) => s.len() <= u64::MAX,
        None => true,
    }
}

pub open spec fn store_bounded(s: StoreV) -> bool {
    &&& store_len(s) <= u64::MAX
    &&& match s {
        StoreV::Strs(v) => forall|i: int| 0 <= i < v.len() ==> (#[trigger] v[i]).len() <= u64::MAX,
        StoreV::Floats(v) => forall|i: int|
            0 <= i < v.len() ==> (#[trigger] v[i]).frac.len() <= u64::MAX,
        _ => true,
    }
}

pub open spec fn table_bounded(t: TableV) -> bool {
    &&& t.name.len() <= u64::MAX
    &&& t.columns.len() <= u64::MAX
    &&& t.stores.len() <= u64::MAX
    &&& forall|i: int| 0 <= i < t.columns.len() ==> attr_bounded(#[trigger] t.columns[i])
    &&& forall|i: int| 0 <= i < t.stores.len() ==> store_bounded(#[trigger] t.stores[i])
}

pub open spec fn db_bounded(d: DbV) -> bool {
    &&& d.name.len() <= u64::MAX
    &&& d.tables.len() <= u64::MAX
    &&& forall|i: int| 0 <= i < d.tables.len() ==> table_bounded(#[trigger] d.tables[i])
}

proof fn lemma_digit_run_of(d: Seq<char>, rest: Seq<char>)
    requires
        all_digits(d),
        rest.len() > 0,
        !is_digit_char(rest[0]),
    ensures
        digit_run(d + rest) == d.len(),
    decreases d.len(),
{
    if d.len() == 0 {
        assert(d + rest =~= rest);
    } else {
        assert((d + rest)[0] == d[0]);
        assert((d + rest).skip(1) =~= d.skip(1) + rest);
        assert(all_digits(d.skip(1)));
        lemma_digit_run_of(d.skip(1), rest);
    }
}

proof fn lemma_dec_nat_rt(n: nat, rest: Seq<char>)
    requires
        n <= u64::MAX,
    ensures
        dec_nat(enc_nat(n) + rest) == Some((n, rest)),
{
    lemma_dec_digits_are_digits(n);
    lemma_dec_digits_val(n);
    let d = dec_digits(n);
    let s = enc_nat(n) + rest;
    assert(s =~= d + (seq![';'] + rest));
    assert((seq![';'] + rest)[0] == ';');
    lemma_digit_run_of(d, seq![';'] + rest);
    assert(digit_run(s) == d.len());
    assert(s[d.len() as int] == ';') by {
        assert(s[d.len() as int] == (seq![';'] + rest)[0]);
    }
    assert(s.take(d.len() as int) =~= d);
    assert(s.skip(d.len() as int + 1) =~= rest);
}

proof fn lemma_dec_str_rt(x: Seq<char>, rest: Seq<char>)
    requires
        x.len() <= u64::MAX,
    ensures
        dec_str(enc_str(x) + rest) == Some((x, rest)),
{
    let s = enc_str(x) + rest;
    assert(s =~= enc_nat(x.len()) + (x + rest));
    lemma_dec_nat_rt(x.len(), x + rest);
    assert((x + rest).take(x.len() as int) =~= x);
    assert((x + rest).skip(x.len() as int) =~= rest);
}

proof fn lemma_dec_bool_rt(b: bool, rest: Seq<char>)
    ensures
        dec_bool(enc_bool(b) + rest) == Some((b, rest)),
{
    let s = enc_bool(b) + rest;
    assert(s[0] == (if b {
        'T'
    } else {
        'F'
    }));
    assert(s.skip(1) =~= rest);
}

proof fn lemma_dec_opt_str_rt(o: Option<Seq<char>>, rest: Seq<char>)
    requires
        match o {
            Some(x) => x.len() <= u64::MAX,
            None => true,
        },
    ensures
        dec_opt_str(enc_opt_str(o) + rest) == Some((o, rest)),
{
    let s = enc_opt_str(o) + rest;
    match o {
        None => {
            assert(s[0] == 'N');
            assert(s.skip(1) =~= rest);
        },
        Some(x) => {
            assert(s[0] == 'S');
            assert(s.skip(1) =~= enc_str(x) + rest);
            lemma_dec_str_rt(x, rest);
        },
    }
}

proof fn lemma_dec_dt_rt(dt: DataType, rest: Seq<char>)
    ensures
        dec_dt(enc_dt(dt) + rest) == Some((dt, rest)),
{
    let s = enc_dt(dt) + rest;
    assert(s.skip(1) =~= rest);
    match dt {
        DataType::Float => {
            assert(s[0] == 'f');
        },
        DataType::Int => {
            assert(s[0] == 'i');
        },
        DataType::Bool => {
            assert(s[0] == 'b');
        },
        DataType::String => {
            assert(s[0] == 's');
        },
        DataType::Invalid => {
            assert(s[0] == 'x');
        },
    }
}

proof fn lemma_dec_i32_rt(n: i32, rest: Seq<char>)
    ensures
        dec_i32(enc_i32(n) + rest) == Some((n, rest)),
{
    let s = enc_i32(n) + rest;
    if n < 0 {
        let mag = (-(n as int)) as nat;
        assert(s[0] == '-');
        assert(s.skip(1) =~= enc_nat(mag) + rest);
        lemma_dec_nat_rt(mag, rest);
        assert(0 < mag <= 0x8000_0000);
    } else {
        assert(s =~= enc_nat(n as nat) + rest);
        lemma_dec_nat_rt(n as nat, rest);
        lemma_dec_digits_are_digits(n as nat);
        assert(s[0] == dec_digits(n as nat)[0]) by {
            assert(s =~= dec_digits(n as nat) + (seq![';'] + rest));
        }
        assert(is_digit_char(s[0]));
        assert(s[0] != '-');
    }
}

proof fn lemma_dec_frac_rt(frac: Seq<u8>, rest: Seq<char>)
    requires
        forall|i: int| 0 <= i < frac.len() ==> #[trigger] frac[i] < 10,
    ensures
        dec_frac(frac.map_values(|x: u8| digit_char(x as nat)) + rest, frac.len()) == Some(
            (frac, rest),
        ),
    decreases frac.len(),
{
    let chars = frac.map_values(|x: u8| digit_char(x as nat));
    let s = chars + rest;
    if frac.len() == 0 {
        assert(s =~= rest);
    } else {
        lemma_digit_char_val(frac[0] as nat);
        assert(s[0] == digit_char(frac[0] as nat));
        assert(is_digit_char(s[0]));
        assert(digit_val(s[0]) == frac[0]);
        assert(s.skip(1) =~= frac.skip(1).map_values(|x: u8| digit_char(x as nat)) + rest);
        assert(forall|i: int| 0 <= i < frac.skip(1).len() ==> #[trigger] frac.skip(1)[i] < 10);
        lemma_dec_frac_rt(frac.skip(1), rest);
        assert(seq![digit_val(s[0]) as u8] + frac.skip(1) =~= frac);
    }
}

proof fn lemma_dec_dec_rt(d: DecV, rest: Seq<char>)
    requires
        dec_wf(d),
        d.frac.len() <= u64::MAX,
    ensures
        dec_dec(enc_dec(d) + rest) == Some((d, rest)),
{
    let fchars = d.frac.map_values(|x: u8| digit_char(x as nat));
    let s = enc_dec(d) + rest;
    assert(s =~= enc_bool(d.neg) + (enc_nat(d.ip as nat) + (enc_nat(d.frac.len()) + (fchars
        + rest))));
    lemma_dec_bool_rt(d.neg, enc_nat(d.ip as nat) + (enc_nat(d.frac.len()) + (fchars + rest)));
    lemma_dec_nat_rt(d.ip as nat, enc_nat(d.frac.len()) + (fchars + rest));
    lemma_dec_nat_rt(d.frac.len(), fchars + rest);
    lemma_dec_frac_rt(d.frac, rest);
    assert(DecV { neg: d.neg, ip: d.ip as nat as u64, frac: d.frac } =~= d);
}

proof fn lemma_dec_attr_rt(a: AttrV, rest: Seq<char>)
    requires
        attr_bounded(a),
    ensures
        dec_attr(enc_attr(a) + rest) == Some((a, rest)),
{
    let s = enc_attr(a) + rest;
    let r4 = enc_opt_str(a.default) + rest;
    let r3 = enc_bool(a.is_nullable) + r4;
    let r2 = enc_bool(a.is_pk) + r3;
    let r1 = enc_dt(a.datatype) + r2;
    assert(s =~= enc_str(a.name) + r1);
    lemma_dec_str_rt(a.name, r1);
    lemma_dec_dt_rt(a.datatype, r2);
    lemma_dec_bool_rt(a.is_pk, r3);
    lemma_dec_bool_rt(a.is_nullable, r4);
    lemma_dec_opt_str_rt(a.default, rest);
    assert(AttrV {
        name: a.name,
        datatype: a.datatype,
        is_pk: a.is_pk,
        is_nullable: a.is_nullable,
        default: a.default,
    } =~= a);
}

proof fn lemma_dec_i32s_rt(v: Seq<i32>, rest: Seq<char>)
    ensures
        dec_i32s(enc_i32s(v) + rest, v.len()) == Some((v, rest)),
    decreases v.len(),
{
    if v.len() == 0 {
        assert(enc_i32s(v) + rest =~= rest);
    } else {
        let s = enc_i32s(v) + rest;
        assert(s =~= enc_i32(v[0]) + (enc_i32s(v.skip(1)) + rest));
        lemma_dec_i32_rt(v[0], enc_i32s(v.skip(1)) + rest);
        lemma_dec_i32s_rt(v.skip(1), rest);
        assert(seq![v[0]] + v.skip(1) =~= v);
    }
}

proof fn lemma_dec_decs_rt(v: Seq<DecV>, rest: Seq<char>)
    requires
        forall|i: int| 0 <= i < v.len() ==> dec_wf(#[trigger] v[i]),
        forall|i: int| 0 <= i < v.len() ==> (#[trigger] v[i]).frac.len() <= u64::MAX,
    ensures
        dec_decs(enc_decs(v) + rest, v.len()) == Some((v, rest)),
    decreases v.len(),
{
    if v.len() == 0 {
        assert(enc_decs(v) + rest =~= rest);
    } else {
        let s = enc_decs(v) + rest;
        assert(s =~= enc_dec(v[0]) + (enc_decs(v.skip(1)) + rest));
        lemma_dec_dec_rt(v[0], enc_decs(v.skip(1)) + rest);
        lemma_dec_decs_rt(v.skip(1), rest);
        assert(seq![v[0]] + v.skip(1) =~= v);
    }
}

proof fn lemma_dec_strs_rt(v: Seq<Seq<char>>, rest: Seq<char>)
    requires
        forall|i: int| 0 <= i < v.len() ==> (#[trigger] v[i]).len() <= u64::MAX,
    ensures
        dec_strs(enc_strs(v) + rest, v.len()) == Some((v, rest)),
    decreases v.len(),
{
    if v.len() == 0 {
        assert(enc_strs(v) + rest =~= rest);
    } else {
        let s = enc_strs(v) + rest;
        assert(s =~= enc_str(v[0]) + (enc_strs(v.skip(1)) + rest));
        lemma_dec_str_rt(v[0], enc_strs(v.skip(1)) + rest);
        lemma_dec_strs_rt(v.skip(1), rest);
        assert(seq![v[0]] + v.skip(1) =~= v);
    }
}

proof fn lemma_dec_bools_rt(v: Seq<bool>, rest: Seq<char>)
    ensures
        dec_bools(enc_bools(v) + rest, v.len()) == Some((v, rest)),
    decreases v.len(),
{
    if v.len() == 0 {
        assert(enc_bools(v) + rest =~= rest);
    } else {
        let s = enc_bools(v) + rest;
        assert(s =~= enc_bool(v[0]) + (enc_bools(v.skip(1)) + rest));
        lemma_dec_bool_rt(v[0], enc_bools(v.skip(1)) + rest);
        lemma_dec_bools_rt(v.skip(1), rest);
        assert(seq![v[0]] + v.skip(1) =~= v);
    }
}

#[verifier::rlimit(60)]
proof fn lemma_dec_attrs_rt(v: Seq<AttrV>, rest: Seq<char>)
    requires
        forall|i: int| 0 <= i < v.len() ==> attr_bounded(#[trigger] v[i]),
    ensures
        dec_attrs(enc_attrs(v) + rest, v.len()) == Some((v, rest)),
    decreases v.len(),
{
    if v.len() == 0 {
        assert(enc_attrs(v) + rest =~= rest);
    } else {
        let s = enc_attrs(v) + rest;
        assert(s =~= enc_attr(v[0]) + (enc_attrs(v.skip(1)) + rest));
        lemma_dec_attr_rt(v[0], enc_attrs(v.skip(1)) + rest);
        lemma_dec_attrs_rt(v.skip(1), rest);
        assert(seq![v[0]] + v.skip(1) =~= v);
    }
}

proof fn lemma_dec_store_rt(st: StoreV, rest: Seq<char>)
    requires
        store_wf(st),
        store_bounded(st),
    ensures
        dec_store(enc_store(st) + rest) == Some((st, rest)),
{
    let s = enc_store(st) + rest;
    match st {
        StoreV::Missing => {
            assert(s[0] == 'X');
            assert(s.skip(1) =~= rest);
        },
        StoreV::Ints(v) => {
            assert(s[0] == 'I');
            assert(s.skip(1) =~= enc_nat(v.len()) + (enc_i32s(v) + rest));
            lemma_dec_nat_rt(v.len(), enc_i32s(v) + rest);
            lemma_dec_i32s_rt(v, rest);
        },
        StoreV::Floats(v) => {
            assert(s[0] == 'D');
            assert(s.skip(1) =~= enc_nat(v.len()) + (enc_decs(v) + rest));
            lemma_dec_nat_rt(v.len(), enc_decs(v) + rest);
            assert forall|i: int| 0 <= i < v.len() implies (#[trigger] v[i]).frac.len()
                <= u64::MAX by {}
            lemma_dec_decs_rt(v, rest);
        },
        StoreV::Strs(v) => {
            assert(s[0] == 'S');
            assert(s.skip(1) =~= enc_nat(v.len()) + (enc_strs(v) + rest));
            lemma_dec_nat_rt(v.len(), enc_strs(v) + rest);
            lemma_dec_strs_rt(v, rest);
        },
        StoreV::Bools(v) => {
            assert(s[0] == 'B');
            assert(s.skip(1) =~= enc_nat(v.len()) + (enc_bools(v) + rest));
            lemma_dec_nat_rt(v.len(), enc_bools(v) + rest);
            lemma_dec_bools_rt(v, rest);
        },
    }
}

proof fn lemma_dec_stores_rt(v: Seq<StoreV>, rest: Seq<char>)
    requires
        forall|i: int| 0 <= i < v.len() ==> store_wf(#[trigger] v[i]),
        forall|i: int| 0 <= i < v.len() ==> store_bounded(#[trigger] v[i]),
    ensures
        dec_stores(enc_stores(v) + rest, v.len()) == Some((v, rest)),
    decreases v.len(),
{
    if v.len() == 0 {
        assert(enc_stores(v) + rest =~= rest);
    } else {
        let s = enc_stores(v) + rest;
        assert(s =~= enc_store(v[0]) + (enc_stores(v.skip(1)) + rest));
        lemma_dec_store_rt(v[0], enc_stores(v.skip(1)) + rest);
        lemma_dec_stores_rt(v.skip(1), rest);
        assert(seq![v[0]] + v.skip(1) =~= v);
    }
}

proof fn lemma_dec_table_rt(t: TableV, rest: Seq<char>)
    requires
        table_wf(t),
        table_bounded(t),
    ensures
        dec_table(enc_table(t) + rest) == Some((t, rest)),
{
    let s = enc_table(t) + rest;
    let r4 = enc_stores(t.stores) + rest;
    let r3 = enc_nat(t.stores.len()) + r4;
    let r2 = enc_attrs(t.columns) + r3;
    let r1 = enc_nat(t.columns.len()) + r2;
    assert(s =~= enc_str(t.name) + r1);
    lemma_dec_str_rt(t.name, r1);
    lemma_dec_nat_rt(t.columns.len(), r2);
    lemma_dec_attrs_rt(t.columns, r3);
    lemma_dec_nat_rt(t.stores.len(), r4);
    lemma_dec_stores_rt(t.stores, rest);
    assert(TableV { name: t.name, columns: t.columns, stores: t.stores } =~= t);
    assert(table_wf(TableV { name: t.name, columns: t.columns, stores: t.stores }));
}

#[verifier::rlimit(60)]
proof fn lemma_dec_tables_rt(v: Seq<TableV>, rest: Seq<char>)
    requires
        forall|i: int| 0 <= i < v.len() ==> table_wf(#[trigger] v[i]),
        forall|i: int| 0 <= i < v.len() ==> table_bounded(#[trigger] v[i]),
    ensures
        dec_tables(enc_tables(v) + rest, v.len()) == Some((v, rest)),
    decreases v.len(),
{
    if v.len() == 0 {
        assert(enc_tables(v) + rest =~= rest);
    } else {
        let s = enc_tables(v) + rest;
        assert(s =~= enc_table(v[0]) + (enc_tables(v.skip(1)) + rest));
        lemma_dec_table_rt(v[0], enc_tables(v.skip(1)) + rest);
        lemma_dec_tables_rt(v.skip(1), rest);
        assert(seq![v[0]] + v.skip(1) =~= v);
    }
}

/// The snapshot law: decoding the encoding of any well-formed registry
/// gives back a structurally equal registry — schema order, column order
/// and row order included.
pub proof fn lemma_snapshot_round_trip(d: DbV)
    requires
        db_wf(d),
        db_bounded(d),
    ensures
        dec_db(enc_db(d)) == Some(d),
{
    let s = enc_db(d);
    let r2 = enc_tables(d.tables) + Seq::<char>::empty();
    let r1 = enc_nat(d.tables.len()) + r2;
    assert(s =~= enc_str(d.name) + r1);
    lemma_dec_str_rt(d.name, r1);
    lemma_dec_nat_rt(d.tables.len(), r2);
    assert forall|i: int| 0 <= i < d.tables.len() implies table_wf(#[trigger] d.tables[i])
        && table_bounded(d.tables[i]) by {}
    lemma_dec_tables_rt(d.tables, Seq::<char>::empty());
    assert(DbV { name: d.name, tables: d.tables } =~= d);
}

// ---------------------------------------------------------------------
// the executable encoder
// ---------------------------------------------------------------------
proof fn lemma_enc_i32s_snoc(v: Seq<i32>, x: i32)
    ensures
        enc_i32s(v.push(x)) == enc_i32s(v) + enc_i32(x),
    decreases v.len(),
{
    if v.len() == 0 {
        assert(v.push(x)[0] == x);
        assert(v.push(x).skip(1) =~= v);
        assert(enc_i32s(v) == Seq::<char>::empty());
        assert(enc_i32s(v.push(x)) == enc_i32(x) + enc_i32s(v));
        assert(enc_i32(x) + Seq::<char>::empty() =~= enc_i32(x));
        assert(Seq::<char>::empty() + enc_i32(x) =~= enc_i32(x));
    } else {
        assert(v.push(x)[0] == v[0]);
        assert(v.push(x).skip(1) =~= v.skip(1).push(x));
        lemma_enc_i32s_snoc(v.skip(1), x);
        assert(enc_i32(v[0]) + (enc_i32s(v.skip(1)) + enc_i32(x)) =~= enc_i32s(v) + enc_i32(x));
    }
}

proof fn lemma_enc_decs_snoc(v: Seq<DecV>, x: DecV)
    ensures
        enc_decs(v.push(x)) == enc_decs(v) + enc_dec(x),
    decreases v.len(),
{
    if v.len() == 0 {
        assert(v.push(x)[0] == x);
        assert(v.push(x).skip(1) =~= v);
        assert(enc_decs(v) == Seq::<char>::empty());
        assert(enc_decs(v.push(x)) == enc_dec(x) + enc_decs(v));
        assert(enc_dec(x) + Seq::<char>::empty() =~= enc_dec(x));
        assert(Seq::<char>::empty() + enc_dec(x) =~= enc_dec(x));
    } else {
        assert(v.push(x)[0] == v[0]);
        assert(v.push(x).skip(1) =~= v.skip(1).push(x));
        lemma_enc_decs_snoc(v.skip(1), x);
        assert(enc_dec(v[0]) + (enc_decs(v.skip(1)) + enc_dec(x)) =~= enc_decs(v) + enc_dec(x));
    }
}

proof fn lemma_enc_strs_snoc(v: Seq<Seq<char>>, x: Seq<char>)
    ensures
        enc_strs(v.push(x)) == enc_strs(v) + enc_str(x),
    decreases v.len(),
{
    if v.len() == 0 {
        assert(v.push(x)[0] == x);
        assert(v.push(x).skip(1) =~= v);
        assert(enc_strs(v) == Seq::<char>::empty());
        assert(enc_strs(v.push(x)) == enc_str(x) + enc_strs(v));
        assert(enc_str(x) + Seq::<char>::empty() =~= enc_str(x));
        assert(Seq::<char>::empty() + enc_str(x) =~= enc_str(x));
    } else {
        assert(v.push(x)[0] == v[0]);
        assert(v.push(x).skip(1) =~= v.skip(1).push(x));
        lemma_enc_strs_snoc(v.skip(1), x);
        assert(enc_str(v[0]) + (enc_strs(v.skip(1)) + enc_str(x)) =~= enc_strs(v) + enc_str(x));
    }
}

proof fn lemma_enc_bools_snoc(v: Seq<bool>, x: bool)
    ensures
        enc_bools(v.push(x)) == enc_bools(v) + enc_bool(x),
    decreases v.len(),
{
    if v.len() == 0 {
        assert(v.push(x)[0] == x);
        assert(v.push(x).skip(1) =~= v);
        assert(enc_bools(v) == Seq::<char>::empty());
        assert(enc_bools(v.push(x)) == enc_bool(x) + enc_bools(v));
        assert(enc_bool(x) + Seq::<char>::empty() =~= enc_bool(x));
        assert(Seq::<char>::empty() + enc_bool(x) =~= enc_bool(x));
    } else {
        assert(v.push(x)[0] == v[0]);
        assert(v.push(x).skip(1) =~= v.skip(1).push(x));
        lemma_enc_bools_snoc(v.skip(1), x);
        assert(enc_bool(v[0]) + (enc_bools(v.skip(1)) + enc_bool(x)) =~= enc_bools(v) + enc_bool(
            x,
        ));
    }
}

proof fn lemma_enc_attrs_snoc(v: Seq<AttrV>, x: AttrV)
    ensures
        enc_attrs(v.push(x)) == enc_attrs(v) + enc_attr(x),
    decreases v.len(),
{
    if v.len() == 0 {
        assert(v.push(x)[0] == x);
        assert(v.push(x).skip(1) =~= v);
        assert(enc_attrs(v) == Seq::<char>::empty());
        assert(enc_attrs(v.push(x)) == enc_attr(x) + enc_attrs(v));
        assert(enc_attr(x) + Seq::<char>::empty() =~= enc_attr(x));
        assert(Seq::<char>::empty() + enc_attr(x) =~= enc_attr(x));
    } else {
        assert(v.push(x)[0] == v[0]);
        assert(v.push(x).skip(1) =~= v.skip(1).push(x));
        lemma_enc_attrs_snoc(v.skip(1), x);
        assert(enc_attr(v[0]) + (enc_attrs(v.skip(1)) + enc_attr(x)) =~= enc_attrs(v) + enc_attr(
            x,
        ));
    }
}

proof fn lemma_enc_stores_snoc(v: Seq<StoreV>, x: StoreV)
    ensures
        enc_stores(v.push(x)) == enc_stores(v) + enc_store(x),
    decreases v.len(),
{
    if v.len() == 0 {
        assert(v.push(x)[0] == x);
        assert(v.push(x).skip(1) =~= v);
        assert(enc_stores(v) == Seq::<char>::empty());
        assert(enc_stores(v.push(x)) == enc_store(x) + enc_stores(v));
        assert(enc_store(x) + Seq::<char>::empty() =~= enc_store(x));
        assert(Seq::<char>::empty() + enc_store(x) =~= enc_store(x));
    } else {
        assert(v.push(x)[0] == v[0]);
        assert(v.push(x).skip(1) =~= v.skip(1).push(x));
        lemma_enc_stores_snoc(v.skip(1), x);
        assert(enc_store(v[0]) + (enc_stores(v.skip(1)) + enc_store(x)) =~= enc_stores(v)
            + enc_store(x));
    }
}

proof fn lemma_enc_tables_snoc(v: Seq<TableV>, x: TableV)
    ensures
        enc_tables(v.push(x)) == enc_tables(v) + enc_table(x),
    decreases v.len(),
{
    if v.len() == 0 {
        assert(v.push(x)[0] == x);
        assert(v.push(x).skip(1) =~= v);
        assert(enc_tables(v) == Seq::<char>::empty());
        assert(enc_tables(v.push(x)) == enc_table(x) + enc_tables(v));
        assert(enc_table(x) + Seq::<char>::empty() =~= enc_table(x));
        assert(Seq::<char>::empty() + enc_table(x) =~= enc_table(x));
    } else {
        assert(v.push(x)[0] == v[0]);
        assert(v.push(x).skip(1) =~= v.skip(1).push(x));
        lemma_enc_tables_snoc(v.skip(1), x);
        assert(enc_table(v[0]) + (enc_tables(v.skip(1)) + enc_table(x)) =~= enc_tables(v)
            + enc_table(x));
    }
}

/// Appends every character of `v`.
fn append_chars(out: &mut Vec<char>, v: &Vec<char>)
    ensures
        final(out)@ == old(out)@ + v@,
{
    let mut i: usize = 0;
    while i < v.len()
        invariant
            i <= v@.len(),
            out@ =~= old(out)@ + v@.take(i as int),
        decreases v@.len() - i,
    {
        out.push(v[i]);
        proof {
            assert(out@ =~= old(out)@ + v@.take(i + 1));
        }
        i = i + 1;
    }
    proof {
        assert(out@ =~= old(out)@ + v@);
    }
}

/// Appends `enc_nat(n)`.
fn push_nat(out: &mut Vec<char>, n: u64)
    ensures
        final(out)@ == old(out)@ + enc_nat(n as nat),
{
    let digits = crate::num::u64_digits(n);
    append_chars(out, &digits);
    out.push(';');
    proof {
        assert(out@ =~= old(out)@ + enc_nat(n as nat));
    }
}

/// Appends `enc_str(s@)`.
fn push_str(out: &mut Vec<char>, s: &String)
    ensures
        final(out)@ == old(out)@ + enc_str(s@),
{
    let cs = crate::text::str_to_chars(s.as_str());
    push_nat(out, cs.len() as u64);
    append_chars(out, &cs);
    proof {
        assert(out@ =~= old(out)@ + enc_str(s@));
    }
}

/// Appends `enc_bool(b)`.
fn push_bool(out: &mut Vec<char>, b: bool)
    ensures
        final(out)@ == old(out)@ + enc_bool(b),
{
    if b {
        out.push('T');
    } else {
        out.push('F');
    }
    proof {
        assert(out@ =~= old(out)@ + enc_bool(b));
    }
}

/// Appends `enc_dt(dt)`.
fn push_dt(out: &mut Vec<char>, dt: DataType)
    ensures
        final(out)@ == old(out)@ + enc_dt(dt),
{
    let c: char = match dt {
        DataType::Float => 'f',
        DataType::Int => 'i',
        DataType::Bool => 'b',
        DataType::String => 's',
        DataType::Invalid => 'x',
    };
    out.push(c);
    proof {
        assert(out@ =~= old(out)@ + enc_dt(dt));
    }
}

/// Appends `enc_i32(n)`.
fn push_i32(out: &mut Vec<char>, n: i32)
    ensures
        final(out)@ == old(out)@ + enc_i32(n),
{
    let digits = crate::num::i32_digits(n);
    append_chars(out, &digits);
    out.push(';');
    proof {
        if n < 0 {
            assert(out@ =~= old(out)@ + enc_i32(n));
        } else {
            assert(out@ =~= old(out)@ + enc_i32(n));
        }
    }
}

/// Appends `enc_dec(d@)`.
fn push_dec(out: &mut Vec<char>, d: &crate::decimal::Decimal)
    requires
        dec_wf(d@),
    ensures
        final(out)@ == old(out)@ + enc_dec(d@),
{
    push_bool(out, d.neg);
    push_nat(out, d.int_part);
    push_nat(out, d.frac.len() as u64);
    let ghost base = out@;
    let mut i: usize = 0;
    while i < d.frac.len()
        invariant
            i <= d.frac@.len(),
            dec_wf(d@),
            out@ =~= base + d@.frac.take(i as int).map_values(|x: u8| digit_char(x as nat)),
        decreases d.frac@.len() - i,
    {
        let dg = d.frac[i];
        proof {
            assert(d@.frac[i as int] < 10);
            lemma_digit_char_val(dg as nat);
        }
        out.push((dg + 48) as char);
        proof {
            assert(d@.frac.take(i + 1).map_values(|x: u8| digit_char(x as nat)) =~= d@.frac.take(
                i as int,
            ).map_values(|x: u8| digit_char(x as nat)).push(digit_char(d@.frac[i as int] as nat)));
            assert(out@ =~= base + d@.frac.take(i + 1).map_values(|x: u8| digit_char(x as nat)));
        }
        i = i + 1;
    }
    proof {
        assert(d@.frac.take(d@.frac.len() as int) =~= d@.frac);
        assert(out@ =~= old(out)@ + enc_dec(d@));
    }
}

/// Appends `enc_attr(a@)`.
fn push_attr(out: &mut Vec<char>, a: &crate::base::ColumnAttr)
    ensures
        final(out)@ == old(out)@ + enc_attr(a@),
{
    push_str(out, &a.name);
    push_dt(out, a.datatype);
    push_bool(out, a.is_pk);
    push_bool(out, a.is_nullable);
    match &a.default {
        None => {
            out.push('N');
        },
        Some(s) => {
            out.push('S');
            push_str(out, s);
        },
    }
    proof {
        assert(out@ =~= old(out)@ + enc_attr(a@));
    }
}

/// Appends `enc_store(s@)`.
fn push_store(out: &mut Vec<char>, s: &crate::base::ColumnData)
    requires
        store_wf(s@),
    ensures
        final(out)@ == old(out)@ + enc_store(s@),
{
    match s {
        crate::base::ColumnData::Invalid => {
            out.push('X');
            proof {
                assert(out@ =~= old(out)@ + enc_store(s@));
            }
        },
        crate::base::ColumnData::Int(v) => {
            out.push('I');
            push_nat(out, v.len() as u64);
            let ghost base = out@;
            let mut i: usize = 0;
            proof {
                assert(enc_i32s(v@.take(0)) =~= Seq::<char>::empty());
                assert(out@ =~= base + enc_i32s(v@.take(0)));
            }
            while i < v.len()
                invariant
                    i <= v@.len(),
                    out@ =~= base + enc_i32s(v@.take(i as int)),
                decreases v@.len() - i,
            {
                push_i32(out, v[i]);
                proof {
                    assert(v@.take(i + 1) =~= v@.take(i as int).push(v@[i as int]));
                    lemma_enc_i32s_snoc(v@.take(i as int), v@[i as int]);
                    assert(out@ =~= base + enc_i32s(v@.take(i + 1)));
                }
                i = i + 1;
            }
            proof {
                assert(v@.take(v@.len() as int) =~= v@);
                assert(out@ =~= old(out)@ + enc_store(s@));
            }
        },
        crate::base::ColumnData::Float(v) => {
            out.push('D');
            push_nat(out, v.len() as u64);
            let ghost vm = v@.map_values(|d: crate::decimal::Decimal| d@);
            let ghost base = out@;
            let mut i: usize = 0;
            proof {
                assert(enc_decs(vm.take(0)) =~= Seq::<char>::empty());
                assert(out@ =~= base + enc_decs(vm.take(0)));
            }
            while i < v.len()
                invariant
                    i <= v@.len(),
                    vm == v@.map_values(|d: crate::decimal::Decimal| d@),
                    s@ == StoreV::Floats(vm),
                    store_wf(s@),
                    out@ =~= base + enc_decs(vm.take(i as int)),
                decreases v@.len() - i,
            {
                proof {
                    assert(vm.len() == v@.len());
                    assert(vm[i as int] == v@[i as int]@);
                    assert(store_wf(StoreV::Floats(vm)));
                    assert forall|k: int| 0 <= k < vm.len() implies dec_wf(#[trigger] vm[k]) by {
                        assert(store_wf(StoreV::Floats(vm)));
                    }
                    assert(dec_wf(vm[i as int]));
                }
                push_dec(out, &v[i]);
                proof {
                    assert(vm.take(i + 1) =~= vm.take(i as int).push(vm[i as int]));
                    lemma_enc_decs_snoc(vm.take(i as int), vm[i as int]);
                    assert(out@ =~= base + enc_decs(vm.take(i + 1)));
                }
                i = i + 1;
            }
            proof {
                assert(vm.take(vm.len() as int) =~= vm);
                assert(out@ =~= old(out)@ + enc_store(s@));
            }
        },
        crate::base::ColumnData::Str(v) => {
            out.push('S');
            push_nat(out, v.len() as u64);
            let ghost vm = v@.map_values(|x: String| x@);
            let ghost base = out@;
            let mut i: usize = 0;
            proof {
                assert(enc_strs(vm.take(0)) =~= Seq::<char>::empty());
                assert(out@ =~= base + enc_strs(vm.take(0)));
            }
            while i < v.len()
                invariant
                    i <= v@.len(),
                    vm == v@.map_values(|x: String| x@),
                    out@ =~= base + enc_strs(vm.take(i as int)),
                decreases v@.len() - i,
            {
                proof {
                    assert(vm[i as int] == v@[i as int]@);
                }
                push_str(out, &v[i]);
                proof {
                    assert(vm.take(i + 1) =~= vm.take(i as int).push(vm[i as int]));
                    lemma_enc_strs_snoc(vm.take(i as int), vm[i as int]);
                    assert(out@ =~= base + enc_strs(vm.take(i + 1)));
                }
                i = i + 1;
            }
            proof {
                assert(vm.take(vm.len() as int) =~= vm);
                assert(out@ =~= old(out)@ + enc_store(s@));
            }
        },
        crate::base::ColumnData::Bool(v) => {
            out.push('B');
            push_nat(out, v.len() as u64);
            let ghost base = out@;
            let mut i: usize = 0;
            proof {
                assert(enc_bools(v@.take(0)) =~= Seq::<char>::empty());
                assert(out@ =~= base + enc_bools(v@.take(0)));
            }
            while i < v.len()
                invariant
                    i <= v@.len(),
                    out@ =~= base + enc_bools(v@.take(i as int)),
                decreases v@.len() - i,
            {
                push_bool(out, v[i]);
                proof {
                    assert(v@.take(i + 1) =~= v@.take(i as int).push(v@[i as int]));
                    lemma_enc_bools_snoc(v@.take(i as int), v@[i as int]);
                    assert(out@ =~= base + enc_bools(v@.take(i + 1)));
                }
                i = i + 1;
            }
            proof {
                assert(v@.take(v@.len() as int) =~= v@);
                assert(out@ =~= old(out)@ + enc_store(s@));
            }
        },
    }
}

/// Appends `enc_table(t@)`.
fn push_table(out: &mut Vec<char>, t: &crate::table::Table)
    requires
        table_wf(t@),
    ensures
        final(out)@ == old(out)@ + enc_table(t@),
{
    push_str(out, &t.name);
    push_nat(out, t.columns.len() as u64);
    let ghost cm = t@.columns;
    let ghost base1 = out@;
    let mut i: usize = 0;
    proof {
        assert(enc_attrs(cm.take(0)) =~= Seq::<char>::empty());
        assert(out@ =~= base1 + enc_attrs(cm.take(0)));
    }
    while i < t.columns.len()
        invariant
            i <= t.columns@.len(),
            cm == t@.columns,
            out@ =~= base1 + enc_attrs(cm.take(i as int)),
        decreases t.columns@.len() - i,
    {
        proof {
            assert(cm[i as int] == t.columns@[i as int]@);
        }
        push_attr(out, &t.columns[i]);
        proof {
            assert(cm.take(i + 1) =~= cm.take(i as int).push(cm[i as int]));
            lemma_enc_attrs_snoc(cm.take(i as int), cm[i as int]);
            assert(out@ =~= base1 + enc_attrs(cm.take(i + 1)));
        }
        i = i + 1;
    }
    proof {
        assert(cm.take(cm.len() as int) =~= cm);
    }
    push_nat(out, t.stores.len() as u64);
    let ghost sm = t@.stores;
    let ghost base2 = out@;
    let mut j: usize = 0;
    proof {
        assert(enc_stores(sm.take(0)) =~= Seq::<char>::empty());
        assert(out@ =~= base2 + enc_stores(sm.take(0)));
    }
    while j < t.stores.len()
        invariant
            j <= t.stores@.len(),
            sm == t@.stores,
            table_wf(t@),
            out@ =~= base2 + enc_stores(sm.take(j as int)),
        decreases t.stores@.len() - j,
    {
        proof {
            assert(sm[j as int] == t.stores@[j as int]@);
            assert(store_wf(sm[j as int]));
        }
        push_store(out, &t.stores[j]);
        proof {
            assert(sm.take(j + 1) =~= sm.take(j as int).push(sm[j as int]));
            lemma_enc_stores_snoc(sm.take(j as int), sm[j as int]);
            assert(out@ =~= base2 + enc_stores(sm.take(j + 1)));
        }
        j = j + 1;
    }
    proof {
        assert(sm.take(sm.len() as int) =~= sm);
        assert(out@ =~= old(out)@ + enc_table(t@));
    }
}

/// Encodes a whole registry as its snapshot text.
pub fn encode_database(db: &crate::db::Database) -> (out: Vec<char>)
    requires
        db_wf(db@),
    ensures
        out@ == enc_db(db@),
{
    let mut out: Vec<char> = Vec::new();
    push_str(&mut out, &db.db_name);
    push_nat(&mut out, db.tables.len() as u64);
    let ghost tm = db@.tables;
    let ghost base = out@;
    let mut i: usize = 0;
    proof {
        assert(enc_tables(tm.take(0)) =~= Seq::<char>::empty());
        assert(out@ =~= base + enc_tables(tm.take(0)));
    }
    while i < db.tables.len()
        invariant
            i <= db.tables@.len(),
            tm == db@.tables,
            db_wf(db@),
            out@ =~= base + enc_tables(tm.take(i as int)),
        decreases db.tables@.len() - i,
    {
        proof {
            assert(tm[i as int] == db.tables@[i as int]@);
            assert(table_wf(tm[i as int]));
        }
        push_table(&mut out, &db.tables[i]);
        proof {
            assert(tm.take(i + 1) =~= tm.take(i as int).push(tm[i as int]));
            lemma_enc_tables_snoc(tm.take(i as int), tm[i as int]);
            assert(out@ =~= base + enc_tables(tm.take(i + 1)));
        }
        i = i + 1;
    }
    proof {
        assert(tm.take(tm.len() as int) =~= tm);
        assert(out@ =~= enc_db(db@));
    }
    out
}

// ---------------------------------------------------------------------
// the executable decoder
// ---------------------------------------------------------------------
proof fn lemma_digit_run_unique(s: Seq<char>, k: int)
    requires
        0 <= k <= s.len(),
        forall|j: int| 0 <= j < k ==> is_digit_char(#[trigger] s[j]),
        k < s.len() ==> !is_digit_char(s[k]),
    ensures
        digit_run(s) == k,
    decreases s.len(),
{
    if s.len() > 0 && is_digit_char(s[0]) {
        assert(k > 0);
        lemma_digit_run_unique(s.skip(1), k - 1);
        assert(forall|j: int| 0 <= j < k - 1 ==> is_digit_char(#[trigger] s.skip(1)[j]));
    }
}

/// Reads `enc_nat` at `pos`: the leading digit run and its closing
/// semicolon.
#[verifier::loop_isolation(false)]
fn read_nat(v: &Vec<char>, pos: usize) -> (r: Result<(u64, usize), Errors>)
    requires
        pos <= v@.len(),
    ensures
        match r {
            Ok((x, p2)) => pos <= p2 <= v@.len() && dec_nat(v@.skip(pos as int)) == Some(
                (x as nat, v@.skip(p2 as int)),
            ),
            Err(e) => e == Errors::PersistenceDecode && dec_nat(v@.skip(pos as int)) is None,
        },
{
    let ghost s = v@.skip(pos as int);
    let mut k: usize = pos;
    while k < v.len() && v[k] >= '0' && v[k] <= '9'
        invariant
            pos <= k <= v@.len(),
            forall|j: int| pos <= j < k ==> is_digit_char(#[trigger] v@[j]),
        decreases v@.len() - k,
    {
        k = k + 1;
    }
    proof {
        assert(forall|j: int| 0 <= j < k - pos ==> is_digit_char(#[trigger] s[j]));
        if k < v@.len() {
            assert(s[k - pos] == v@[k as int]);
            assert(!is_digit_char(s[k - pos]));
        }
        lemma_digit_run_unique(s, k - pos);
    }
    if k == pos {
        return Err(Errors::PersistenceDecode);
    }
    if k >= v.len() {
        return Err(Errors::PersistenceDecode);
    }
    if v[k] != ';' {
        proof {
            assert(s[k - pos] == v@[k as int]);
        }
        return Err(Errors::PersistenceDecode);
    }
    let digits = crate::text::sub_chars(v, pos, k);
    proof {
        assert(digits@ =~= s.take(k - pos));
    }
    match crate::num::parse_u64(&digits) {
        Some(n) => {
            proof {
                assert(s[k - pos] == v@[k as int]);
                assert(s.skip(k - pos + 1) =~= v@.skip(k + 1));
            }
            Ok((n, k + 1))
        },
        None => {
            proof {
                assert(crate::num::all_digits(digits@));
                assert(crate::num::parse_nat(digits@) is Some);
            }
            Err(Errors::PersistenceDecode)
        },
    }
}

/// Reads `enc_str` at `pos`.
#[verifier::loop_isolation(false)]
fn read_str(v: &Vec<char>, pos: usize) -> (r: Result<(String, usize), Errors>)
    requires
        pos <= v@.len(),
    ensures
        match r {
            Ok((x, p2)) => pos <= p2 <= v@.len() && dec_str(v@.skip(pos as int)) == Some(
                (x@, v@.skip(p2 as int)),
            ),
            Err(e) => e == Errors::PersistenceDecode && dec_str(v@.skip(pos as int)) is None,
        },
{
    let (n, p1) = match read_nat(v, pos) {
        Ok(x) => x,
        Err(e) => {
            return Err(e);
        },
    };
    if ((v.len() - p1) as u64) < n {
        proof {
            assert(v@.skip(p1 as int).len() < n);
        }
        return Err(Errors::PersistenceDecode);
    }
    let nn = n as usize;
    let chars = crate::text::sub_chars(v, p1, p1 + nn);
    let st = crate::text::chars_to_string(&chars);
    proof {
        assert(chars@ =~= v@.skip(p1 as int).take(n as int));
        assert(v@.skip(p1 as int).skip(n as int) =~= v@.skip(p1 + nn));
    }
    Ok((st, p1 + nn))
}

/// Reads `enc_bool` at `pos`.
fn read_bool(v: &Vec<char>, pos: usize) -> (r: Result<(bool, usize), Errors>)
    requires
        pos <= v@.len(),
    ensures
        match r {
            Ok((x, p2)) => pos <= p2 <= v@.len() && dec_bool(v@.skip(pos as int)) == Some(
                (x, v@.skip(p2 as int)),
            ),
            Err(e) => e == Errors::PersistenceDecode && dec_bool(v@.skip(pos as int)) is None,
        },
{
    let ghost s = v@.skip(pos as int);
    if pos >= v.len() {
        return Err(Errors::PersistenceDecode);
    }
    proof {
        assert(s[0] == v@[pos as int]);
        assert(s.skip(1) =~= v@.skip(pos + 1));
    }
    let c = v[pos];
    if c == 'T' {
        Ok((true, pos + 1))
    } else if c == 'F' {
        Ok((false, pos + 1))
    } else {
        Err(Errors::PersistenceDecode)
    }
}

/// Reads `enc_dt` at `pos`.
fn read_dt(v: &Vec<char>, pos: usize) -> (r: Result<(DataType, usize), Errors>)
    requires
        pos <= v@.len(),
    ensures
        match r {
            Ok((x, p2)) => pos <= p2 <= v@.len() && dec_dt(v@.skip(pos as int)) == Some(
                (x, v@.skip(p2 as int)),
            ),
            Err(e) => e == Errors::PersistenceDecode && dec_dt(v@.skip(pos as int)) is None,
        },
{
    let ghost s = v@.skip(pos as int);
    if pos >= v.len() {
        return Err(Errors::PersistenceDecode);
    }
    proof {
        assert(s[0] == v@[pos as int]);
        assert(s.skip(1) =~= v@.skip(pos + 1));
    }
    let c = v[pos];
    if c == 'f' {
        Ok((DataType::Float, pos + 1))
    } else if c == 'i' {
        Ok((DataType::Int, pos + 1))
    } else if c == 'b' {
        Ok((DataType::Bool, pos + 1))
    } else if c == 's' {
        Ok((DataType::String, pos + 1))
    } else if c == 'x' {
        Ok((DataType::Invalid, pos + 1))
    } else {
        Err(Errors::PersistenceDecode)
    }
}

/// Reads `enc_opt_str` at `pos`.
fn read_opt_str(v: &Vec<char>, pos: usize) -> (r: Result<(Option<String>, usize), Errors>)
    requires
        pos <= v@.len(),
    ensures
        match r {
            Ok((x, p2)) => pos <= p2 <= v@.len() && dec_opt_str(v@.skip(pos as int)) == Some(
                (
                    match x {
                        Some(y) => Some(y@),
                        None => None,
                    },
                    v@.skip(p2 as int),
                ),
            ),
            Err(e) => e == Errors::PersistenceDecode && dec_opt_str(v@.skip(pos as int)) is None,
        },
{
    let ghost s = v@.skip(pos as int);
    if pos >= v.len() {
        return Err(Errors::PersistenceDecode);
    }
    proof {
        assert(s[0] == v@[pos as int]);
        assert(s.skip(1) =~= v@.skip(pos + 1));
    }
    let c = v[pos];
    if c == 'N' {
        Ok((None, pos + 1))
    } else if c == 'S' {
        match read_str(v, pos + 1) {
            Ok((x, p2)) => Ok((Some(x), p2)),
            Err(e) => Err(e),
        }
    } else {
        Err(Errors::PersistenceDecode)
    }
}

/// Reads `enc_i32` at `pos`.
fn read_i32(v: &Vec<char>, pos: usize) -> (r: Result<(i32, usize), Errors>)
    requires
        pos <= v@.len(),
    ensures
        match r {
            Ok((x, p2)) => pos <= p2 <= v@.len() && dec_i32(v@.skip(pos as int)) == Some(
                (x, v@.skip(p2 as int)),
            ),
            Err(e) => e == Errors::PersistenceDecode && dec_i32(v@.skip(pos as int)) is None,
        },
{
    let ghost s = v@.skip(pos as int);
    if pos < v.len() && v[pos] == '-' {
        proof {
            assert(s[0] == v@[pos as int]);
            assert(s.skip(1) =~= v@.skip(pos + 1));
        }
        match read_nat(v, pos + 1) {
            Ok((n, p2)) => {
                if 0 < n && n <= 0x8000_0000 {
                    Ok(((-(n as i64)) as i32, p2))
                } else {
                    Err(Errors::PersistenceDecode)
                }
            },
            Err(e) => Err(e),
        }
    } else {
        proof {
            if pos < v@.len() {
                assert(s[0] == v@[pos as int]);
            }
            if s.len() > 0 && s[0] == '-' {
                assert(false);
            }
        }
        match read_nat(v, pos) {
            Ok((n, p2)) => {
                if n < 0x8000_0000 {
                    Ok((n as i32, p2))
                } else {
                    Err(Errors::PersistenceDecode)
                }
            },
            Err(e) => Err(e),
        }
    }
}

/// Reads `n` fraction digits at `pos`.
#[verifier::loop_isolation(false)]
fn read_frac(v: &Vec<char>, pos: usize, n: u64) -> (r: Result<(Vec<u8>, usize), Errors>)
    requires
        pos <= v@.len(),
    ensures
        match r {
            Ok((x, p2)) => pos <= p2 <= v@.len() && dec_frac(v@.skip(pos as int), n as nat)
                == Some((x@, v@.skip(p2 as int))) && forall|i: int|
                0 <= i < x@.len() ==> #[trigger] x@[i] < 10,
            Err(e) => e == Errors::PersistenceDecode && dec_frac(v@.skip(pos as int), n as nat)
                is None,
        },
{
    if ((v.len() - pos) as u64) < n {
        proof {
            lemma_dec_frac_short(v@.skip(pos as int), n as nat);
        }
        return Err(Errors::PersistenceDecode);
    }
    let nn = n as usize;
    let mut out: Vec<u8> = Vec::new();
    let mut i: usize = 0;
    while i < nn
        invariant
            nn == n,
            pos + nn <= v@.len(),
            i <= nn,
            out@.len() == i,
            forall|j: int| 0 <= j < i ==> #[trigger] out@[j] < 10 && out@[j] == digit_val(
                v@[pos + j],
            ) && is_digit_char(v@[pos + j]),
        decreases nn - i,
    {
        let c = v[pos + i];
        if c < '0' || c > '9' {
            proof {
                assert forall|j: int| 0 <= j < i implies is_digit_char(
                    #[trigger] v@.skip(pos as int)[j],
                ) by {
                    assert(out@[j] == digit_val(v@[pos + j]));
                    assert(is_digit_char(v@[pos + j]));
                    assert(v@.skip(pos as int)[j] == v@[pos + j]);
                }
                assert(v@.skip(pos as int)[i as int] == v@[pos + i]);
                lemma_dec_frac_nondigit(v@.skip(pos as int), n as nat, i as int);
            }
            return Err(Errors::PersistenceDecode);
        }
        let u: u32 = c as u32;
        proof {
            assert(u as int == c as int);
            assert(is_digit_char(c));
        }
        out.push((u - 48) as u8);
        i = i + 1;
    }
    proof {
        assert forall|j: int| 0 <= j < n implies is_digit_char(
            #[trigger] v@.skip(pos as int)[j],
        ) by {
            assert(out@[j] == digit_val(v@[pos + j]));
            assert(is_digit_char(v@[pos + j]));
            assert(v@.skip(pos as int)[j] == v@[pos + j]);
        }
        assert forall|j: int| 0 <= j < n implies #[trigger] out@[j] == digit_val(
            v@.skip(pos as int)[j],
        ) by {
            assert(out@[j] == digit_val(v@[pos + j]));
            assert(v@.skip(pos as int)[j] == v@[pos + j]);
        }
        lemma_dec_frac_ok(v@.skip(pos as int), n as nat, out@);
        assert(v@.skip(pos as int).skip(nn as int) =~= v@.skip(pos + nn));
        assert forall|j: int| 0 <= j < out@.len() implies #[trigger] out@[j] == digit_val(
            v@.skip(pos as int)[j],
        ) by {
            assert(v@.skip(pos as int)[j] == v@[pos + j]);
        }
    }
    Ok((out, pos + nn))
}

proof fn lemma_dec_frac_short(s: Seq<char>, n: nat)
    requires
        s.len() < n,
    ensures
        dec_frac(s, n) is None,
    decreases n,
{
    if n > 0 && s.len() > 0 && is_digit_char(s[0]) {
        lemma_dec_frac_short(s.skip(1), (n - 1) as nat);
    }
}

proof fn lemma_dec_frac_nondigit(s: Seq<char>, n: nat, i: int)
    requires
        0 <= i < n,
        i < s.len(),
        !is_digit_char(s[i]),
        forall|j: int| 0 <= j < i ==> is_digit_char(#[trigger] s[j]),
    ensures
        dec_frac(s, n) is None,
    decreases i,
{
    if i == 0 {
    } else {
        assert(is_digit_char(s[0]));
        lemma_dec_frac_nondigit(s.skip(1), (n - 1) as nat, i - 1);
        assert(forall|j: int| 0 <= j < i - 1 ==> is_digit_char(#[trigger] s.skip(1)[j]));
    }
}

proof fn lemma_dec_frac_ok(s: Seq<char>, n: nat, out: Seq<u8>)
    requires
        out.len() == n,
        n <= s.len(),
        forall|j: int| 0 <= j < n ==> is_digit_char(#[trigger] s[j]),
        forall|j: int| 0 <= j < n ==> #[trigger] out[j] == digit_val(s[j]),
    ensures
        dec_frac(s, n) == Some((out, s.skip(n as int))),
    decreases n,
{
    if n == 0 {
        assert(out =~= Seq::<u8>::empty());
        assert(s.skip(0) =~= s);
    } else {
        assert(is_digit_char(s[0]));
        lemma_dec_frac_ok(s.skip(1), (n - 1) as nat, out.skip(1));
        assert(forall|j: int| 0 <= j < n - 1 ==> is_digit_char(#[trigger] s.skip(1)[j]));
        assert forall|j: int| 0 <= j < n - 1 implies #[trigger] out.skip(1)[j] == digit_val(
            s.skip(1)[j],
        ) by {
            assert(out.skip(1)[j] == out[j + 1]);
            assert(s.skip(1)[j] == s[j + 1]);
        }
        assert(seq![digit_val(s[0]) as u8] + out.skip(1) =~= out);
        assert(s.skip(1).skip(n - 1) =~= s.skip(n as int));
    }
}

/// Reads `enc_dec` at `pos` and validates canonical form.
fn read_dec(v: &Vec<char>, pos: usize) -> (r: Result<(crate::decimal::Decimal, usize), Errors>)
    requires
        pos <= v@.len(),
    ensures
        match r {
            Ok((x, p2)) => pos <= p2 <= v@.len() && dec_dec(v@.skip(pos as int)) == Some(
                (x@, v@.skip(p2 as int)),
            ) && dec_wf(x@),
            Err(e) => e == Errors::PersistenceDecode && dec_dec(v@.skip(pos as int)) is None,
        },
{
    let (neg, p1) = match read_bool(v, pos) {
        Ok(x) => x,
        Err(e) => {
            return Err(e);
        },
    };
    let (ip, p2) = match read_nat(v, p1) {
        Ok(x) => x,
        Err(e) => {
            return Err(e);
        },
    };
    let (fl, p3) = match read_nat(v, p2) {
        Ok(x) => x,
        Err(e) => {
            return Err(e);
        },
    };
    let (frac, p4) = match read_frac(v, p3, fl) {
        Ok(x) => x,
        Err(e) => {
            return Err(e);
        },
    };
    let d = crate::decimal::Decimal { neg, int_part: ip, frac };
    let flen = d.frac.len();
    let wf_ok: bool = (if flen > 0 {
        d.frac[flen - 1] != 0
    } else {
        true
    }) && (!d.neg || d.int_part > 0 || flen > 0);
    if wf_ok {
        proof {
            assert(dec_wf(d@));
        }
        Ok((d, p4))
    } else {
        proof {
            assert(!dec_wf(d@));
        }
        Err(Errors::PersistenceDecode)
    }
}

/// Reads `enc_attr` at `pos`.
fn read_attr(v: &Vec<char>, pos: usize) -> (r: Result<(crate::base::ColumnAttr, usize), Errors>)
    requires
        pos <= v@.len(),
    ensures
        match r {
            Ok((x, p2)) => pos <= p2 <= v@.len() && dec_attr(v@.skip(pos as int)) == Some(
                (x@, v@.skip(p2 as int)),
            ),
            Err(e) => e == Errors::PersistenceDecode && dec_attr(v@.skip(pos as int)) is None,
        },
{
    let (name, p1) = match read_str(v, pos) {
        Ok(x) => x,
        Err(e) => {
            return Err(e);
        },
    };
    let (dt, p2) = match read_dt(v, p1) {
        Ok(x) => x,
        Err(e) => {
            return Err(e);
        },
    };
    let (is_pk, p3) = match read_bool(v, p2) {
        Ok(x) => x,
        Err(e) => {
            return Err(e);
        },
    };
    let (is_nullable, p4) = match read_bool(v, p3) {
        Ok(x) => x,
        Err(e) => {
            return Err(e);
        },
    };
    let (default, p5) = match read_opt_str(v, p4) {
        Ok(x) => x,
        Err(e) => {
            return Err(e);
        },
    };
    let a = crate::base::ColumnAttr { name, datatype: dt, is_pk, is_nullable, default };
    proof {
        assert(dec_attr(v@.skip(pos as int)) == Some((a@, v@.skip(p5 as int)))) by {
            assert(a@ =~= dec_attr(v@.skip(pos as int))->Some_0.0);
        }
    }
    Ok((a, p5))
}

/// Reads `n` encoded ints at `pos`.
#[verifier::loop_isolation(false)]
fn read_i32s(v: &Vec<char>, pos: usize, n: u64) -> (r: Result<(Vec<i32>, usize), Errors>)
    requires
        pos <= v@.len(),
    ensures
        match r {
            Ok((x, p2)) => pos <= p2 <= v@.len() && dec_i32s(v@.skip(pos as int), n as nat)
                == Some((x@, v@.skip(p2 as int))),
            Err(e) => e == Errors::PersistenceDecode && dec_i32s(v@.skip(pos as int), n as nat)
                is None,
        },
{
    let mut out: Vec<i32> = Vec::new();
    let mut cur: usize = pos;
    let mut k: u64 = 0;
    while k < n
        invariant
            pos <= cur <= v@.len(),
            k <= n,
            out@.len() == k,
            dec_i32s(v@.skip(pos as int), n as nat) == (match dec_i32s(
                v@.skip(cur as int),
                (n - k) as nat,
            ) {
                Some((w, r2)) => Some((out@ + w, r2)),
                None => None::<(Seq<i32>, Seq<char>)>,
            }),
        decreases n - k,
    {
        match read_i32(v, cur) {
            Ok((x, p2)) => {
                proof {
                    let f_next = dec_i32s(v@.skip(p2 as int), (n - k - 1) as nat);
                    if f_next is Some {
                        let w = f_next->Some_0.0;
                        assert(out@ + (seq![x] + w) =~= out@.push(x) + w);
                    }
                }
                out.push(x);
                cur = p2;
                k = k + 1;
            },
            Err(e) => {
                return Err(e);
            },
        }
    }
    proof {
        assert(out@ + Seq::<i32>::empty() =~= out@);
    }
    Ok((out, cur))
}

/// Reads `n` encoded decimals at `pos`.
#[verifier::loop_isolation(false)]
fn read_decs(v: &Vec<char>, pos: usize, n: u64) -> (r: Result<
    (Vec<crate::decimal::Decimal>, usize),
    Errors,
>)
    requires
        pos <= v@.len(),
    ensures
        match r {
            Ok((x, p2)) => pos <= p2 <= v@.len() && dec_decs(v@.skip(pos as int), n as nat)
                == Some(
                (x@.map_values(|d: crate::decimal::Decimal| d@), v@.skip(p2 as int)),
            ) && crate::base::decs_wf(x@.map_values(|d: crate::decimal::Decimal| d@)),
            Err(e) => e == Errors::PersistenceDecode && dec_decs(v@.skip(pos as int), n as nat)
                is None,
        },
{
    let mut out: Vec<crate::decimal::Decimal> = Vec::new();
    let mut cur: usize = pos;
    let mut k: u64 = 0;
    proof {
        assert(out@.map_values(|d: crate::decimal::Decimal| d@) =~= Seq::<DecV>::empty());
    }
    while k < n
        invariant
            pos <= cur <= v@.len(),
            k <= n,
            out@.len() == k,
            crate::base::decs_wf(out@.map_values(|d: crate::decimal::Decimal| d@)),
            dec_decs(v@.skip(pos as int), n as nat) == (match dec_decs(
                v@.skip(cur as int),
                (n - k) as nat,
            ) {
                Some((w, r2)) => Some((out@.map_values(|d: crate::decimal::Decimal| d@) + w, r2)),
                None => None::<(Seq<DecV>, Seq<char>)>,
            }),
        decreases n - k,
    {
        match read_dec(v, cur) {
            Ok((x, p2)) => {
                proof {
                    let om = out@.map_values(|d: crate::decimal::Decimal| d@);
                    assert(out@.push(x).map_values(|d: crate::decimal::Decimal| d@) =~= om.push(
                        x@,
                    ));
                    let f_next = dec_decs(v@.skip(p2 as int), (n - k - 1) as nat);
                    if f_next is Some {
                        let w = f_next->Some_0.0;
                        assert(om + (seq![x@] + w) =~= om.push(x@) + w);
                    }
                    assert forall|j: int| 0 <= j < om.push(x@).len() implies dec_wf(
                        #[trigger] om.push(x@)[j],
                    ) by {
                        if j < om.len() {
                            assert(om.push(x@)[j] == om[j]);
                        } else {
                            assert(om.push(x@)[j] == x@);
                        }
                    }
                }
                out.push(x);
                cur = p2;
                k = k + 1;
            },
            Err(e) => {
                return Err(e);
            },
        }
    }
    proof {
        assert(out@.map_values(|d: crate::decimal::Decimal| d@) + Seq::<DecV>::empty()
            =~= out@.map_values(|d: crate::decimal::Decimal| d@));
    }
    Ok((out, cur))
}

/// Reads `n` encoded strings at `pos`.
#[verifier::loop_isolation(false)]
fn read_strs(v: &Vec<char>, pos: usize, n: u64) -> (r: Result<(Vec<String>, usize), Errors>)
    requires
        pos <= v@.len(),
    ensures
        match r {
            Ok((x, p2)) => pos <= p2 <= v@.len() && dec_strs(v@.skip(pos as int), n as nat)
                == Some((x@.map_values(|s: String| s@), v@.skip(p2 as int))),
            Err(e) => e == Errors::PersistenceDecode && dec_strs(v@.skip(pos as int), n as nat)
                is None,
        },
{
    let mut out: Vec<String> = Vec::new();
    let mut cur: usize = pos;
    let mut k: u64 = 0;
    proof {
        assert(out@.map_values(|s: String| s@) =~= Seq::<Seq<char>>::empty());
    }
    while k < n
        invariant
            pos <= cur <= v@.len(),
            k <= n,
            out@.len() == k,
            dec_strs(v@.skip(pos as int), n as nat) == (match dec_strs(
                v@.skip(cur as int),
                (n - k) as nat,
            ) {
                Some((w, r2)) => Some((out@.map_values(|s: String| s@) + w, r2)),
                None => None::<(Seq<Seq<char>>, Seq<char>)>,
            }),
        decreases n - k,
    {
        match read_str(v, cur) {
            Ok((x, p2)) => {
                proof {
                    let om = out@.map_values(|s: String| s@);
                    assert(out@.push(x).map_values(|s: String| s@) =~= om.push(x@));
                    let f_next = dec_strs(v@.skip(p2 as int), (n - k - 1) as nat);
                    if f_next is Some {
                        let w = f_next->Some_0.0;
                        assert(om + (seq![x@] + w) =~= om.push(x@) + w);
                    }
                }
                out.push(x);
                cur = p2;
                k = k + 1;
            },
            Err(e) => {
                return Err(e);
            },
        }
    }
    proof {
        assert(out@.map_values(|s: String| s@) + Seq::<Seq<char>>::empty() =~= out@.map_values(
            |s: String| s@,
        ));
    }
    Ok((out, cur))
}

/// Reads `n` encoded booleans at `pos`.
#[verifier::loop_isolation(false)]
fn read_bools(v: &Vec<char>, pos: usize, n: u64) -> (r: Result<(Vec<bool>, usize), Errors>)
    requires
        pos <= v@.len(),
    ensures
        match r {
            Ok((x, p2)) => pos <= p2 <= v@.len() && dec_bools(v@.skip(pos as int), n as nat)
                == Some((x@, v@.skip(p2 as int))),
            Err(e) => e == Errors::PersistenceDecode && dec_bools(v@.skip(pos as int), n as nat)
                is None,
        },
{
    let mut out: Vec<bool> = Vec::new();
    let mut cur: usize = pos;
    let mut k: u64 = 0;
    while k < n
        invariant
            pos <= cur <= v@.len(),
            k <= n,
            out@.len() == k,
            dec_bools(v@.skip(pos as int), n as nat) == (match dec_bools(
                v@.skip(cur as int),
                (n - k) as nat,
            ) {
                Some((w, r2)) => Some((out@ + w, r2)),
                None => None::<(Seq<bool>, Seq<char>)>,
            }),
        decreases n - k,
    {
        match read_bool(v, cur) {
            Ok((x, p2)) => {
                proof {
                    let f_next = dec_bools(v@.skip(p2 as int), (n - k - 1) as nat);
                    if f_next is Some {
                        let w = f_next->Some_0.0;
                        assert(out@ + (seq![x] + w) =~= out@.push(x) + w);
                    }
                }
                out.push(x);
                cur = p2;
                k = k + 1;
            },
            Err(e) => {
                return Err(e);
            },
        }
    }
    proof {
        assert(out@ + Seq::<bool>::empty() =~= out@);
    }
    Ok((out, cur))
}

/// Reads `n` encoded column descriptors at `pos`.
#[verifier::loop_isolation(false)]
fn read_attrs(v: &Vec<char>, pos: usize, n: u64) -> (r: Result<
    (Vec<crate::base::ColumnAttr>, usize),
    Errors,
>)
    requires
        pos <= v@.len(),
    ensures
        match r {
            Ok((x, p2)) => pos <= p2 <= v@.len() && dec_attrs(v@.skip(pos as int), n as nat)
                == Some((x@.map_values(|a: crate::base::ColumnAttr| a@), v@.skip(p2 as int))),
            Err(e) => e == Errors::PersistenceDecode && dec_attrs(v@.skip(pos as int), n as nat)
                is None,
        },
{
    let mut out: Vec<crate::base::ColumnAttr> = Vec::new();
    let mut cur: usize = pos;
    let mut k: u64 = 0;
    proof {
        assert(out@.map_values(|a: crate::base::ColumnAttr| a@) =~= Seq::<AttrV>::empty());
    }
    while k < n
        invariant
            pos <= cur <= v@.len(),
            k <= n,
            out@.len() == k,
            dec_attrs(v@.skip(pos as int), n as nat) == (match dec_attrs(
                v@.skip(cur as int),
                (n - k) as nat,
            ) {
                Some((w, r2)) => Some((out@.map_values(|a: crate::base::ColumnAttr| a@) + w, r2)),
                None => None::<(Seq<AttrV>, Seq<char>)>,
            }),
        decreases n - k,
    {
        match read_attr(v, cur) {
            Ok((x, p2)) => {
                proof {
                    let om = out@.map_values(|a: crate::base::ColumnAttr| a@);
                    assert(out@.push(x).map_values(|a: crate::base::ColumnAttr| a@) =~= om.push(
                        x@,
                    ));
                    let f_next = dec_attrs(v@.skip(p2 as int), (n - k - 1) as nat);
                    if f_next is Some {
                        let w = f_next->Some_0.0;
                        assert(om + (seq![x@] + w) =~= om.push(x@) + w);
                    }
                }
                out.push(x);
                cur = p2;
                k = k + 1;
            },
            Err(e) => {
                return Err(e);
            },
        }
    }
    proof {
        assert(out@.map_values(|a: crate::base::ColumnAttr| a@) + Seq::<AttrV>::empty()
            =~= out@.map_values(|a: crate::base::ColumnAttr| a@));
    }
    Ok((out, cur))
}

/// Reads one encoded store at `pos`.
fn read_store(v: &Vec<char>, pos: usize) -> (r: Result<(crate::base::ColumnData, usize), Errors>)
    requires
        pos <= v@.len(),
    ensures
        match r {
            Ok((x, p2)) => pos <= p2 <= v@.len() && dec_store(v@.skip(pos as int)) == Some(
                (x@, v@.skip(p2 as int)),
            ) && store_wf(x@),
            Err(e) => e == Errors::PersistenceDecode && dec_store(v@.skip(pos as int)) is None,
        },
{
    let ghost s = v@.skip(pos as int);
    if pos >= v.len() {
        return Err(Errors::PersistenceDecode);
    }
    proof {
        assert(s[0] == v@[pos as int]);
        assert(s.skip(1) =~= v@.skip(pos + 1));
    }
    let c = v[pos];
    if c == 'X' {
        Ok((crate::base::ColumnData::Invalid, pos + 1))
    } else if c == 'I' {
        let (n, p1) = match read_nat(v, pos + 1) {
            Ok(x) => x,
            Err(e) => {
                return Err(e);
            },
        };
        match read_i32s(v, p1, n) {
            Ok((x, p2)) => Ok((crate::base::ColumnData::Int(x), p2)),
            Err(e) => Err(e),
        }
    } else if c == 'D' {
        let (n, p1) = match read_nat(v, pos + 1) {
            Ok(x) => x,
            Err(e) => {
                return Err(e);
            },
        };
        match read_decs(v, p1, n) {
            Ok((x, p2)) => Ok((crate::base::ColumnData::Float(x), p2)),
            Err(e) => Err(e),
        }
    } else if c == 'S' {
        let (n, p1) = match read_nat(v, pos + 1) {
            Ok(x) => x,
            Err(e) => {
                return Err(e);
            },
        };
        match read_strs(v, p1, n) {
            Ok((x, p2)) => Ok((crate::base::ColumnData::Str(x), p2)),
            Err(e) => Err(e),
        }
    } else if c == 'B' {
        let (n, p1) = match read_nat(v, pos + 1) {
            Ok(x) => x,
            Err(e) => {
                return Err(e);
            },
        };
        match read_bools(v, p1, n) {
            Ok((x, p2)) => Ok((crate::base::ColumnData::Bool(x), p2)),
            Err(e) => Err(e),
        }
    } else {
        Err(Errors::PersistenceDecode)
    }
}

/// Reads one encoded table at `pos` and validates its invariant.
#[verifier::loop_isolation(false)]
fn read_table(v: &Vec<char>, pos: usize) -> (r: Result<(crate::table::Table, usize), Errors>)
    requires
        pos <= v@.len(),
    ensures
        match r {
            Ok((x, p2)) => pos <= p2 <= v@.len() && dec_table(v@.skip(pos as int)) == Some(
                (x@, v@.skip(p2 as int)),
            ) && table_wf(x@),
            Err(e) => e == Errors::PersistenceDecode && dec_table(v@.skip(pos as int)) is None,
        },
{
    let (name, p1) = match read_str(v, pos) {
        Ok(x) => x,
        Err(e) => {
            return Err(e);
        },
    };
    let (nc, p2) = match read_nat(v, p1) {
        Ok(x) => x,
        Err(e) => {
            return Err(e);
        },
    };
    let (columns, p3) = match read_attrs(v, p2, nc) {
        Ok(x) => x,
        Err(e) => {
            return Err(e);
        },
    };
    let (ns, p4) = match read_nat(v, p3) {
        Ok(x) => x,
        Err(e) => {
            return Err(e);
        },
    };
    let mut stores: Vec<crate::base::ColumnData> = Vec::new();
    let mut cur: usize = p4;
    let mut k: u64 = 0;
    proof {
        assert(stores@.map_values(|x: crate::base::ColumnData| x@) =~= Seq::<StoreV>::empty());
    }
    while k < ns
        invariant
            p4 <= cur <= v@.len(),
            k <= ns,
            stores@.len() == k,
            forall|j: int| 0 <= j < k ==> store_wf(#[trigger] stores@[j]@),
            dec_stores(v@.skip(p4 as int), ns as nat) == (match dec_stores(
                v@.skip(cur as int),
                (ns - k) as nat,
            ) {
                Some((w, r2)) => Some(
                    (stores@.map_values(|x: crate::base::ColumnData| x@) + w, r2),
                ),
                None => None::<(Seq<StoreV>, Seq<char>)>,
            }),
        decreases ns - k,
    {
        match read_store(v, cur) {
            Ok((x, pn)) => {
                proof {
                    let om = stores@.map_values(|x2: crate::base::ColumnData| x2@);
                    assert(stores@.push(x).map_values(|x2: crate::base::ColumnData| x2@)
                        =~= om.push(x@));
                    let f_next = dec_stores(v@.skip(pn as int), (ns - k - 1) as nat);
                    if f_next is Some {
                        let w = f_next->Some_0.0;
                        assert(om + (seq![x@] + w) =~= om.push(x@) + w);
                    }
                }
                stores.push(x);
                cur = pn;
                k = k + 1;
            },
            Err(e) => {
                return Err(e);
            },
        }
    }
    proof {
        assert(stores@.map_values(|x: crate::base::ColumnData| x@) + Seq::<StoreV>::empty()
            =~= stores@.map_values(|x: crate::base::ColumnData| x@));
    }
    let t = crate::table::Table { name, columns, stores };
    // validate the table invariant; an encoding of mismatched lengths or
    // types is rejected
    let ghost tv = t@;
    if t.columns.len() != t.stores.len() {
        proof {
            assert(!table_wf(tv));
        }
        return Err(Errors::PersistenceDecode);
    }
    let rc = if t.stores.len() == 0 {
        0
    } else {
        t.stores[0].count()
    };
    let mut ci: usize = 0;
    while ci < t.stores.len()
        invariant
            ci <= t.stores@.len(),
            t@ == tv,
            tv.columns.len() == tv.stores.len(),
            rc == crate::table::row_count(tv),
            forall|j: int| 0 <= j < ci ==> crate::base::store_dt(#[trigger] tv.stores[j])
                == tv.columns[j].datatype && store_len(tv.stores[j]) == rc,
        decreases t.stores@.len() - ci,
    {
        proof {
            assert(tv.stores[ci as int] == t.stores@[ci as int]@);
            assert(tv.columns[ci as int] == t.columns@[ci as int]@);
        }
        let sdt = t.stores[ci].dt();
        if sdt != t.columns[ci].datatype {
            proof {
                assert(!table_wf(tv));
            }
            return Err(Errors::PersistenceDecode);
        }
        if t.stores[ci].count() != rc {
            proof {
                assert(store_len(tv.stores[ci as int]) != crate::table::row_count(tv));
                assert(!table_wf(tv));
            }
            return Err(Errors::PersistenceDecode);
        }
        ci = ci + 1;
    }
    proof {
        assert forall|j: int| 0 <= j < tv.stores.len() implies store_wf(
            #[trigger] tv.stores[j],
        ) by {
            assert(tv.stores[j] == t.stores@[j]@);
        }
        assert(table_wf(tv));
    }
    Ok((t, cur))
}

/// Reads `n` encoded tables at `pos`.
#[verifier::loop_isolation(false)]
fn read_tables(v: &Vec<char>, pos: usize, n: u64) -> (r: Result<
    (Vec<crate::table::Table>, usize),
    Errors,
>)
    requires
        pos <= v@.len(),
    ensures
        match r {
            Ok((x, p2)) => pos <= p2 <= v@.len() && dec_tables(v@.skip(pos as int), n as nat)
                == Some((x@.map_values(|t: crate::table::Table| t@), v@.skip(p2 as int)))
                && forall|j: int| 0 <= j < x@.len() ==> table_wf(#[trigger] x@[j]@),
            Err(e) => e == Errors::PersistenceDecode && dec_tables(v@.skip(pos as int), n as nat)
                is None,
        },
{
    let mut out: Vec<crate::table::Table> = Vec::new();
    let mut cur: usize = pos;
    let mut k: u64 = 0;
    proof {
        assert(out@.map_values(|t: crate::table::Table| t@) =~= Seq::<TableV>::empty());
    }
    while k < n
        invariant
            pos <= cur <= v@.len(),
            k <= n,
            out@.len() == k,
            forall|j: int| 0 <= j < k ==> table_wf(#[trigger] out@[j]@),
            dec_tables(v@.skip(pos as int), n as nat) == (match dec_tables(
                v@.skip(cur as int),
                (n - k) as nat,
            ) {
                Some((w, r2)) => Some(
                    (out@.map_values(|t: crate::table::Table| t@) + w, r2),
                ),
                None => None::<(Seq<TableV>, Seq<char>)>,
            }),
        decreases n - k,
    {
        match read_table(v, cur) {
            Ok((x, pn)) => {
                proof {
                    let om = out@.map_values(|t: crate::table::Table| t@);
                    assert(out@.push(x).map_values(|t: crate::table::Table| t@) =~= om.push(x@));
                    let f_next = dec_tables(v@.skip(pn as int), (n - k - 1) as nat);
                    if f_next is Some {
                        let w = f_next->Some_0.0;
                        assert(om + (seq![x@] + w) =~= om.push(x@) + w);
                    }
                }
                out.push(x);
                cur = pn;
                k = k + 1;
            },
            Err(e) => {
                return Err(e);
            },
        }
    }
    proof {
        assert(out@.map_values(|t: crate::table::Table| t@) + Seq::<TableV>::empty()
            =~= out@.map_values(|t: crate::table::Table| t@));
    }
    Ok((out, cur))
}

/// Decodes a whole snapshot; the text must be consumed exactly.
pub fn decode_database(v: &Vec<char>) -> (r: Result<crate::db::Database, Errors>)
    ensures
        match r {
            Ok(db) => dec_db(v@) == Some(db@) && db_wf(db@),
            Err(e) => e == Errors::PersistenceDecode && dec_db(v@) is None,
        },
{
    proof {
        assert(v@.skip(0) =~= v@);
    }
    let (name, p1) = match read_str(v, 0) {
        Ok(x) => x,
        Err(e) => {
            return Err(e);
        },
    };
    let (nt, p2) = match read_nat(v, p1) {
        Ok(x) => x,
        Err(e) => {
            return Err(e);
        },
    };
    let (tables, p3) = match read_tables(v, p2, nt) {
        Ok(x) => x,
        Err(e) => {
            return Err(e);
        },
    };
    if p3 != v.len() {
        proof {
            assert(v@.skip(p3 as int).len() != 0);
        }
        return Err(Errors::PersistenceDecode);
    }
    let db = crate::db::Database { db_name: name, tables };
    proof {
        assert(v@.skip(p3 as int).len() == 0);
        assert forall|j: int| 0 <= j < db@.tables.len() implies table_wf(
            #[trigger] db@.tables[j],
        ) by {
            assert(db@.tables[j] == tables@[j]@);
        }
        assert(dec_db(v@) == Some(db@)) by {
            assert(db@ =~= dec_db(v@)->Some_0);
        }
    }
    Ok(db)
}

} // verus!
