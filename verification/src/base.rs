//! Column-level building blocks: the closed set of value types, column
//! descriptors, and the typed per-column store with its operations.

use vstd::prelude::*;

use crate::decimal::{dec_render, dec_wf, parse_dec_spec, DecV, Decimal};
use crate::errors::Errors;
use crate::num::{int_digits, parse_i32_spec};
use crate::text::{chars_eq_str, chars_to_string, lower, str_to_chars, to_lower};

verus! {

/// The closed set of column value types.  `Invalid` marks a column whose
/// declared type is unusable; such a store is never scanned or compared.
#[derive(Clone, Copy, Debug, PartialEq, Eq, Structural)]
pub enum DataType {
    Float,
    Int,
    Bool,
    String,
    Invalid,
}

/// The type named by a (case-folded) type word.
pub open spec fn datatype_of(s: Seq<char>) -> DataType {
    if s == "float"@ {
        DataType::Float
    } else if s == "int"@ {
        DataType::Int
    } else if s == "bool"@ {
        DataType::Bool
    } else if s == "string"@ {
        DataType::String
    } else {
        DataType::Invalid
    }
}

/// The canonical name of a type.
pub open spec fn datatype_name(dt: DataType) -> Seq<char> {
    match dt {
        DataType::Float => "float"@,
        DataType::Int => "int"@,
        DataType::Bool => "bool"@,
        DataType::String => "string"@,
        DataType::Invalid => "null"@,
    }
}

impl DataType {
    /// Reads a type word, ignoring ASCII case; unknown words give `Invalid`.
    pub fn new(data_type: String) -> (dt: DataType)
        ensures
            dt == datatype_of(lower(data_type@)),
    {
        let chars = str_to_chars(data_type.as_str());
        let low = to_lower(&chars);
        if chars_eq_str(&low, "float") {
            DataType::Float
        } else if chars_eq_str(&low, "int") {
            DataType::Int
        } else if chars_eq_str(&low, "bool") {
            DataType::Bool
        } else if chars_eq_str(&low, "string") {
            DataType::String
        } else {
            DataType::Invalid
        }
    }

    /// The canonical name of this type.
    pub fn data_type(&self) -> (r: String)
        ensures
            r@ == datatype_name(*self),
    {
        match self {
            DataType::Float => String::from_str("float"),
            DataType::Int => String::from_str("int"),
            DataType::Bool => String::from_str("bool"),
            DataType::String => String::from_str("string"),
            DataType::Invalid => String::from_str("null"),
        }
    }
}

/// One column of a schema: name, type, primary-key and nullability flags,
/// and an optional default value.
pub struct ColumnAttr {
    pub name: String,
    pub datatype: DataType,
    pub is_pk: bool,
    pub is_nullable: bool,
    pub default: Option<String>,
}

/// The mathematical content of a [`ColumnAttr`].
#[verifier::ext_equal]
pub ghost struct AttrV {
    pub name: Seq<char>,
    pub datatype: DataType,
    pub is_pk: bool,
    pub is_nullable: bool,
    pub default: Option<Seq<char>>,
}

impl View for ColumnAttr {
    type V = AttrV;

    open spec fn view(&self) -> AttrV {
        AttrV {
            name: self.name@,
            datatype: self.datatype,
            is_pk: self.is_pk,
            is_nullable: self.is_nullable,
            default: match self.default {
                Some(ref d) => Some(d@),
                None => None,
            },
        }
    }
}

impl ColumnAttr {
    /// Builds a descriptor; the type word is read as [`DataType::new`] does.
    pub fn new(name: String, data_type: String, is_pk: bool, is_nullable: bool, default: Option<
        String,
    >) -> (r: ColumnAttr)
        ensures
            r@.name == name@,
            r@.datatype == datatype_of(lower(data_type@)),
            r@.is_pk == is_pk,
            r@.is_nullable == is_nullable,
            r@.default == match default {
                Some(d) => Some(d@),
                None => None::<Seq<char>>,
            },
    {
        let datatype = DataType::new(data_type);
        ColumnAttr { name, datatype, is_pk, is_nullable, default }
    }

    /// The descriptor as labelled display fields, in a fixed order: name,
    /// datatype, is_pk, is_nullable, default (`None` when absent).
    pub fn attr(&self) -> (r: Vec<(String, String)>)
        ensures
            r@.len() == 5,
            r@[0].0@ == "name"@ && r@[0].1@ == self@.name,
            r@[1].0@ == "datatype"@ && r@[1].1@ == datatype_name(self@.datatype),
            r@[2].0@ == "is_pk"@ && r@[2].1@ == bool_str(self@.is_pk),
            r@[3].0@ == "is_nullable"@ && r@[3].1@ == bool_str(self@.is_nullable),
            r@[4].0@ == "default"@ && r@[4].1@ == match self@.default {
                Some(d) => d,
                None => "None"@,
            },
    {
        let mut r: Vec<(String, String)> = Vec::new();
        r.push((String::from_str("name"), self.name.clone()));
        r.push((String::from_str("datatype"), self.datatype.data_type()));
        r.push((String::from_str("is_pk"), bool_string(self.is_pk)));
        r.push((String::from_str("is_nullable"), bool_string(self.is_nullable)));
        let defval = match &self.default {
            Some(d) => d.clone(),
            None => String::from_str("None"),
        };
        r.push((String::from_str("default"), defval));
        r
    }

    /// Copies the descriptor.
    pub fn clone_attr(&self) -> (r: ColumnAttr)
        ensures
            r@ == self@,
    {
        let r = ColumnAttr {
            name: self.name.clone(),
            datatype: self.datatype,
            is_pk: self.is_pk,
            is_nullable: self.is_nullable,
            default: match &self.default {
                Some(d) => Some(d.clone()),
                None => None,
            },
        };
        proof {
            assert(r@ =~= self@);
        }
        r
    }
}

/// The canonical text of a boolean.
pub open spec fn bool_str(b: bool) -> Seq<char> {
    if b {
        "true"@
    } else {
        "false"@
    }
}

/// Renders a boolean as its canonical text.
pub fn bool_string(b: bool) -> (r: String)
    ensures
        r@ == bool_str(b),
{
    if b {
        String::from_str("true")
    } else {
        String::from_str("false")
    }
}

/// The boolean named by `s`, if any.
pub open spec fn parse_bool_spec(s: Seq<char>) -> Option<bool> {
    if s == "true"@ {
        Some(true)
    } else if s == "false"@ {
        Some(false)
    } else {
        None
    }
}

/// A homogeneous store holding every value of one column, in row order.
pub enum ColumnData {
    Int(Vec<i32>),
    Float(Vec<Decimal>),
    Str(Vec<String>),
    Bool(Vec<bool>),
    Invalid,
}

/// The mathematical content of a [`ColumnData`].
#[verifier::ext_equal]
pub ghost enum StoreV {
    Ints(Seq<i32>),
    Floats(Seq<DecV>),
    Strs(Seq<Seq<char>>),
    Bools(Seq<bool>),
    Missing,
}

impl View for ColumnData {
    type V = StoreV;

    open spec fn view(&self) -> StoreV {
        match self {
            ColumnData::Int(v) => StoreV::Ints(v@),
            ColumnData::Float(v) => StoreV::Floats(v@.map_values(|d: Decimal| d@)),
            ColumnData::Str(v) => StoreV::Strs(v@.map_values(|s: String| s@)),
            ColumnData::Bool(v) => StoreV::Bools(v@),
            ColumnData::Invalid => StoreV::Missing,
        }
    }
}

/// Every decimal of the sequence is canonical.
pub open spec fn decs_wf(v: Seq<DecV>) -> bool {
    forall|i: int| 0 <= i < v.len() ==> dec_wf(#[trigger] v[i])
}

/// Float stores hold only canonical decimals.
pub open spec fn store_wf(s: StoreV) -> bool {
    match s {
        StoreV::Floats(v) => decs_wf(v),
        _ => true,
    }
}

/// The declared type a store belongs to.
pub open spec fn store_dt(s: StoreV) -> DataType {
    match s {
        StoreV::Ints(_) => DataType::Int,
        StoreV::Floats(_) => DataType::Float,
        StoreV::Strs(_) => DataType::String,
        StoreV::Bools(_) => DataType::Bool,
        StoreV::Missing => DataType::Invalid,
    }
}

/// The number of values in the store.
pub open spec fn store_len(s: StoreV) -> nat {
    match s {
        StoreV::Ints(v) => v.len(),
        StoreV::Floats(v) => v.len(),
        StoreV::Strs(v) => v.len(),
        StoreV::Bools(v) => v.len(),
        StoreV::Missing => 0,
    }
}

/// The canonical text of the value at row `i`.
pub open spec fn cell_render(s: StoreV, i: int) -> Seq<char> {
    match s {
        StoreV::Ints(v) => int_digits(v[i] as int),
        StoreV::Floats(v) => dec_render(v[i]),
        StoreV::Strs(v) => v[i],
        StoreV::Bools(v) => bool_str(v[i]),
        StoreV::Missing => Seq::<char>::empty(),
    }
}

/// What appending the text `val` does to a store: the parsed value is
/// pushed, a text that does not parse in the store's type is a
/// `TypeMismatch`, and an `Invalid` store cannot be touched.
pub open spec fn append_spec(s: StoreV, val: Seq<char>) -> Result<StoreV, Errors> {
    match s {
        StoreV::Ints(v) => match parse_i32_spec(val) {
            Some(n) => Ok(StoreV::Ints(v.push(n))),
            None => Err(Errors::TypeMismatch),
        },
        StoreV::Floats(v) => match parse_dec_spec(val) {
            Some(d) => Ok(StoreV::Floats(v.push(d))),
            None => Err(Errors::TypeMismatch),
        },
        StoreV::Strs(v) => Ok(StoreV::Strs(v.push(val))),
        StoreV::Bools(v) => match parse_bool_spec(val) {
            Some(b) => Ok(StoreV::Bools(v.push(b))),
            None => Err(Errors::TypeMismatch),
        },
        StoreV::Missing => Err(Errors::ColumnNotFound),
    }
}

/// What overwriting row `i` with the text `val` does to a store.
pub open spec fn update_spec(s: StoreV, i: int, val: Seq<char>) -> Result<StoreV, Errors> {
    match s {
        StoreV::Ints(v) => match parse_i32_spec(val) {
            Some(n) => Ok(StoreV::Ints(v.update(i, n))),
            None => Err(Errors::TypeMismatch),
        },
        StoreV::Floats(v) => match parse_dec_spec(val) {
            Some(d) => Ok(StoreV::Floats(v.update(i, d))),
            None => Err(Errors::TypeMismatch),
        },
        StoreV::Strs(v) => Ok(StoreV::Strs(v.update(i, val))),
        StoreV::Bools(v) => match parse_bool_spec(val) {
            Some(b) => Ok(StoreV::Bools(v.update(i, b))),
            None => Err(Errors::TypeMismatch),
        },
        StoreV::Missing => Err(Errors::ColumnNotFound),
    }
}

/// Removes the positions listed in `idxs` (strictly descending) from `s`,
/// first position first.
pub open spec fn remove_desc<T>(s: Seq<T>, idxs: Seq<usize>) -> Seq<T>
    decreases idxs.len(),
{
    if idxs.len() == 0 {
        s
    } else {
        remove_desc(s.remove(idxs[0] as int), idxs.skip(1))
    }
}

/// Indices are strictly descending and all within `len`.
pub open spec fn valid_removal(idxs: Seq<usize>, len: nat) -> bool {
    &&& forall|i: int| 0 <= i < idxs.len() ==> (#[trigger] idxs[i] as nat) < len
    &&& forall|i: int, j: int| 0 <= i < j < idxs.len() ==> idxs[i] > idxs[j]
}

pub proof fn lemma_remove_desc_len<T>(s: Seq<T>, idxs: Seq<usize>)
    requires
        valid_removal(idxs, s.len()),
    ensures
        remove_desc(s, idxs).len() == s.len() - idxs.len(),
    decreases idxs.len(),
{
    if idxs.len() > 0 {
        let s2 = s.remove(idxs[0] as int);
        assert(valid_removal(idxs.skip(1), s2.len())) by {
            assert forall|i: int| 0 <= i < idxs.skip(1).len() implies (#[trigger] idxs.skip(1)[i] as nat)
                < s2.len() by {
                assert(idxs.skip(1)[i] == idxs[i + 1]);
                assert(idxs[0] > idxs[i + 1]);
            }
            assert forall|i: int, j: int|
                0 <= i < j < idxs.skip(1).len() implies #[trigger] idxs.skip(1)[i]
                > #[trigger] idxs.skip(1)[j] by {
                assert(idxs.skip(1)[i] == idxs[i + 1]);
                assert(idxs.skip(1)[j] == idxs[j + 1]);
            }
        }
        lemma_remove_desc_len(s2, idxs.skip(1));
    }
}

/// What removing the positions `idxs` does to a store.
pub open spec fn remove_spec(s: StoreV, idxs: Seq<usize>) -> StoreV {
    match s {
        StoreV::Ints(v) => StoreV::Ints(remove_desc(v, idxs)),
        StoreV::Floats(v) => StoreV::Floats(remove_desc(v, idxs)),
        StoreV::Strs(v) => StoreV::Strs(remove_desc(v, idxs)),
        StoreV::Bools(v) => StoreV::Bools(remove_desc(v, idxs)),
        StoreV::Missing => StoreV::Missing,
    }
}

/// The empty store of each type.
pub open spec fn empty_store_of(dt: DataType) -> StoreV {
    match dt {
        DataType::Int => StoreV::Ints(Seq::<i32>::empty()),
        DataType::Float => StoreV::Floats(Seq::<DecV>::empty()),
        DataType::String => StoreV::Strs(Seq::<Seq<char>>::empty()),
        DataType::Bool => StoreV::Bools(Seq::<bool>::empty()),
        DataType::Invalid => StoreV::Missing,
    }
}

impl ColumnData {
    /// An empty store of the given type.
    pub fn empty_of(dt: DataType) -> (r: ColumnData)
        ensures
            r@ == empty_store_of(dt),
            store_dt(r@) == dt,
            store_len(r@) == 0,
            store_wf(r@),
    {
        let r = match dt {
            DataType::Int => ColumnData::Int(Vec::new()),
            DataType::Float => ColumnData::Float(Vec::new()),
            DataType::String => ColumnData::Str(Vec::new()),
            DataType::Bool => ColumnData::Bool(Vec::new()),
            DataType::Invalid => ColumnData::Invalid,
        };
        proof {
            match r {
                ColumnData::Float(ref v) => {
                    assert(v@.map_values(|d: Decimal| d@) =~= Seq::<DecV>::empty());
                },
                ColumnData::Str(ref v) => {
                    assert(v@.map_values(|s: String| s@) =~= Seq::<Seq<char>>::empty());
                },
                _ => {},
            }
        }
        r
    }

    /// The declared type this store belongs to.
    pub fn dt(&self) -> (r: DataType)
        ensures
            r == store_dt(self@),
    {
        match self {
            ColumnData::Int(_) => DataType::Int,
            ColumnData::Float(_) => DataType::Float,
            ColumnData::Str(_) => DataType::String,
            ColumnData::Bool(_) => DataType::Bool,
            ColumnData::Invalid => DataType::Invalid,
        }
    }

    /// The number of values held; the row count of the column.
    pub fn count(&self) -> (r: usize)
        ensures
            r == store_len(self@),
    {
        match self {
            ColumnData::Int(v) => v.len(),
            ColumnData::Float(v) => v.len(),
            ColumnData::Str(v) => v.len(),
            ColumnData::Bool(v) => v.len(),
            ColumnData::Invalid => 0,
        }
    }

    /// The canonical text of the value at row `i`.
    pub fn render_at(&self, i: usize) -> (r: String)
        requires
            i < store_len(self@),
            store_wf(self@),
        ensures
            r@ == cell_render(self@, i as int),
    {
        match self {
            ColumnData::Int(v) => {
                let chars = crate::num::i32_digits(v[i]);
                chars_to_string(&chars)
            },
            ColumnData::Float(v) => {
                proof {
                    assert(v@.map_values(|d: Decimal| d@)[i as int] == v@[i as int]@);
                }
                let chars = v[i].render();
                chars_to_string(&chars)
            },
            ColumnData::Str(v) => {
                proof {
                    assert(v@.map_values(|s: String| s@)[i as int] == v@[i as int]@);
                }
                v[i].clone()
            },
            ColumnData::Bool(v) => bool_string(v[i]),
            ColumnData::Invalid => {
                proof {
                    assert(false);
                }
                String::new()
            },
        }
    }

    /// Every value rendered, in row order; an `Invalid` store is an error.
    pub fn get_all_data(&self) -> (r: Result<Vec<String>, Errors>)
        requires
            store_wf(self@),
        ensures
            match r {
                Ok(v) => self@ !is Missing && v@.len() == store_len(self@) && forall|i: int|
                    0 <= i < v@.len() ==> #[trigger] v@[i]@ == cell_render(self@, i),
                Err(e) => self@ is Missing && e == Errors::ColumnNotFound,
            },
    {
        if let ColumnData::Invalid = self {
            return Err(Errors::ColumnNotFound);
        }
        let n = self.count();
        let mut out: Vec<String> = Vec::new();
        let mut i: usize = 0;
        while i < n
            invariant
                n == store_len(self@),
                store_wf(self@),
                !(self@ is Missing),
                i <= n,
                out@.len() == i,
                forall|j: int| 0 <= j < i ==> #[trigger] out@[j]@ == cell_render(self@, j),
            decreases n - i,
        {
            out.push(self.render_at(i));
            i = i + 1;
        }
        Ok(out)
    }

    /// The values at the given rows, rendered, in the order of `ix`.
    pub fn get_data_by_ix(&self, ix: &Vec<usize>) -> (r: Result<Vec<String>, Errors>)
        requires
            store_wf(self@),
            forall|i: int| 0 <= i < ix@.len() ==> (#[trigger] ix@[i] as nat) < store_len(self@),
        ensures
            match r {
                Ok(v) => self@ !is Missing && v@.len() == ix@.len() && forall|i: int|
                    0 <= i < v@.len() ==> #[trigger] v@[i]@ == cell_render(self@, ix@[i] as int),
                Err(e) => self@ is Missing && e == Errors::ColumnNotFound,
            },
    {
        if let ColumnData::Invalid = self {
            return Err(Errors::ColumnNotFound);
        }
        let mut out: Vec<String> = Vec::new();
        let mut i: usize = 0;
        while i < ix.len()
            invariant
                store_wf(self@),
                !(self@ is Missing),
                forall|k: int| 0 <= k < ix@.len() ==> (#[trigger] ix@[k] as nat) < store_len(self@),
                i <= ix@.len(),
                out@.len() == i,
                forall|j: int| 0 <= j < i ==> #[trigger] out@[j]@ == cell_render(self@, ix@[j] as int),
            decreases ix@.len() - i,
        {
            out.push(self.render_at(ix[i]));
            i = i + 1;
        }
        Ok(out)
    }

    /// Whether appending `value` would succeed, without touching the store.
    pub fn check_append(&self, value: &String) -> (r: Result<(), Errors>)
        ensures
            match r {
                Ok(_) => append_spec(self@, value@) is Ok,
                Err(e) => append_spec(self@, value@) == Err::<StoreV, Errors>(e),
            },
    {
        let chars = str_to_chars(value.as_str());
        match self {
            ColumnData::Int(_) => {
                match crate::num::parse_i32(&chars) {
                    Some(_) => Ok(()),
                    None => Err(Errors::TypeMismatch),
                }
            },
            ColumnData::Float(_) => {
                match Decimal::parse(&chars) {
                    Some(_) => Ok(()),
                    None => Err(Errors::TypeMismatch),
                }
            },
            ColumnData::Str(_) => Ok(()),
            ColumnData::Bool(_) => {
                if chars_eq_str(&chars, "true") || chars_eq_str(&chars, "false") {
                    Ok(())
                } else {
                    Err(Errors::TypeMismatch)
                }
            },
            ColumnData::Invalid => Err(Errors::ColumnNotFound),
        }
    }

    /// Appends one value given as text, as [`append_spec`] says.
    pub fn append(&mut self, value: &String) -> (r: Result<(), Errors>)
        requires
            store_wf(old(self)@),
        ensures
            match r {
                Ok(_) => append_spec(old(self)@, value@) == Ok::<StoreV, Errors>(final(self)@),
                Err(e) => append_spec(old(self)@, value@) == Err::<StoreV, Errors>(e) && final(self)@
                    == old(self)@,
            },
            store_wf(final(self)@),
            store_dt(final(self)@) == store_dt(old(self)@),
    {
        let chars = str_to_chars(value.as_str());
        match self {
            ColumnData::Int(v) => {
                match crate::num::parse_i32(&chars) {
                    Some(n) => {
                        v.push(n);
                        Ok(())
                    },
                    None => Err(Errors::TypeMismatch),
                }
            },
            ColumnData::Float(v) => {
                match Decimal::parse(&chars) {
                    Some(d) => {
                        let ghost oldmap = v@.map_values(|x: Decimal| x@);
                        proof {
                            assert(oldmap.push(d@) =~= v@.push(d).map_values(|x: Decimal| x@));
                        }
                        v.push(d);
                        Ok(())
                    },
                    None => Err(Errors::TypeMismatch),
                }
            },
            ColumnData::Str(v) => {
                let ghost oldmap = v@.map_values(|x: String| x@);
                proof {
                    assert(oldmap.push(value@) =~= v@.push(*value).map_values(|x: String| x@));
                }
                v.push(value.clone());
                Ok(())
            },
            ColumnData::Bool(v) => {
                if chars_eq_str(&chars, "true") {
                    v.push(true);
                    Ok(())
                } else if chars_eq_str(&chars, "false") {
                    v.push(false);
                    Ok(())
                } else {
                    Err(Errors::TypeMismatch)
                }
            },
            ColumnData::Invalid => Err(Errors::ColumnNotFound),
        }
    }

    /// Overwrites row `i` with a value given as text, as [`update_spec`]
    /// says.
    pub fn update(&mut self, i: usize, value: &String) -> (r: Result<(), Errors>)
        requires
            store_wf(old(self)@),
            i < store_len(old(self)@),
        ensures
            match r {
                Ok(_) => update_spec(old(self)@, i as int, value@) == Ok::<StoreV, Errors>(
                    final(self)@,
                ),
                Err(e) => update_spec(old(self)@, i as int, value@) == Err::<StoreV, Errors>(e)
                    && final(self)@ == old(self)@,
            },
            store_wf(final(self)@),
            store_dt(final(self)@) == store_dt(old(self)@),
            store_len(final(self)@) == store_len(old(self)@),
    {
        let chars = str_to_chars(value.as_str());
        match self {
            ColumnData::Int(v) => {
                match crate::num::parse_i32(&chars) {
                    Some(n) => {
                        v.set(i, n);
                        Ok(())
                    },
                    None => Err(Errors::TypeMismatch),
                }
            },
            ColumnData::Float(v) => {
                match Decimal::parse(&chars) {
                    Some(d) => {
                        let ghost oldmap = v@.map_values(|x: Decimal| x@);
                        proof {
                            assert(oldmap.update(i as int, d@) =~= v@.update(i as int, d).map_values(
                                |x: Decimal| x@,
                            ));
                        }
                        v.set(i, d);
                        Ok(())
                    },
                    None => Err(Errors::TypeMismatch),
                }
            },
            ColumnData::Str(v) => {
                let ghost oldmap = v@.map_values(|x: String| x@);
                proof {
                    assert(oldmap.update(i as int, value@) =~= v@.update(i as int, *value).map_values(
                        |x: String| x@,
                    ));
                }
                v.set(i, value.clone());
                Ok(())
            },
            ColumnData::Bool(v) => {
                if chars_eq_str(&chars, "true") {
                    v.set(i, true);
                    Ok(())
                } else if chars_eq_str(&chars, "false") {
                    v.set(i, false);
                    Ok(())
                } else {
                    Err(Errors::TypeMismatch)
                }
            },
            ColumnData::Invalid => Err(Errors::ColumnNotFound),
        }
    }

    /// Removes the rows listed in `idxs`, which must be strictly descending
    /// so that one removal does not shift the meaning of the next.
    pub fn remove(&mut self, idxs: &Vec<usize>)
        requires
            store_wf(old(self)@),
            valid_removal(idxs@, store_len(old(self)@)),
        ensures
            final(self)@ == remove_spec(old(self)@, idxs@),
            store_wf(final(self)@),
            store_dt(final(self)@) == store_dt(old(self)@),
            store_len(final(self)@) == store_len(old(self)@) - idxs@.len(),
    {
        match self {
            ColumnData::Int(v) => {
                remove_many_i32(v, idxs);
            },
            ColumnData::Float(v) => {
                let ghost oldvec = v@;
                remove_many_dec(v, idxs);
                proof {
                    lemma_remove_desc_map_dec(oldvec, idxs@);
                }
            },
            ColumnData::Str(v) => {
                let ghost oldvec = v@;
                remove_many_str(v, idxs);
                proof {
                    lemma_remove_desc_map_str(oldvec, idxs@);
                }
            },
            ColumnData::Bool(v) => {
                remove_many_bool(v, idxs);
            },
            ColumnData::Invalid => {},
        }
        proof {
            match old(self)@ {
                StoreV::Ints(v) => lemma_remove_desc_len(v, idxs@),
                StoreV::Floats(v) => lemma_remove_desc_len(v, idxs@),
                StoreV::Strs(v) => lemma_remove_desc_len(v, idxs@),
                StoreV::Bools(v) => lemma_remove_desc_len(v, idxs@),
                StoreV::Missing => {},
            }
            lemma_remove_spec_wf(old(self)@, idxs@);
        }
    }
}

/// The store holding the rows at `idxs`, in that order.
pub open spec fn store_select(s: StoreV, idxs: Seq<usize>) -> StoreV {
    match s {
        StoreV::Ints(v) => StoreV::Ints(Seq::new(idxs.len(), |k: int| v[idxs[k] as int])),
        StoreV::Floats(v) => StoreV::Floats(Seq::new(idxs.len(), |k: int| v[idxs[k] as int])),
        StoreV::Strs(v) => StoreV::Strs(Seq::new(idxs.len(), |k: int| v[idxs[k] as int])),
        StoreV::Bools(v) => StoreV::Bools(Seq::new(idxs.len(), |k: int| v[idxs[k] as int])),
        StoreV::Missing => StoreV::Missing,
    }
}

impl ColumnData {
    /// Copies out the rows at the given indices, in order.
    pub fn select_rows(&self, idxs: &Vec<usize>) -> (r: ColumnData)
        requires
            store_wf(self@),
            forall|k: int| 0 <= k < idxs@.len() ==> (#[trigger] idxs@[k] as nat) < store_len(self@),
        ensures
            r@ == store_select(self@, idxs@),
            store_wf(r@),
            store_dt(r@) == store_dt(self@),
            store_len(r@) == idxs@.len(),
    {
        proof {
            if self@ is Missing && idxs@.len() > 0 {
                assert((idxs@[0] as nat) < store_len(self@));
            }
        }
        let r = match self {
            ColumnData::Int(v) => {
                let mut out: Vec<i32> = Vec::new();
                let mut k: usize = 0;
                while k < idxs.len()
                    invariant
                        k <= idxs@.len(),
                        out@.len() == k,
                        forall|m: int| 0 <= m < idxs@.len() ==> (#[trigger] idxs@[m] as nat)
                            < v@.len(),
                        forall|m: int| 0 <= m < k ==> #[trigger] out@[m] == v@[idxs@[m] as int],
                    decreases idxs@.len() - k,
                {
                    out.push(v[idxs[k]]);
                    k = k + 1;
                }
                ColumnData::Int(out)
            },
            ColumnData::Float(v) => {
                let mut out: Vec<Decimal> = Vec::new();
                let mut k: usize = 0;
                while k < idxs.len()
                    invariant
                        k <= idxs@.len(),
                        out@.len() == k,
                        forall|m: int| 0 <= m < idxs@.len() ==> (#[trigger] idxs@[m] as nat)
                            < v@.len(),
                        forall|m: int| 0 <= m < k ==> #[trigger] out@[m]@ == v@[idxs@[m] as int]@,
                    decreases idxs@.len() - k,
                {
                    out.push(v[idxs[k]].clone_dec());
                    k = k + 1;
                }
                ColumnData::Float(out)
            },
            ColumnData::Str(v) => {
                let mut out: Vec<String> = Vec::new();
                let mut k: usize = 0;
                while k < idxs.len()
                    invariant
                        k <= idxs@.len(),
                        out@.len() == k,
                        forall|m: int| 0 <= m < idxs@.len() ==> (#[trigger] idxs@[m] as nat)
                            < v@.len(),
                        forall|m: int| 0 <= m < k ==> #[trigger] out@[m]@ == v@[idxs@[m] as int]@,
                    decreases idxs@.len() - k,
                {
                    out.push(v[idxs[k]].clone());
                    k = k + 1;
                }
                ColumnData::Str(out)
            },
            ColumnData::Bool(v) => {
                let mut out: Vec<bool> = Vec::new();
                let mut k: usize = 0;
                while k < idxs.len()
                    invariant
                        k <= idxs@.len(),
                        out@.len() == k,
                        forall|m: int| 0 <= m < idxs@.len() ==> (#[trigger] idxs@[m] as nat)
                            < v@.len(),
                        forall|m: int| 0 <= m < k ==> #[trigger] out@[m] == v@[idxs@[m] as int],
                    decreases idxs@.len() - k,
                {
                    out.push(v[idxs[k]]);
                    k = k + 1;
                }
                ColumnData::Bool(out)
            },
            ColumnData::Invalid => ColumnData::Invalid,
        };
        proof {
            match (self, &r) {
                (ColumnData::Int(v), ColumnData::Int(out)) => {
                    assert(r@ =~= store_select(self@, idxs@));
                },
                (ColumnData::Float(v), ColumnData::Float(out)) => {
                    let selfmap = v@.map_values(|d: Decimal| d@);
                    assert(out@.map_values(|d: Decimal| d@) =~= Seq::new(
                        idxs@.len(),
                        |k: int| selfmap[idxs@[k] as int],
                    ));
                    assert(r@ =~= store_select(self@, idxs@));
                },
                (ColumnData::Str(v), ColumnData::Str(out)) => {
                    let selfmap = v@.map_values(|x: String| x@);
                    assert(out@.map_values(|x: String| x@) =~= Seq::new(
                        idxs@.len(),
                        |k: int| selfmap[idxs@[k] as int],
                    ));
                    assert(r@ =~= store_select(self@, idxs@));
                },
                (ColumnData::Bool(v), ColumnData::Bool(out)) => {
                    assert(r@ =~= store_select(self@, idxs@));
                },
                _ => {},
            }
        }
        r
    }
}

/// The canonical text a value of type `dt` takes once parsed from `v` and
/// rendered back; meaningful when `v` parses in that type.
pub open spec fn canonical_text(dt: DataType, v: Seq<char>) -> Seq<char> {
    match dt {
        DataType::Int => int_digits(parse_i32_spec(v)->Some_0 as int),
        DataType::Float => dec_render(parse_dec_spec(v)->Some_0),
        DataType::String => v,
        DataType::Bool => bool_str(parse_bool_spec(v)->Some_0),
        DataType::Invalid => Seq::<char>::empty(),
    }
}

/// A successful append leaves every old cell's rendering unchanged, and
/// the new last cell renders as the canonical text of the appended value.
pub proof fn lemma_append_cells(s: StoreV, val: Seq<char>)
    requires
        append_spec(s, val) is Ok,
    ensures
        ({
            let s2 = append_spec(s, val)->Ok_0;
            &&& cell_render(s2, store_len(s) as int) == canonical_text(store_dt(s), val)
            &&& forall|i: int| 0 <= i < store_len(s) ==> cell_render(s2, i) == cell_render(s, i)
        }),
{
    match s {
        StoreV::Ints(v) => {
            let n = parse_i32_spec(val)->Some_0;
            assert(v.push(n)[v.len() as int] == n);
            assert(forall|i: int| 0 <= i < v.len() ==> v.push(n)[i] == v[i]);
        },
        StoreV::Floats(v) => {
            let d = parse_dec_spec(val)->Some_0;
            assert(v.push(d)[v.len() as int] == d);
            assert(forall|i: int| 0 <= i < v.len() ==> v.push(d)[i] == v[i]);
        },
        StoreV::Strs(v) => {
            assert(v.push(val)[v.len() as int] == val);
            assert(forall|i: int| 0 <= i < v.len() ==> v.push(val)[i] == v[i]);
        },
        StoreV::Bools(v) => {
            let b = parse_bool_spec(val)->Some_0;
            assert(v.push(b)[v.len() as int] == b);
            assert(forall|i: int| 0 <= i < v.len() ==> v.push(b)[i] == v[i]);
        },
        StoreV::Missing => {},
    }
}

/// A successful append keeps the store well-formed, keeps its type, and
/// grows it by one; the new last cell renders as the parsed value's
/// canonical text.
pub proof fn lemma_append_spec_wf(s: StoreV, val: Seq<char>)
    requires
        store_wf(s),
        append_spec(s, val) is Ok,
    ensures
        store_wf(append_spec(s, val)->Ok_0),
        store_dt(append_spec(s, val)->Ok_0) == store_dt(s),
        store_len(append_spec(s, val)->Ok_0) == store_len(s) + 1,
{
    match s {
        StoreV::Floats(v) => {
            crate::decimal::lemma_parse_dec_wf(val);
            let d = parse_dec_spec(val)->Some_0;
            assert forall|i: int| 0 <= i < v.push(d).len() implies dec_wf(#[trigger] v.push(d)[i]) by {
                if i < v.len() {
                    assert(v.push(d)[i] == v[i]);
                } else {
                    assert(v.push(d)[i] == d);
                }
            }
        },
        _ => {},
    }
}

/// Removal keeps a store well-formed, keeps its type, and shortens it by
/// the number of removed rows.
pub proof fn lemma_remove_spec_props(s: StoreV, idxs: Seq<usize>)
    requires
        store_wf(s),
        valid_removal(idxs, store_len(s)),
    ensures
        store_wf(remove_spec(s, idxs)),
        store_dt(remove_spec(s, idxs)) == store_dt(s),
        store_len(remove_spec(s, idxs)) == store_len(s) - idxs.len(),
{
    lemma_remove_spec_wf(s, idxs);
    match s {
        StoreV::Ints(v) => lemma_remove_desc_len(v, idxs),
        StoreV::Floats(v) => lemma_remove_desc_len(v, idxs),
        StoreV::Strs(v) => lemma_remove_desc_len(v, idxs),
        StoreV::Bools(v) => lemma_remove_desc_len(v, idxs),
        StoreV::Missing => {
            if idxs.len() > 0 {
                assert((idxs[0] as nat) < store_len(s));
            }
        },
    }
}

proof fn lemma_remove_spec_wf(s: StoreV, idxs: Seq<usize>)
    requires
        store_wf(s),
        valid_removal(idxs, store_len(s)),
    ensures
        store_wf(remove_spec(s, idxs)),
    decreases idxs.len(),
{
    match s {
        StoreV::Floats(v) => {
            if idxs.len() > 0 {
                let v2 = v.remove(idxs[0] as int);
                assert(forall|i: int| 0 <= i < v2.len() ==> dec_wf(#[trigger] v2[i]));
                assert(valid_removal(idxs.skip(1), v2.len())) by {
                    assert forall|i: int|
                        0 <= i < idxs.skip(1).len() implies (#[trigger] idxs.skip(1)[i] as nat)
                        < v2.len() by {
                        assert(idxs.skip(1)[i] == idxs[i + 1]);
                        assert(idxs[0] > idxs[i + 1]);
                    }
                    assert forall|i: int, j: int|
                        0 <= i < j < idxs.skip(1).len() implies #[trigger] idxs.skip(1)[i]
                        > #[trigger] idxs.skip(1)[j] by {
                        assert(idxs.skip(1)[i] == idxs[i + 1]);
                        assert(idxs.skip(1)[j] == idxs[j + 1]);
                    }
                }
                lemma_remove_spec_wf(StoreV::Floats(v2), idxs.skip(1));
                assert(remove_desc(v, idxs) == remove_desc(v2, idxs.skip(1)));
            }
        },
        _ => {},
    }
}

/// `remove_desc` commutes with element-wise views (decimal case).
proof fn lemma_remove_desc_map_dec(orig: Seq<Decimal>, idxs: Seq<usize>)
    requires
        valid_removal(idxs, orig.len()),
    ensures
        remove_desc(orig, idxs).map_values(|x: Decimal| x@) == remove_desc(
            orig.map_values(|x: Decimal| x@),
            idxs,
        ),
    decreases idxs.len(),
{
    if idxs.len() > 0 {
        let orig2 = orig.remove(idxs[0] as int);
        assert(orig2.map_values(|x: Decimal| x@) =~= orig.map_values(|x: Decimal| x@).remove(
            idxs[0] as int,
        ));
        assert(idxs.skip(0) =~= idxs);
        lemma_valid_removal_step(idxs, 0, orig.len());
        lemma_remove_desc_map_dec(orig2, idxs.skip(1));
    }
}

/// `remove_desc` commutes with element-wise views (string case).
proof fn lemma_remove_desc_map_str(orig: Seq<String>, idxs: Seq<usize>)
    requires
        valid_removal(idxs, orig.len()),
    ensures
        remove_desc(orig, idxs).map_values(|x: String| x@) == remove_desc(
            orig.map_values(|x: String| x@),
            idxs,
        ),
    decreases idxs.len(),
{
    if idxs.len() > 0 {
        let orig2 = orig.remove(idxs[0] as int);
        assert(orig2.map_values(|x: String| x@) =~= orig.map_values(|x: String| x@).remove(
            idxs[0] as int,
        ));
        assert(idxs.skip(0) =~= idxs);
        lemma_valid_removal_step(idxs, 0, orig.len());
        lemma_remove_desc_map_str(orig2, idxs.skip(1));
    }
}

/// Removes, in order, each listed position from the vector.
fn remove_many_i32(v: &mut Vec<i32>, idxs: &Vec<usize>)
    requires
        valid_removal(idxs@, old(v)@.len()),
    ensures
        final(v)@ == remove_desc(old(v)@, idxs@),
{
    let mut k: usize = 0;
    proof {
        assert(idxs@.skip(0) =~= idxs@);
    }
    while k < idxs.len()
        invariant
            k <= idxs@.len(),
            remove_desc(old(v)@, idxs@) == remove_desc(v@, idxs@.skip(k as int)),
            valid_removal(idxs@.skip(k as int), v@.len()),
        decreases idxs@.len() - k,
    {
        proof {
            assert(idxs@.skip(k as int)[0] == idxs@[k as int]);
        }
        v.remove(idxs[k]);
        proof {
            assert(idxs@.skip(k as int).skip(1) =~= idxs@.skip(k + 1));
            lemma_valid_removal_step(idxs@, k as int, v@.len() + 1);
        }
        k = k + 1;
    }
    proof {
        assert(idxs@.skip(idxs@.len() as int) =~= Seq::<usize>::empty());
    }
}

/// Removes, in order, each listed position from the vector.
fn remove_many_dec(v: &mut Vec<Decimal>, idxs: &Vec<usize>)
    requires
        valid_removal(idxs@, old(v)@.len()),
    ensures
        final(v)@ == remove_desc(old(v)@, idxs@),
{
    let mut k: usize = 0;
    proof {
        assert(idxs@.skip(0) =~= idxs@);
    }
    while k < idxs.len()
        invariant
            k <= idxs@.len(),
            remove_desc(old(v)@, idxs@) == remove_desc(v@, idxs@.skip(k as int)),
            valid_removal(idxs@.skip(k as int), v@.len()),
        decreases idxs@.len() - k,
    {
        proof {
            assert(idxs@.skip(k as int)[0] == idxs@[k as int]);
        }
        v.remove(idxs[k]);
        proof {
            assert(idxs@.skip(k as int).skip(1) =~= idxs@.skip(k + 1));
            lemma_valid_removal_step(idxs@, k as int, v@.len() + 1);
        }
        k = k + 1;
    }
    proof {
        assert(idxs@.skip(idxs@.len() as int) =~= Seq::<usize>::empty());
    }
}

/// Removes, in order, each listed position from the vector.
fn remove_many_str(v: &mut Vec<String>, idxs: &Vec<usize>)
    requires
        valid_removal(idxs@, old(v)@.len()),
    ensures
        final(v)@ == remove_desc(old(v)@, idxs@),
{
    let mut k: usize = 0;
    proof {
        assert(idxs@.skip(0) =~= idxs@);
    }
    while k < idxs.len()
        invariant
            k <= idxs@.len(),
            remove_desc(old(v)@, idxs@) == remove_desc(v@, idxs@.skip(k as int)),
            valid_removal(idxs@.skip(k as int), v@.len()),
        decreases idxs@.len() - k,
    {
        proof {
            assert(idxs@.skip(k as int)[0] == idxs@[k as int]);
        }
        v.remove(idxs[k]);
        proof {
            assert(idxs@.skip(k as int).skip(1) =~= idxs@.skip(k + 1));
            lemma_valid_removal_step(idxs@, k as int, v@.len() + 1);
        }
        k = k + 1;
    }
    proof {
        assert(idxs@.skip(idxs@.len() as int) =~= Seq::<usize>::empty());
    }
}

/// Removes, in order, each listed position from the vector.
fn remove_many_bool(v: &mut Vec<bool>, idxs: &Vec<usize>)
    requires
        valid_removal(idxs@, old(v)@.len()),
    ensures
        final(v)@ == remove_desc(old(v)@, idxs@),
{
    let mut k: usize = 0;
    proof {
        assert(idxs@.skip(0) =~= idxs@);
    }
    while k < idxs.len()
        invariant
            k <= idxs@.len(),
            remove_desc(old(v)@, idxs@) == remove_desc(v@, idxs@.skip(k as int)),
            valid_removal(idxs@.skip(k as int), v@.len()),
        decreases idxs@.len() - k,
    {
        proof {
            assert(idxs@.skip(k as int)[0] == idxs@[k as int]);
        }
        v.remove(idxs[k]);
        proof {
            assert(idxs@.skip(k as int).skip(1) =~= idxs@.skip(k + 1));
            lemma_valid_removal_step(idxs@, k as int, v@.len() + 1);
        }
        k = k + 1;
    }
    proof {
        assert(idxs@.skip(idxs@.len() as int) =~= Seq::<usize>::empty());
    }
}

/// After removing `idxs[k]` from a vector of length `len`, the remaining
/// indices are still a valid removal for the shorter vector.
proof fn lemma_valid_removal_step(idxs: Seq<usize>, k: int, len: nat)
    requires
        0 <= k < idxs.len(),
        valid_removal(idxs.skip(k), len),
        len > 0,
    ensures
        valid_removal(idxs.skip(k + 1), (len - 1) as nat),
{
    assert forall|i: int|
        0 <= i < idxs.skip(k + 1).len() implies (#[trigger] idxs.skip(k + 1)[i] as nat) < (len
        - 1) as nat by {
        assert(idxs.skip(k + 1)[i] == idxs.skip(k)[i + 1]);
        assert(idxs.skip(k)[0] > idxs.skip(k)[i + 1]);
        assert((idxs.skip(k)[0] as nat) < len);
    }
    assert forall|i: int, j: int|
        0 <= i < j < idxs.skip(k + 1).len() implies #[trigger] idxs.skip(k + 1)[i] > #[trigger] idxs.skip(
        k + 1,
    )[j] by {
        assert(idxs.skip(k + 1)[i] == idxs.skip(k)[i + 1]);
        assert(idxs.skip(k + 1)[j] == idxs.skip(k)[j + 1]);
    }
}

} // verus!
