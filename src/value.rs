//! The dynamic record type: a tagged value in the shape of a JSON document.
use vstd::prelude::*;
use crate::text::text_eq;

verus! {

broadcast use vstd::std_specs::vec::group_vec_axioms;

/// A tagged value. The engine works on `Object` records; readers produce
/// string fields and `reduce_by_key` produces one string key and one
/// unsigned count.
#[derive(Debug, PartialEq, Eq)]
pub enum Value {
    Null,
    Bool(bool),
    /// A non-negative integer.
    Int(u64),
    /// A negative integer.
    NegInt(i64),
    /// A number that is not an integer, kept as its decimal text.
    Number(String),
    Str(String),
    Array(Vec<Value>),
    /// Fields in insertion order; a later field shadows an earlier one with
    /// the same name.
    Object(Vec<(String, Value)>),
}

/// The record type of the operators.
pub type Record = Value;

/// The value of field `k` among `fs`: the last field with that name.
pub open spec fn field_of(fs: Seq<(String, Value)>, k: Seq<char>) -> Option<Value>
    decreases fs.len(),
{
    if fs.len() == 0 {
        None
    } else if fs.last().0@ == k {
        Some(fs.last().1)
    } else {
        field_of(fs.drop_last(), k)
    }
}

/// The names of the fields among `fs`.
pub open spec fn field_names(fs: Seq<(String, Value)>) -> Set<Seq<char>> {
    Set::new(|k: Seq<char>| exists|i: int| 0 <= i < fs.len() && fs[i].0@ == k)
}

impl Value {
    /// Every variant but `Array` and `Object`.
    pub open spec fn is_scalar(self) -> bool {
        !(self is Array) && !(self is Object)
    }

    /// The value of field `k` when `self` is an object holding it.
    pub open spec fn spec_field(self, k: Seq<char>) -> Option<Value> {
        match self {
            Value::Object(fs) => field_of(fs@, k),
            _ => None,
        }
    }

    /// The text of field `k` when it holds a string.
    pub open spec fn str_field(self, k: Seq<char>) -> Option<Seq<char>> {
        match self.spec_field(k) {
            Some(Value::Str(s)) => Some(s@),
            _ => None,
        }
    }

    /// The number in field `k` when it holds a non-negative integer.
    pub open spec fn u64_field(self, k: Seq<char>) -> Option<u64> {
        match self.spec_field(k) {
            Some(Value::Int(n)) => Some(n),
            _ => None,
        }
    }

    pub fn as_str(&self) -> (r: Option<&str>)
        ensures
            match *self {
                Value::Str(s) => r.is_some() && r.unwrap()@ == s@,
                _ => r.is_none(),
            },
    {
        match self {
            Value::Str(s) => Some(s.as_str()),
            _ => None,
        }
    }

    pub fn as_u64(&self) -> (r: Option<u64>)
        ensures
            match *self {
                Value::Int(n) => r == Some(n),
                _ => r.is_none(),
            },
    {
        match self {
            Value::Int(n) => Some(*n),
            _ => None,
        }
    }

    pub fn as_object(&self) -> (r: Option<&Vec<(String, Value)>>)
        ensures
            match *self {
                Value::Object(fs) => r == Some(&fs),
                _ => r.is_none(),
            },
    {
        match self {
            Value::Object(fs) => Some(fs),
            _ => None,
        }
    }

    /// Field `k` of an object; `None` for a missing field or a non-object.
    pub fn get(&self, k: &str) -> (r: Option<&Value>)
        ensures
            match self.spec_field(k@) {
                Some(v) => r == Some(&v),
                None => r.is_none(),
            },
    {
        match self {
            Value::Object(fs) => lookup_field(fs, k),
            _ => None,
        }
    }

    /// A deep copy.
    #[verifier::loop_isolation(false)]
    pub fn copy(&self) -> (r: Value)
        ensures
            same_value(r, *self),
            self.is_scalar() ==> r == *self,
        decreases self,
    {
        match self {
            Value::Null => Value::Null,
            Value::Bool(b) => Value::Bool(*b),
            Value::Int(n) => Value::Int(*n),
            Value::NegInt(n) => Value::NegInt(*n),
            Value::Number(s) => Value::Number(s.clone()),
            Value::Str(s) => Value::Str(s.clone()),
            Value::Array(items) => {
                let mut out: Vec<Value> = Vec::new();
                let mut i: usize = 0;
                assert(items@.take(0) =~= Seq::<Value>::empty());
                while i < items.len()
                    invariant
                        i <= items.len(),
                        same_items(out@, items@.take(i as int)),
                    decreases items.len() - i,
                {
                    proof {
                        assert(decreases_to!(*self => *items));
                        assert(decreases_to!(*items => items[i as int]));
                    }
                    let c = items[i].copy();
                    let ghost before = out@;
                    out.push(c);
                    proof {
                        assert(out@.drop_last() =~= before);
                        assert(items@.take(i + 1).drop_last() =~= items@.take(i as int));
                    }
                    i += 1;
                }
                assert(items@.take(items.len() as int) =~= items@);
                Value::Array(out)
            }
            Value::Object(fs) => {
                proof {
                    assert(decreases_to!(*self => *fs));
                }
                Value::Object(copy_fields(fs))
            }
        }
    }
}

/// Deep equality: equal variants holding equal texts, numbers and flags,
/// and deeply equal items and fields.
pub open spec fn same_value(a: Value, b: Value) -> bool
    decreases a,
{
    match (a, b) {
        (Value::Array(x), Value::Array(y)) => same_items(x@, y@),
        (Value::Object(x), Value::Object(y)) => same_fields(x@, y@),
        (Value::Str(x), Value::Str(y)) => x@ == y@,
        (Value::Number(x), Value::Number(y)) => x@ == y@,
        _ => a == b,
    }
}

/// Item-wise deep equality.
pub open spec fn same_items(x: Seq<Value>, y: Seq<Value>) -> bool
    decreases x,
{
    if x.len() == 0 {
        y.len() == 0
    } else {
        y.len() == x.len() && same_value(x.last(), y.last()) && same_items(
            x.drop_last(),
            y.drop_last(),
        )
    }
}

/// Field-wise deep equality: the same names, in order, with deeply equal
/// values.
pub open spec fn same_fields(x: Seq<(String, Value)>, y: Seq<(String, Value)>) -> bool
    decreases x,
{
    if x.len() == 0 {
        y.len() == 0
    } else {
        y.len() == x.len() && x.last().0@ == y.last().0@ && same_value(x.last().1, y.last().1)
            && same_fields(x.drop_last(), y.drop_last())
    }
}

/// The last field named `k` among `fs`.
pub fn lookup_field<'a>(fs: &'a Vec<(String, Value)>, k: &str) -> (r: Option<&'a Value>)
    ensures
        match field_of(fs@, k@) {
            Some(v) => r == Some(&v),
            None => r.is_none(),
        },
{
    let mut i: usize = fs.len();
    assert(fs@.take(fs.len() as int) =~= fs@);
    while i > 0
        invariant
            i <= fs.len(),
            field_of(fs@, k@) == field_of(fs@.take(i as int), k@),
        decreases i,
    {
        let ghost pre = fs@.take(i as int);
        assert(pre.drop_last() =~= fs@.take(i - 1));
        if text_eq(fs[i - 1].0.as_str(), k) {
            return Some(&fs[i - 1].1);
        }
        i -= 1;
    }
    None
}

pub proof fn lemma_same_fields_index(x: Seq<(String, Value)>, y: Seq<(String, Value)>)
    requires
        same_fields(x, y),
    ensures
        x.len() == y.len(),
        forall|i: int|
            0 <= i < x.len() ==> (#[trigger] x[i]).0@ == y[i].0@ && same_value(x[i].1, y[i].1),
    decreases x.len(),
{
    if x.len() > 0 {
        lemma_same_fields_index(x.drop_last(), y.drop_last());
        assert forall|i: int| 0 <= i < x.len() implies (#[trigger] x[i]).0@ == y[i].0@
            && same_value(x[i].1, y[i].1) by {
            if i < x.len() - 1 {
                assert(x.drop_last()[i] == x[i]);
                assert(y.drop_last()[i] == y[i]);
            }
        }
    }
}

/// A deep copy of a field list.
pub fn copy_fields(fs: &Vec<(String, Value)>) -> (r: Vec<(String, Value)>)
    ensures
        same_fields(r@, fs@),
    decreases fs,
{
    let mut out: Vec<(String, Value)> = Vec::new();
    let mut i: usize = 0;
    assert(fs@.take(0) =~= Seq::<(String, Value)>::empty());
    while i < fs.len()
        invariant
            i <= fs.len(),
            same_fields(out@, fs@.take(i as int)),
        decreases fs.len() - i,
    {
        proof {
            assert(decreases_to!(*fs => fs[i as int]));
            assert(decreases_to!(fs[i as int] => fs[i as int].1));
        }
        let name = fs[i].0.clone();
        let v = fs[i].1.copy();
        let ghost before = out@;
        out.push((name, v));
        proof {
            assert(out@.drop_last() =~= before);
            assert(fs@.take(i + 1).drop_last() =~= fs@.take(i as int));
        }
        i += 1;
    }
    assert(fs@.take(fs.len() as int) =~= fs@);
    out
}

} // verus!
