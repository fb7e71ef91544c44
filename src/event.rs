//! Values, locations and the events of a recorded trace.
use vstd::prelude::*;
use vstd::string::*;

verus! {

pub type Identifier = String;

pub type Index = usize;

/// A value held by a variable or an array slot.
///
/// A 64-bit float is carried as the text it is shown as: the library never
/// computes with it, it only shows it.
#[derive(Debug)]
pub enum Value {
    ArrayVal(Vec<Value>),
    I32Val(i32),
    F64Val(String),
    NilVal,
    StringVal(String),
    UndefinedVal,
}

/// The mathematical model of a `Value`.
pub enum ValueModel {
    Array(Seq<ValueModel>),
    I32(i32),
    F64(Seq<char>),
    Nil,
    Str(Seq<char>),
    Undefined,
}

/// An address: a variable by name, or a slot of the array at an inner location.
#[derive(Debug)]
pub enum Location {
    VariableLoc(Identifier),
    IndexLoc(Box<Location>, Index),
}

/// One recorded state mutation.
#[derive(Debug)]
pub enum Event {
    NoOp,
    /// Changes how a value is shown. No step records the change, so
    /// rewinding past it does not bring the previous mode back.
    Display(Location, DisplayType),
    SetValue(Location, Value),
    Push(Location, Value),
    Pop(Location),
}

#[derive(Copy, Clone, Debug, PartialEq, Eq, Structural)]
pub enum DisplayType {
    Default,
    Tree,
}

/// The models of the first `n` elements of `v`.
pub open spec fn elems_model(v: Vec<Value>, n: nat) -> Seq<ValueModel>
    decreases v, n,
{
    if n == 0 || n > v.len() {
        Seq::empty()
    } else {
        elems_model(v, (n - 1) as nat).push(value_model(v[n - 1]))
    }
}

pub open spec fn value_model(v: Value) -> ValueModel
    decreases v, 0nat,
{
    match v {
        Value::ArrayVal(elems) => ValueModel::Array(elems_model(elems, elems.len() as nat)),
        Value::I32Val(n) => ValueModel::I32(n),
        Value::F64Val(s) => ValueModel::F64(s@),
        Value::NilVal => ValueModel::Nil,
        Value::StringVal(s) => ValueModel::Str(s@),
        Value::UndefinedVal => ValueModel::Undefined,
    }
}

impl View for Value {
    type V = ValueModel;

    open spec fn view(&self) -> ValueModel {
        value_model(*self)
    }
}

pub proof fn lemma_elems_model(v: Vec<Value>, n: nat)
    requires
        n <= v.len(),
    ensures
        elems_model(v, n).len() == n,
        forall|i: int| 0 <= i < n ==> #[trigger] elems_model(v, n)[i] == v[i]@,
    decreases n,
{
    if n > 0 {
        lemma_elems_model(v, (n - 1) as nat);
    }
}

/// The decimal text of a natural number.
pub open spec fn nat_text(n: nat) -> Seq<char>
    decreases n,
{
    if n < 10 {
        seq![digit_char(n)]
    } else {
        nat_text(n / 10).push(digit_char(n % 10))
    }
}

pub open spec fn digit_char(d: nat) -> char {
    if d == 0 { '0' }
    else if d == 1 { '1' }
    else if d == 2 { '2' }
    else if d == 3 { '3' }
    else if d == 4 { '4' }
    else if d == 5 { '5' }
    else if d == 6 { '6' }
    else if d == 7 { '7' }
    else if d == 8 { '8' }
    else { '9' }
}

/// The decimal text of an integer, with a leading `-` when negative.
pub open spec fn int_text(n: int) -> Seq<char> {
    if n < 0 {
        seq!['-'] + nat_text((-n) as nat)
    } else {
        nat_text(n as nat)
    }
}

/// The text that `{:?}` gives a string: quoted, with escapes.
pub uninterp spec fn quoted_text(s: Seq<char>) -> Seq<char>;

/// The texts of the elements of an array, joined by `", "`.
pub open spec fn join_text(s: Seq<ValueModel>) -> Seq<char>
    decreases s,
{
    if s.len() == 0 {
        Seq::empty()
    } else if s.len() == 1 {
        display_text(s[0])
    } else {
        join_text(s.subrange(0, s.len() - 1)) + ", "@ + display_text(s[s.len() - 1])
    }
}

/// How a value is shown.
pub open spec fn display_text(v: ValueModel) -> Seq<char>
    decreases v,
{
    match v {
        ValueModel::Array(s) => "["@ + join_text(s) + "]"@,
        ValueModel::I32(n) => int_text(n as int),
        ValueModel::F64(t) => t,
        ValueModel::Nil => "nil"@,
        ValueModel::Str(t) => quoted_text(t),
        ValueModel::Undefined => "<undefined>"@,
    }
}

pub open spec fn model_is_simple(v: ValueModel) -> bool {
    !(v is Array)
}

/// Relies on `i32`'s `Display` (through `to_string`): decimal digits, `-` when negative.
#[verifier::external_body]
fn i32_to_text(n: i32) -> (r: String)
    ensures
        r@ == int_text(n as int),
{
    n.to_string()
}

/// Relies on `str`'s `Debug` (through `format!`): the string quoted and escaped.
#[verifier::external_body]
fn quote(s: &String) -> (r: String)
    ensures
        r@ == quoted_text(s@),
{
    format!("{:?}", s)
}

impl Value {
    /// The text a presentation layer shows for this value.
    pub fn display_string(&self) -> (r: String)
        ensures
            r@ == display_text(self@),
        decreases self,
    {
        match self {
            Value::ArrayVal(vec) => {
                proof {
                    lemma_elems_model(*vec, vec.len() as nat);
                }
                let ghost elems = self@->Array_0;
                let mut out = String::from_str("[");
                let mut i: usize = 0;
                while i < vec.len()
                    invariant
                        0 <= i <= vec.len(),
                        elems == elems_model(*vec, vec.len() as nat),
                        elems.len() == vec.len(),
                        forall|j: int| 0 <= j < vec.len() ==> #[trigger] elems[j] == vec[j]@,
                        *self == Value::ArrayVal(*vec),
                        out@ == "["@ + join_text(elems.subrange(0, i as int)),
                    decreases vec.len() - i,
                {
                    proof {
                        vstd::std_specs::vec::axiom_vec_index_decreases(*vec, i as int);
                        assert((*self)->ArrayVal_0 == *vec);
                        assert(decreases_to!(*self => (*self)->ArrayVal_0));
                        assert(decreases_to!(*vec => vec[i as int]));
                        assert(decreases_to!(*self => vec[i as int]));
                    }
                    let t = vec[i].display_string();
                    let ghost prev = out@;
                    if i > 0 {
                        out.append(", ");
                    }
                    out.append(t.as_str());
                    proof {
                        let s = elems.subrange(0, i + 1);
                        assert(s.subrange(0, s.len() - 1) =~= elems.subrange(0, i as int));
                        assert(s[s.len() - 1] == vec[i as int]@);
                        if i == 0 {
                            assert(elems.subrange(0, 0).len() == 0);
                        }
                    }
                    i = i + 1;
                }
                assert(elems.subrange(0, vec.len() as int) =~= elems);
                out.append("]");
                out
            },
            Value::I32Val(n) => i32_to_text(*n),
            Value::F64Val(t) => t.clone(),
            Value::NilVal => String::from_str("nil"),
            Value::StringVal(s) => quote(s),
            Value::UndefinedVal => String::from_str("<undefined>"),
        }
    }

    /// Every value but an array is simple.
    pub fn is_simple(&self) -> (r: bool)
        ensures
            r == model_is_simple(self@),
    {
        match self {
            Value::ArrayVal(_) => false,
            _ => true,
        }
    }

    /// A copy of this value, element by element.
    pub fn deep_clone(&self) -> (r: Value)
        ensures
            r@ == self@,
        decreases self,
    {
        match self {
            Value::ArrayVal(vec) => {
                proof {
                    lemma_elems_model(*vec, vec.len() as nat);
                }
                let mut out: Vec<Value> = Vec::new();
                let mut i: usize = 0;
                while i < vec.len()
                    invariant
                        0 <= i <= vec.len(),
                        out.len() == i,
                        *self == Value::ArrayVal(*vec),
                        forall|j: int| 0 <= j < i ==> #[trigger] out[j]@ == vec[j]@,
                    decreases vec.len() - i,
                {
                    proof {
                        vstd::std_specs::vec::axiom_vec_index_decreases(*vec, i as int);
                        assert((*self)->ArrayVal_0 == *vec);
                        assert(decreases_to!(*self => (*self)->ArrayVal_0));
                        assert(decreases_to!(*vec => vec[i as int]));
                        assert(decreases_to!(*self => vec[i as int]));
                    }
                    let c = vec[i].deep_clone();
                    out.push(c);
                    i = i + 1;
                }
                proof {
                    lemma_elems_model(out, out.len() as nat);
                    assert(elems_model(out, out.len() as nat) =~= elems_model(*vec, vec.len() as nat));
                }
                Value::ArrayVal(out)
            },
            Value::I32Val(n) => Value::I32Val(*n),
            Value::F64Val(t) => Value::F64Val(t.clone()),
            Value::NilVal => Value::NilVal,
            Value::StringVal(s) => Value::StringVal(s.clone()),
            Value::UndefinedVal => Value::UndefinedVal,
        }
    }

    pub fn is_undefined(&self) -> (r: bool)
        ensures
            r == (self@ is Undefined),
    {
        match self {
            Value::UndefinedVal => true,
            _ => false,
        }
    }
}

} // verus!
