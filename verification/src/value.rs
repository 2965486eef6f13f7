//! The generic value model: a tagged value tree, its number sub-variant, and
//! an insertion-ordered string-keyed mapping for objects.
//!
//! A `Float` number keeps the (normalized) decimal literal it was written
//! with, so that the lexical form chosen by the parser survives a round trip
//! unchanged; widening it to machine floating point is left to the caller.

use vstd::prelude::*;

verus! {

/// Mathematical image of a [`Number`].
#[verifier::ext_equal]
pub enum NumModel {
    Int(int),
    Uint(int),
    Float(Seq<char>),
    NaN,
    Infinity,
    NegInfinity,
}

/// Mathematical image of a [`Value`]: texts as character sequences, arrays
/// and objects as sequences.
#[verifier::ext_equal]
pub enum ValModel {
    Null,
    Bool(bool),
    Number(NumModel),
    Str(Seq<char>),
    Arr(Seq<ValModel>),
    Obj(Seq<(Seq<char>, ValModel)>),
}

/// Number literals keep the distinction of their lexical form: `Int` for
/// negative integers and small non-negative integers, `Uint` for non-negative
/// integers beyond the signed range, `Float` for literals with a fractional
/// part or exponent (held as their decimal text), and the three special
/// literals.
#[derive(Debug, Clone, PartialEq)]
pub enum Number {
    Int(i64),
    Uint(u64),
    /// The decimal text of the literal, underscores stripped.
    Float(String),
    NaN,
    Infinity,
    NegInfinity,
}

impl View for Number {
    type V = NumModel;

    open spec fn view(&self) -> NumModel {
        match self {
            Number::Int(n) => NumModel::Int(*n as int),
            Number::Uint(n) => NumModel::Uint(*n as int),
            Number::Float(s) => NumModel::Float(s@),
            Number::NaN => NumModel::NaN,
            Number::Infinity => NumModel::Infinity,
            Number::NegInfinity => NumModel::NegInfinity,
        }
    }
}

/// A parsed document: null, a boolean, a number, a string, an array, or an
/// insertion-ordered object.
#[derive(Debug, PartialEq)]
pub enum Value {
    Null,
    Bool(bool),
    Number(Number),
    String(String),
    Array(Vec<Value>),
    Object(ObjectMap),
}

/// An insertion-ordered mapping from strings to values. Keys are unique:
/// inserting an existing key overwrites its value and keeps its position.
#[derive(Debug, PartialEq)]
pub struct ObjectMap {
    entries: Vec<(String, Value)>,
}

impl Value {
    /// Mathematical image of this value.
    pub open spec fn view(&self) -> ValModel
        decreases self,
    {
        match self {
            Value::Null => ValModel::Null,
            Value::Bool(b) => ValModel::Bool(*b),
            Value::Number(n) => ValModel::Number(n@),
            Value::String(s) => ValModel::Str(s@),
            Value::Array(a) => ValModel::Arr(arr_view(a@)),
            Value::Object(m) => ValModel::Obj(m.view()),
        }
    }
}

/// The shape name of a value, as mismatch errors carry it.
pub open spec fn kind_text(v: ValModel) -> Seq<char> {
    match v {
        ValModel::Null => "null"@,
        ValModel::Bool(_) => "bool"@,
        ValModel::Number(_) => "number"@,
        ValModel::Str(_) => "string"@,
        ValModel::Arr(_) => "array"@,
        ValModel::Obj(_) => "object"@,
    }
}

impl Value {
    /// A short name for the shape of this value, used in mismatch errors and
    /// never for control flow.
    pub fn kind_name(&self) -> (r: &'static str)
        ensures
            r@ == kind_text(self.view()),
    {
        match self {
            Value::Null => "null",
            Value::Bool(_) => "bool",
            Value::Number(_) => "number",
            Value::String(_) => "string",
            Value::Array(_) => "array",
            Value::Object(_) => "object",
        }
    }
}

/// Mathematical image of an array's elements, in order.
pub open spec fn arr_view(a: Seq<Value>) -> Seq<ValModel>
    decreases a,
{
    if a.len() == 0 {
        Seq::empty()
    } else {
        seq![a[0].view()] + arr_view(a.drop_first())
    }
}

/// Mathematical image of an object's entries, in order.
pub open spec fn obj_view(e: Seq<(String, Value)>) -> Seq<(Seq<char>, ValModel)>
    decreases e,
{
    if e.len() == 0 {
        Seq::empty()
    } else {
        seq![(e[0].0@, e[0].1.view())] + obj_view(e.drop_first())
    }
}

/// `arr_view` maps the sequence elementwise.
pub proof fn lemma_arr_view(a: Seq<Value>)
    ensures
        arr_view(a).len() == a.len(),
        forall|i: int| 0 <= i < a.len() ==> arr_view(a)[i] == a[i].view(),
    decreases a.len(),
{
    if a.len() > 0 {
        lemma_arr_view(a.drop_first());
    }
}

/// `obj_view` maps the sequence elementwise.
pub proof fn lemma_obj_view(e: Seq<(String, Value)>)
    ensures
        obj_view(e).len() == e.len(),
        forall|i: int|
            0 <= i < e.len() ==> obj_view(e)[i] == (e[i].0@, e[i].1.view()),
    decreases e.len(),
{
    if e.len() > 0 {
        lemma_obj_view(e.drop_first());
    }
}

/// The position of the first entry keyed `k`, or the length when no entry is.
pub open spec fn key_index(entries: Seq<(Seq<char>, ValModel)>, k: Seq<char>) -> int
    decreases entries.len(),
{
    if entries.len() == 0 {
        0
    } else if entries[0].0 == k {
        0
    } else {
        1 + key_index(entries.drop_first(), k)
    }
}

/// `key_index` points at the first entry keyed `k`, past the end when none is.
pub proof fn lemma_key_index(entries: Seq<(Seq<char>, ValModel)>, k: Seq<char>)
    ensures
        0 <= key_index(entries, k) <= entries.len(),
        key_index(entries, k) < entries.len() ==> entries[key_index(entries, k)].0 == k,
        forall|j: int| 0 <= j < key_index(entries, k) ==> entries[j].0 != k,
    decreases entries.len(),
{
    if entries.len() > 0 && entries[0].0 != k {
        lemma_key_index(entries.drop_first(), k);
        assert forall|j: int| 0 <= j < key_index(entries, k) implies entries[j].0 != k by {
            if j > 0 {
                assert(entries.drop_first()[j - 1] == entries[j]);
            }
        }
    }
}

/// A position that holds `k` first is where `key_index` points.
pub proof fn lemma_key_index_is(entries: Seq<(Seq<char>, ValModel)>, k: Seq<char>, i: int)
    requires
        0 <= i < entries.len(),
        entries[i].0 == k,
        forall|j: int| 0 <= j < i ==> entries[j].0 != k,
    ensures
        key_index(entries, k) == i,
{
    lemma_key_index(entries, k);
    let ki = key_index(entries, k);
    if ki < i {
        assert(entries[ki].0 == k);
    }
    if i < ki {
        assert(entries[i].0 != k);
    }
}

/// When no position holds `k`, `key_index` points past the end.
pub proof fn lemma_key_index_missing(entries: Seq<(Seq<char>, ValModel)>, k: Seq<char>)
    requires
        forall|j: int| 0 <= j < entries.len() ==> entries[j].0 != k,
    ensures
        key_index(entries, k) == entries.len(),
{
    lemma_key_index(entries, k);
    let ki = key_index(entries, k);
    if ki < entries.len() {
        assert(entries[ki].0 == k);
    }
}

/// The value bound to key `k` among `entries`, if any.
pub open spec fn obj_get_model(entries: Seq<(Seq<char>, ValModel)>, k: Seq<char>) -> Option<
    ValModel,
> {
    if key_index(entries, k) < entries.len() {
        Some(entries[key_index(entries, k)].1)
    } else {
        None
    }
}

/// Binding `k` to `v` among `entries`: an existing key keeps its position and
/// gets the new value; a new key is appended.
pub open spec fn obj_insert_model(
    entries: Seq<(Seq<char>, ValModel)>,
    k: Seq<char>,
    v: ValModel,
) -> Seq<(Seq<char>, ValModel)> {
    if key_index(entries, k) < entries.len() {
        entries.update(key_index(entries, k), (k, v))
    } else {
        entries.push((k, v))
    }
}

/// Inserting keeps keys unique.
pub proof fn lemma_obj_insert_unique(
    entries: Seq<(Seq<char>, ValModel)>,
    k: Seq<char>,
    v: ValModel,
)
    requires
        obj_keys_unique(entries),
    ensures
        obj_keys_unique(obj_insert_model(entries, k, v)),
{
    lemma_key_index(entries, k);
}

/// No key occurs twice among `entries`.
pub open spec fn obj_keys_unique(entries: Seq<(Seq<char>, ValModel)>) -> bool {
    forall|i: int, j: int|
        0 <= i < j < entries.len() ==> entries[i].0 != entries[j].0
}

impl ObjectMap {
    /// The entries as they stand in memory.
    pub closed spec fn spec_entries(&self) -> Seq<(String, Value)> {
        self.entries@
    }

    /// Mathematical image of this object: its key/value pairs in insertion
    /// order.
    pub open spec fn view(&self) -> Seq<(Seq<char>, ValModel)>
        decreases self,
    {
        obj_view(self.spec_entries())
    }

    /// An empty object.
    pub fn new() -> (r: ObjectMap)
        ensures
            r.view() == Seq::<(Seq<char>, ValModel)>::empty(),
    {
        let r = ObjectMap { entries: Vec::new() };
        proof {
            assert(r.view() =~= Seq::<(Seq<char>, ValModel)>::empty());
        }
        r
    }

    /// How many keys the object holds.
    pub fn len(&self) -> (n: usize)
        ensures
            n == self.view().len(),
    {
        proof {
            lemma_obj_view(self.spec_entries());
        }
        self.entries.len()
    }

    /// Whether the object holds no keys.
    pub fn is_empty(&self) -> (r: bool)
        ensures
            r == (self.view().len() == 0),
    {
        proof {
            lemma_obj_view(self.spec_entries());
        }
        self.entries.len() == 0
    }

    /// The entry at position `i`, in insertion order.
    pub fn entry_at(&self, i: usize) -> (r: &(String, Value))
        requires
            i < self.view().len(),
        ensures
            r.0@ == self.view()[i as int].0,
            r.1.view() == self.view()[i as int].1,
            (decreases_to!(*self => *r)),
    {
        proof {
            lemma_obj_view(self.spec_entries());
        }
        let r = &self.entries[i];
        proof {
            assert(decreases_to!(*self => self.entries));
            assert(decreases_to!(self.entries => self.entries@[i as int]));
            assert(decreases_to!(*self => *r));
        }
        r
    }

    /// The value bound to `key`, if any.
    pub fn get(&self, key: &str) -> (r: Option<&Value>)
        ensures
            match r {
                Some(v) => obj_get_model(self.view(), key@) == Some(v.view()),
                None => obj_get_model(self.view(), key@) is None,
            },
    {
        proof {
            lemma_obj_view(self.spec_entries());
            lemma_key_index(self.view(), key@);
        }
        let n = self.entries.len();
        let mut i: usize = 0;
        while i < n
            invariant
                n == self.view().len(),
                n == self.spec_entries().len(),
                i <= n,
                forall|j: int| 0 <= j < i ==> self.view()[j].0 != key@,
                obj_view(self.spec_entries()) == self.view(),
                self.view().len() == self.spec_entries().len(),
                forall|j: int|
                    0 <= j < n ==> self.view()[j] == (
                    self.spec_entries()[j].0@,
                    self.spec_entries()[j].1.view(),
                    ),
            decreases n - i,
        {
            if crate::text::str_eq(self.entries[i].0.as_str(), key) {
                proof {
                    assert(self.view()[i as int].0 == key@);
                    lemma_key_index_is(self.view(), key@, i as int);
                }
                return Some(&self.entries[i].1);
            }
            i = i + 1;
        }
        proof {
            lemma_key_index_missing(self.view(), key@);
        }
        None
    }

    /// Binds `key` to `value`: an existing key keeps its position and gets
    /// the new value; a new key is appended.
    pub fn insert(&mut self, key: String, value: Value)
        ensures
            final (self).view() == obj_insert_model(old(self).view(), key@, value@),
    {
        proof {
            lemma_obj_view(self.spec_entries());
            lemma_key_index(self.view(), key@);
        }
        let n = self.entries.len();
        let mut i: usize = 0;
        while i < n
            invariant
                *self == *old(self),
                n == self.view().len(),
                n == self.spec_entries().len(),
                i <= n,
                forall|j: int| 0 <= j < i ==> self.view()[j].0 != key@,
                forall|j: int|
                    0 <= j < n ==> self.view()[j] == (
                    self.spec_entries()[j].0@,
                    self.spec_entries()[j].1.view(),
                    ),
            decreases n - i,
        {
            if crate::text::str_eq(self.entries[i].0.as_str(), key.as_str()) {
                proof {
                    assert(self.view()[i as int].0 == key@);
                    lemma_key_index_is(self.view(), key@, i as int);
                }
                self.entries.remove(i);
                self.entries.insert(i, (key, value));
                proof {
                    assert(self.spec_entries() =~= old(self).spec_entries().update(
                        i as int,
                        (key, value),
                    ));
                    lemma_obj_view(self.spec_entries());
                    lemma_obj_view(old(self).spec_entries());
                    assert(self.view() =~= obj_insert_model(old(self).view(), key@, value@));
                }
                return ;
            }
            i = i + 1;
        }
        proof {
            lemma_key_index_missing(self.view(), key@);
        }
        self.entries.push((key, value));
        proof {
            lemma_obj_view(self.spec_entries());
            lemma_obj_view(old(self).spec_entries());
            assert(self.spec_entries() =~= old(self).spec_entries().push((key, value)));
            assert(self.view() =~= obj_insert_model(old(self).view(), key@, value@));
        }
    }
}

} // verus!
