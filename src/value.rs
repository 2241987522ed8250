//! The tree that every command works on, with its mathematical model.
use vstd::prelude::*;
use crate::number::Number;

verus! {

/// The model of a tree: what a [`Value`] denotes.
pub enum Json {
    Null,
    Bool(bool),
    /// A number, by its canonical text.
    Number(Seq<char>),
    Str(Seq<char>),
    Array(Seq<Json>),
    /// Entries in insertion order; the keys of a well-formed object are distinct.
    Object(Seq<(Seq<char>, Json)>),
}

/// The keys of `m` are pairwise distinct.
pub open spec fn keys_distinct(m: Seq<(Seq<char>, Json)>) -> bool {
    forall|i: int, j: int| 0 <= i < m.len() && 0 <= j < m.len() && i != j ==> m[i].0 != m[j].0
}

/// `m` holds an entry under `k`.
pub open spec fn has_key(m: Seq<(Seq<char>, Json)>, k: Seq<char>) -> bool {
    exists|i: int| 0 <= i < m.len() && m[i].0 == k
}

/// Inserting `(k, v)`: an entry already under `k` takes the new value in place,
/// otherwise the entry goes at the end.
pub open spec fn insert_entry(m: Seq<(Seq<char>, Json)>, k: Seq<char>, v: Json) -> Seq<(Seq<char>, Json)> {
    if has_key(m, k) {
        let i = choose|i: int| 0 <= i < m.len() && m[i].0 == k;
        m.update(i, (k, v))
    } else {
        m.push((k, v))
    }
}

/// An object: entries with distinct keys, in insertion order.
pub struct Object {
    entries: Vec<(String, Value)>,
}

/// A tree of JSON shape.
pub enum Value {
    Null,
    Bool(bool),
    Number(Number),
    String(String),
    Array(Vec<Value>),
    Object(Object),
}

impl View for Value {
    type V = Json;

    open spec fn view(&self) -> Json
        decreases self,
    {
        match self {
            Value::Null => Json::Null,
            Value::Bool(b) => Json::Bool(*b),
            Value::Number(n) => Json::Number(n@),
            Value::String(s) => Json::Str(s@),
            Value::Array(a) => Json::Array(view_values(a@)),
            Value::Object(o) => Json::Object(o.entries_view()),
        }
    }
}

/// The models of a run of values.
pub open spec fn view_values(a: Seq<Value>) -> Seq<Json>
    decreases a,
{
    Seq::new(a.len(), |i: int| if 0 <= i < a.len() { a[i]@ } else { Json::Null })
}

/// The model of a run of entries.
pub open spec fn view_entries(e: Seq<(String, Value)>) -> Seq<(Seq<char>, Json)>
    decreases e,
{
    Seq::new(
        e.len(),
        |i: int| if 0 <= i < e.len() { (e[i].0@, e[i].1@) } else { (Seq::empty(), Json::Null) },
    )
}

impl Object {
    /// What the object denotes: its entries, keys and values by their models.
    pub closed spec fn entries_view(&self) -> Seq<(Seq<char>, Json)>
        decreases self,
    {
        view_entries(self.entries@)
    }
}

impl Object {
    #[verifier::type_invariant]
    spec fn keys_are_distinct(self) -> bool {
        keys_distinct(self.entries_view())
    }

    /// An object without entries.
    pub fn new() -> (r: Object)
        ensures
            r.entries_view() == Seq::<(Seq<char>, Json)>::empty(),
    {
        let r = Object { entries: Vec::new() };
        assert(r.entries_view() =~= Seq::<(Seq<char>, Json)>::empty());
        r
    }

    /// The number of entries.
    pub fn len(&self) -> (r: usize)
        ensures
            r == self.entries_view().len(),
    {
        self.entries.len()
    }

    /// Puts `value` under `key`: in place of the value already there, if any,
    /// else as a new last entry.
    pub fn insert(&mut self, key: String, value: Value)
        ensures
            final(self).entries_view() == insert_entry(old(self).entries_view(), key@, value@),
    {
        proof {
            use_type_invariant(&*self);
        }
        let ghost m = self.entries_view();
        let mut entries: Vec<(String, Value)> = Vec::new();
        std::mem::swap(&mut entries, &mut self.entries);
        assert(m.len() == entries@.len());
        let mut i: usize = 0;
        while i < entries.len()
            invariant
                0 <= i <= entries.len(),
                m.len() == entries@.len(),
                keys_distinct(m),
                forall|j: int| 0 <= j < entries@.len() ==> (#[trigger] m[j]) == (entries@[j].0@, entries@[j].1@),
                forall|j: int| 0 <= j < i ==> m[j].0 != key@,
            ensures
                0 <= i <= entries.len(),
                i < entries.len() ==> m[i as int].0 == key@,
                forall|j: int| 0 <= j < i ==> m[j].0 != key@,
            decreases entries.len() - i,
        {
            if entries[i].0 == key {
                break;
            }
            i = i + 1;
        }
        let ghost v = value@;
        if i < entries.len() {
            assert(m[i as int].0 == key@);
            assert(has_key(m, key@));
            assert(keys_distinct(m));
            let ghost c = choose|c: int| 0 <= c < m.len() && m[c].0 == key@;
            assert(c == i);
            entries.set(i, (key, value));
            let ghost nv = m.update(i as int, (key@, v));
            assert(keys_distinct(nv));
            assert(view_entries(entries@) =~= nv);
            *self = Object { entries };
            assert(self.entries_view() =~= m.update(i as int, (key@, v)));
        } else {
            assert(!has_key(m, key@));
            entries.push((key, value));
            let ghost nv = m.push((key@, v));
            assert(keys_distinct(nv));
            assert(view_entries(entries@) =~= nv);
            *self = Object { entries };
            assert(self.entries_view() =~= m.push((key@, v)));
        }
    }

    /// The entries, in order.
    pub fn entries(&self) -> (r: &Vec<(String, Value)>)
        ensures
            view_entries(r@) == self.entries_view(),
    {
        &self.entries
    }

    /// The entries, in order; their keys are distinct.
    pub fn into_entries(self) -> (r: Vec<(String, Value)>)
        ensures
            view_entries(r@) == self.entries_view(),
            decreases_to!(self => r),
            keys_distinct(self.entries_view()),
    {
        proof {
            use_type_invariant(&self);
        }
        let Object { entries } = self;
        entries
    }
}

impl Object {
    /// The value under `key`, if any.
    pub fn get(&self, key: &str) -> (r: Option<&Value>)
        ensures
            match r {
                Some(x) => exists|i: int|
                    0 <= i < self.entries_view().len() && self.entries_view()[i] == (key@, x@),
                None => !has_key(self.entries_view(), key@),
            },
    {
        let k = String::from_str(key);
        let mut i: usize = 0;
        while i < self.entries.len()
            invariant
                k@ == key@,
                i <= self.entries@.len(),
                forall|j: int| 0 <= j < i ==> (#[trigger] self.entries_view()[j]).0 != key@,
            decreases self.entries.len() - i,
        {
            let e = &self.entries[i];
            if e.0 == k {
                assert(self.entries_view()[i as int] == (key@, e.1@));
                return Some(&e.1);
            }
            i = i + 1;
        }
        None
    }
}

impl Value {
    /// The value under `key`, where this is an object that has one.
    pub fn get(&self, key: &str) -> (r: Option<&Value>)
        ensures
            match r {
                Some(x) => self@ is Object && exists|i: int|
                    0 <= i < self@->Object_0.len() && self@->Object_0[i] == (key@, x@),
                None => !(self@ is Object && has_key(self@->Object_0, key@)),
            },
    {
        match self {
            Value::Object(o) => o.get(key),
            _ => None,
        }
    }

    /// The element at `i`, where this is an array that long.
    pub fn at(&self, i: usize) -> (r: Option<&Value>)
        ensures
            match r {
                Some(x) => self@ is Array && i < self@->Array_0.len() && x@ == self@->Array_0[i as int],
                None => !(self@ is Array && i < self@->Array_0.len()),
            },
    {
        match self {
            Value::Array(a) => if i < a.len() {
                Some(&a[i])
            } else {
                None
            },
            _ => None,
        }
    }

    /// The text of a string value.
    pub fn as_str(&self) -> (r: Option<&str>)
        ensures
            match r {
                Some(s) => self@ == Json::Str(s@),
                None => !(self@ is Str),
            },
    {
        match self {
            Value::String(s) => Some(s.as_str()),
            _ => None,
        }
    }

    pub fn is_null(&self) -> (r: bool)
        ensures
            r == (self@ is Null),
    {
        match self {
            Value::Null => true,
            _ => false,
        }
    }
}

}
