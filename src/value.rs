//! Loosely typed values carried by documents and logic graphs, and an
//! insertion-ordered map from names to such values.
use vstd::prelude::*;

verus! {

/// A scalar JSON-like value. Numbers with a fraction, arrays and objects are
/// carried as their compact JSON text in `Raw`.
#[derive(Debug)]
pub enum Value {
    Null,
    Bool(bool),
    Int(i64),
    Text(String),
    Raw(String),
}

/// The mathematical model of a `Value`.
pub enum ValueModel {
    Null,
    Bool(bool),
    Int(int),
    Text(Seq<char>),
    Raw(Seq<char>),
}

impl View for Value {
    type V = ValueModel;

    open spec fn view(&self) -> ValueModel {
        match self {
            Value::Null => ValueModel::Null,
            Value::Bool(b) => ValueModel::Bool(*b),
            Value::Int(n) => ValueModel::Int(*n as int),
            Value::Text(s) => ValueModel::Text(s@),
            Value::Raw(s) => ValueModel::Raw(s@),
        }
    }
}

/// Equality of two strings given as slices.
pub fn str_eq(a: &str, b: &str) -> (r: bool)
    ensures
        r == (a@ == b@),
{
    let x = a.to_owned();
    let y = b.to_owned();
    x == y
}

/// A copy of a string slice as an owned string.
pub fn owned(s: &str) -> (r: String)
    ensures
        r@ == s@,
{
    s.to_owned()
}

impl Value {
    /// A copy with the same model.
    pub fn duplicate(&self) -> (r: Value)
        ensures
            r@ == self@,
    {
        match self {
            Value::Null => Value::Null,
            Value::Bool(b) => Value::Bool(*b),
            Value::Int(n) => Value::Int(*n),
            Value::Text(s) => Value::Text(s.clone()),
            Value::Raw(s) => Value::Raw(s.clone()),
        }
    }

    /// Whether two values are equal.
    pub fn equals(&self, other: &Value) -> (r: bool)
        ensures
            r == (self@ == other@),
    {
        match self {
            Value::Null => match other {
                Value::Null => true,
                _ => false,
            },
            Value::Bool(a) => match other {
                Value::Bool(b) => *a == *b,
                _ => false,
            },
            Value::Int(a) => match other {
                Value::Int(b) => *a == *b,
                _ => false,
            },
            Value::Text(a) => match other {
                Value::Text(b) => *a == *b,
                _ => false,
            },
            Value::Raw(a) => match other {
                Value::Raw(b) => *a == *b,
                _ => false,
            },
        }
    }

    /// The text of a `Text` value.
    pub fn as_text(&self) -> (r: Option<&String>)
        ensures
            r matches Some(s) ==> self@ == ValueModel::Text(s@),
            r is None ==> !(self@ is Text),
    {
        match self {
            Value::Text(s) => Some(s),
            _ => None,
        }
    }
}

/// Values that can be copied with their model kept.
pub trait Replicate: View + Sized {
    /// The value's own invariant.
    spec fn valid(&self) -> bool;

    fn replicate(&self) -> (r: Self)
        requires
            self.valid(),
        ensures
            r@ == self@,
            r.valid(),
    ;
}

impl Replicate for Value {
    open spec fn valid(&self) -> bool {
        true
    }

    fn replicate(&self) -> (r: Value) {
        self.duplicate()
    }
}

impl Replicate for String {
    open spec fn valid(&self) -> bool {
        true
    }

    fn replicate(&self) -> (r: String) {
        self.clone()
    }
}

/// Keys of a sequence of entries are pairwise distinct.
pub open spec fn keys_unique<V>(s: Seq<(String, V)>) -> bool {
    forall|i: int, j: int| 0 <= i < j < s.len() ==> s[i].0@ != s[j].0@
}

/// A map from names to values that keeps the order in which names were first
/// inserted.
#[derive(Debug)]
pub struct Keyed<V> {
    pub entries: Vec<(String, V)>,
}

/// Named loosely typed values: style declarations, free-form properties.
pub type PropMap = Keyed<Value>;

impl<V: View> View for Keyed<V> {
    type V = Map<Seq<char>, V::V>;

    open spec fn view(&self) -> Map<Seq<char>, V::V> {
        Map::new(
            |k: Seq<char>| exists|i: int| 0 <= i < self.entries@.len() && self.entries@[i].0@ == k,
            |k: Seq<char>|
                self.entries@[choose|i: int|
                    0 <= i < self.entries@.len() && self.entries@[i].0@ == k].1@,
        )
    }
}

impl<V: Replicate> Keyed<V> {
    pub open spec fn wf(&self) -> bool {
        &&& keys_unique(self.entries@)
        &&& forall|i: int| 0 <= i < self.entries@.len() ==> (#[trigger] self.entries@[i]).1.valid()
    }

    /// In a well-formed map, the entry at `i` gives the value of its key.
    pub proof fn lemma_entry(&self, i: int)
        requires
            self.wf(),
            0 <= i < self.entries@.len(),
        ensures
            self@.contains_key(self.entries@[i].0@),
            self@[self.entries@[i].0@] == self.entries@[i].1@,
    {
        let k = self.entries@[i].0@;
        assert(self.entries@[i].0@ == k);
        let j = choose|j: int| 0 <= j < self.entries@.len() && self.entries@[j].0@ == k;
        assert(j == i);
    }

    pub fn new() -> (r: Keyed<V>)
        ensures
            r.wf(),
            r@ == Map::<Seq<char>, V::V>::empty(),
    {
        let r = Keyed { entries: Vec::new() };
        assert(r@ =~= Map::<Seq<char>, V::V>::empty());
        r
    }

    /// The index of the entry with key `k`, if any.
    pub fn find(&self, k: &str) -> (r: Option<usize>)
        requires
            self.wf(),
        ensures
            r matches Some(i) ==> i < self.entries@.len() && self.entries@[i as int].0@ == k@,
            r is None <==> !self@.contains_key(k@),
    {
        let mut i: usize = 0;
        while i < self.entries.len()
            invariant
                i <= self.entries@.len(),
                forall|j: int| 0 <= j < i ==> self.entries@[j].0@ != k@,
            decreases self.entries@.len() - i,
        {
            if str_eq(self.entries[i].0.as_str(), k) {
                return Some(i);
            }
            i = i + 1;
        }
        None
    }

    /// The value stored under `k`.
    pub fn get(&self, k: &str) -> (r: Option<&V>)
        requires
            self.wf(),
        ensures
            r matches Some(v) ==> self@.contains_key(k@) && self@[k@] == v@ && v.valid(),
            r is None <==> !self@.contains_key(k@),
    {
        match self.find(k) {
            Some(i) => {
                proof {
                    self.lemma_entry(i as int);
                }
                Some(&self.entries[i].1)
            },
            None => None,
        }
    }

    /// Stores `v` under `k`, replacing an earlier value.
    pub fn insert(&mut self, k: String, v: V)
        requires
            old(self).wf(),
            v.valid(),
        ensures
            final(self).wf(),
            final(self)@ == old(self)@.insert(k@, v@),
    {
        let ghost vm = v@;
        let ghost km = k@;
        match self.find(k.as_str()) {
            Some(i) => {
                self.entries.set(i, (k, v));
                proof {
                    assert forall|a: int, b: int|
                        0 <= a < b < self.entries@.len() implies self.entries@[a].0@
                        != self.entries@[b].0@ by {
                        assert(old(self).entries@[a].0@ != old(self).entries@[b].0@);
                    }
                    assert forall|key: Seq<char>|
                        #![auto]
                        self@.contains_key(key) == old(self)@.insert(km, vm).contains_key(key) by {
                        if key != km && old(self)@.contains_key(key) {
                            let j = choose|j: int|
                                0 <= j < old(self).entries@.len() && old(self).entries@[j].0@
                                    == key;
                            assert(self.entries@[j].0@ == key);
                        }
                        if key == km {
                            assert(self.entries@[i as int].0@ == key);
                        }
                    }
                    assert forall|key: Seq<char>| #[trigger]
                        self@.contains_key(key) implies self@[key] == old(self)@.insert(
                        km,
                        vm,
                    )[key] by {
                        let j = choose|j: int|
                            0 <= j < self.entries@.len() && self.entries@[j].0@ == key;
                        self.lemma_entry(j);
                        if j != i {
                            old(self).lemma_entry(j);
                        }
                    }
                    assert(self@ =~= old(self)@.insert(km, vm));
                }
            },
            None => {
                self.entries.push((k, v));
                proof {
                    let n = old(self).entries@.len() as int;
                    assert forall|a: int, b: int|
                        0 <= a < b < self.entries@.len() implies self.entries@[a].0@
                        != self.entries@[b].0@ by {
                        if b == n {
                            assert(old(self).entries@[a].0@ != km) by {
                                if old(self).entries@[a].0@ == km {
                                    assert(old(self)@.contains_key(km));
                                }
                            }
                        } else {
                            assert(old(self).entries@[a].0@ != old(self).entries@[b].0@);
                        }
                    }
                    assert forall|key: Seq<char>|
                        #![auto]
                        self@.contains_key(key) == old(self)@.insert(km, vm).contains_key(key) by {
                        if key != km && old(self)@.contains_key(key) {
                            let j = choose|j: int|
                                0 <= j < old(self).entries@.len() && old(self).entries@[j].0@
                                    == key;
                            assert(self.entries@[j].0@ == key);
                        }
                        if key == km {
                            assert(self.entries@[n].0@ == key);
                        }
                    }
                    assert forall|key: Seq<char>| #[trigger]
                        self@.contains_key(key) implies self@[key] == old(self)@.insert(
                        km,
                        vm,
                    )[key] by {
                        let j = choose|j: int|
                            0 <= j < self.entries@.len() && self.entries@[j].0@ == key;
                        self.lemma_entry(j);
                        if j != n {
                            old(self).lemma_entry(j);
                        }
                    }
                    assert(self@ =~= old(self)@.insert(km, vm));
                }
            },
        }
    }

    /// Removes the entry stored under `k`, returning its value.
    pub fn remove(&mut self, k: &str) -> (r: Option<V>)
        requires
            old(self).wf(),
        ensures
            final(self).wf(),
            final(self)@ == old(self)@.remove(k@),
            r matches Some(v) ==> old(self)@.contains_key(k@) && old(self)@[k@] == v@,
            r is None <==> !old(self)@.contains_key(k@),
    {
        match self.find(k) {
            Some(i) => {
                proof {
                    self.lemma_entry(i as int);
                }
                let (_, v) = self.entries.remove(i);
                proof {
                    let o = old(self).entries@;
                    let n = self.entries@;
                    assert forall|j: int| 0 <= j < n.len() implies #[trigger] n[j] == (if j < i {
                        o[j]
                    } else {
                        o[j + 1]
                    }) by {}
                    assert forall|a: int, b: int| 0 <= a < b < n.len() implies n[a].0@
                        != n[b].0@ by {
                        let a0 = if a < i { a } else { a + 1 };
                        let b0 = if b < i { b } else { b + 1 };
                        assert(o[a0].0@ != o[b0].0@);
                    }
                    assert forall|key: Seq<char>|
                        #![auto]
                        self@.contains_key(key) == old(self)@.remove(k@).contains_key(key) by {
                        if self@.contains_key(key) {
                            let j = choose|j: int| 0 <= j < n.len() && n[j].0@ == key;
                            let j0 = if j < i { j } else { j + 1 };
                            assert(o[j0].0@ == key);
                            assert(j0 != i);
                        }
                        if key != k@ && old(self)@.contains_key(key) {
                            let j = choose|j: int| 0 <= j < o.len() && o[j].0@ == key;
                            assert(j != i);
                            if j < i {
                                assert(n[j].0@ == key);
                            } else {
                                assert(n[j - 1].0@ == key);
                            }
                        }
                    }
                    assert forall|key: Seq<char>| #[trigger]
                        self@.contains_key(key) implies self@[key] == old(self)@.remove(k@)[key] by {
                        let j = choose|j: int| 0 <= j < n.len() && n[j].0@ == key;
                        self.lemma_entry(j);
                        let j0 = if j < i { j } else { j + 1 };
                        old(self).lemma_entry(j0);
                    }
                    assert(self@ =~= old(self)@.remove(k@));
                }
                Some(v)
            },
            None => {
                assert(self@ =~= old(self)@.remove(k@));
                None
            },
        }
    }

    /// Number of entries.
    pub fn len(&self) -> (r: usize)
        requires
            self.wf(),
        ensures
            r == self.entries@.len(),
    {
        self.entries.len()
    }

    /// A copy with the same entries.
    pub fn duplicate(&self) -> (r: Keyed<V>)
        requires
            self.wf(),
        ensures
            r.wf(),
            r@ == self@,
            r.entries@.len() == self.entries@.len(),
            forall|i: int|
                0 <= i < r.entries@.len() ==> r.entries@[i].0@ == self.entries@[i].0@
                    && r.entries@[i].1@ == self.entries@[i].1@,
    {
        let mut out: Vec<(String, V)> = Vec::new();
        let mut i: usize = 0;
        while i < self.entries.len()
            invariant
                self.wf(),
                i <= self.entries@.len(),
                out@.len() == i,
                forall|j: int|
                    0 <= j < i ==> out@[j].0@ == self.entries@[j].0@ && out@[j].1@
                        == self.entries@[j].1@ && out@[j].1.valid(),
            decreases self.entries@.len() - i,
        {
            assert(self.entries@[i as int].1.valid());
            out.push((self.entries[i].0.clone(), self.entries[i].1.replicate()));
            i = i + 1;
        }
        let r = Keyed { entries: out };
        proof {
            assert forall|key: Seq<char>| #![auto] r@.contains_key(key) == self@.contains_key(key) by {
                if r@.contains_key(key) {
                    let j = choose|j: int| 0 <= j < r.entries@.len() && r.entries@[j].0@ == key;
                    assert(self.entries@[j].0@ == key);
                }
                if self@.contains_key(key) {
                    let j = choose|j: int|
                        0 <= j < self.entries@.len() && self.entries@[j].0@ == key;
                    assert(r.entries@[j].0@ == key);
                }
            }
            assert forall|key: Seq<char>| #[trigger] r@.contains_key(key) implies r@[key]
                == self@[key] by {
                let j = choose|j: int| 0 <= j < r.entries@.len() && r.entries@[j].0@ == key;
                r.lemma_entry(j);
                self.lemma_entry(j);
            }
            assert(r@ =~= self@);
        }
        r
    }

    /// Overlays `other` onto this map: each of its entries replaces the value
    /// under the same name.
    pub fn overlay(&mut self, other: &Keyed<V>)
        requires
            old(self).wf(),
            other.wf(),
        ensures
            final(self).wf(),
            final(self)@ == old(self)@.union_prefer_right(other@),
    {
        let mut i: usize = 0;
        while i < other.entries.len()
            invariant
                self.wf(),
                other.wf(),
                i <= other.entries@.len(),
                self@ == old(self)@.union_prefer_right(
                    Map::new(
                        |k: Seq<char>|
                            exists|j: int| 0 <= j < i && other.entries@[j].0@ == k,
                        |k: Seq<char>| other@[k],
                    ),
                ),
            decreases other.entries@.len() - i,
        {
            let ghost before = self@;
            assert(other.entries@[i as int].1.valid());
            self.insert(other.entries[i].0.clone(), other.entries[i].1.replicate());
            proof {
                other.lemma_entry(i as int);
                let ki = other.entries@[i as int].0@;
                let prev = Map::new(
                    |k: Seq<char>| exists|j: int| 0 <= j < i && other.entries@[j].0@ == k,
                    |k: Seq<char>| other@[k],
                );
                let next = Map::new(
                    |k: Seq<char>| exists|j: int| 0 <= j < i + 1 && other.entries@[j].0@ == k,
                    |k: Seq<char>| other@[k],
                );
                assert forall|k: Seq<char>| #![auto] next.contains_key(k) == (prev.contains_key(k) || k == ki) by {
                    if next.contains_key(k) && k != ki {
                        let j = choose|j: int| 0 <= j < i + 1 && other.entries@[j].0@ == k;
                        assert(j < i);
                    }
                    if k == ki {
                        assert(other.entries@[i as int].0@ == k);
                    }
                }
                assert(self@ =~= old(self)@.union_prefer_right(next));
            }
            i = i + 1;
        }
        proof {
            let all = Map::new(
                |k: Seq<char>|
                    exists|j: int| 0 <= j < other.entries@.len() && other.entries@[j].0@ == k,
                |k: Seq<char>| other@[k],
            );
            assert(all =~= other@);
        }
    }
}

} // verus!
