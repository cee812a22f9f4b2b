use vstd::prelude::*;

verus! {

/// A value exchanged with the relay service: a tagged union of the scalars
/// and arrays the wire format can carry.
#[derive(Debug, Clone, PartialEq)]
pub enum Value {
    Boolean(bool),
    Byte(u8),
    Short(i16),
    Int(i32),
    Long(i64),
    String(String),
    Null,
    ByteArray(Vec<u8>),
    StringArray(Vec<String>),
}

/// The mathematical shape of a `Value`: texts as character sequences and
/// arrays as sequences, so that contracts can speak of contents rather than
/// allocations.
pub enum ValueModel {
    Boolean(bool),
    Byte(u8),
    Short(i16),
    Int(i32),
    Long(i64),
    Str(Seq<char>),
    Null,
    Bytes(Seq<u8>),
    Strings(Seq<Seq<char>>),
}

impl View for Value {
    type V = ValueModel;

    open spec fn view(&self) -> ValueModel {
        match self {
            Value::Boolean(b) => ValueModel::Boolean(*b),
            Value::Byte(b) => ValueModel::Byte(*b),
            Value::Short(s) => ValueModel::Short(*s),
            Value::Int(i) => ValueModel::Int(*i),
            Value::Long(l) => ValueModel::Long(*l),
            Value::String(s) => ValueModel::Str(s@),
            Value::Null => ValueModel::Null,
            Value::ByteArray(v) => ValueModel::Bytes(v@),
            Value::StringArray(v) => ValueModel::Strings(v.deep_view()),
        }
    }
}

/// The value stored under `key` in an association list, searching from the
/// front.
pub open spec fn seq_get<K, T>(s: Seq<(K, T)>, key: K) -> Option<T>
    decreases s.len(),
{
    if s.len() == 0 {
        None
    } else if s[0].0 == key {
        Some(s[0].1)
    } else {
        seq_get(s.drop_first(), key)
    }
}

/// The position of the first entry bound to `key`, or the length when no
/// entry is.
pub open spec fn seq_key_index<K, T>(s: Seq<(K, T)>, key: K) -> int
    decreases s.len(),
{
    if s.len() == 0 {
        0
    } else if s[0].0 == key {
        0
    } else {
        1 + seq_key_index(s.drop_first(), key)
    }
}

/// True when no key occurs twice in the association list.
pub open spec fn unique_keys<K, T>(s: Seq<(K, T)>) -> bool {
    forall|i: int, j: int| 0 <= i < j < s.len() ==> s[i].0 != s[j].0
}

/// The association list after binding `key` to `value`: an existing entry
/// is replaced in place, a new key is appended.
pub open spec fn assoc_set<K, T>(s: Seq<(K, T)>, key: K, value: T) -> Seq<(K, T)> {
    if seq_get(s, key) is Some {
        s.update(seq_key_index(s, key), (key, value))
    } else {
        s.push((key, value))
    }
}

/// The entries of an association list of values, each value taken to its
/// mathematical model.
pub open spec fn models_of(s: Seq<(u8, Value)>) -> Seq<(u8, ValueModel)> {
    s.map_values(|e: (u8, Value)| (e.0, e.1@))
}

/// Taking values to their models neither moves keys nor changes which are
/// bound.
pub proof fn lemma_models_of_keys(s: Seq<(u8, Value)>, key: u8)
    ensures
        seq_get(models_of(s), key) is Some <==> seq_get(s, key) is Some,
        seq_key_index(models_of(s), key) == seq_key_index(s, key),
        seq_get(s, key) is Some ==> 0 <= seq_key_index(s, key) < s.len(),
    decreases s.len(),
{
    let t = models_of(s);
    if s.len() == 0 {
    } else {
        assert(t[0] == (s[0].0, s[0].1@));
        lemma_models_of_keys(s.drop_first(), key);
        assert(t.drop_first() =~= models_of(s.drop_first()));
    }
}

/// A small map from one-byte parameter codes to values, the payload shape of
/// the relay protocol.  Its size is a single byte on the wire, so it holds at
/// most 255 entries; entries keep the order of first insertion.
#[derive(Debug, Clone, PartialEq)]
pub struct ParameterDictionary {
    entries: Vec<(u8, Value)>,
}

impl ParameterDictionary {
    /// The entries, in insertion order.
    pub closed spec fn entries(&self) -> Seq<(u8, Value)> {
        self.entries@
    }

    pub open spec fn wf(&self) -> bool {
        unique_keys(self.entries()) && self.entries().len() <= 255
    }

    pub open spec fn spec_get(&self, key: u8) -> Option<Value> {
        seq_get(self.entries(), key)
    }

    pub open spec fn has_key(&self, key: u8) -> bool {
        self.spec_get(key) is Some
    }

    /// The entries with their values taken to the mathematical model.
    pub open spec fn model(&self) -> Seq<(u8, ValueModel)> {
        models_of(self.entries())
    }

    pub fn new() -> (r: ParameterDictionary)
        ensures
            r.wf(),
            r.entries() == Seq::<(u8, Value)>::empty(),
    {
        ParameterDictionary { entries: Vec::new() }
    }

    pub fn with_capacity(capacity: usize) -> (r: ParameterDictionary)
        ensures
            r.wf(),
            r.entries() == Seq::<(u8, Value)>::empty(),
    {
        ParameterDictionary { entries: Vec::with_capacity(capacity) }
    }

    /// Index of the entry bound to `key`, where one is.
    fn find(&self, key: u8) -> (r: Option<usize>)
        ensures
            match r {
                Some(i) => i < self.entries().len() && self.entries()[i as int].0 == key
                    && i == seq_key_index(self.entries(), key) && self.spec_get(key) == Some(
                    self.entries()[i as int].1,
                ),
                None => self.spec_get(key) is None,
            },
    {
        let n = self.entries.len();
        let mut i: usize = 0;
        proof {
            assert(self.entries().skip(0) =~= self.entries());
        }
        while i < n
            invariant
                i <= n,
                n == self.entries().len(),
                seq_get(self.entries(), key) == seq_get(self.entries().skip(i as int), key),
                seq_key_index(self.entries(), key) == i + seq_key_index(
                    self.entries().skip(i as int),
                    key,
                ),
                forall|j: int| 0 <= j < i ==> self.entries()[j].0 != key,
            decreases n - i,
        {
            if self.entries[i].0 == key {
                return Some(i);
            }
            proof {
                assert(self.entries().skip(i as int).drop_first() =~= self.entries().skip(
                    i + 1,
                ));
            }
            i = i + 1;
        }
        None
    }

    pub fn get(&self, key: u8) -> (r: Option<&Value>)
        ensures
            match r {
                Some(v) => self.spec_get(key) == Some(*v),
                None => self.spec_get(key) is None,
            },
    {
        match self.find(key) {
            Some(i) => Some(&self.entries[i].1),
            None => None,
        }
    }

    /// Stores `value` under `key`: an existing entry is replaced in place, a
    /// new key is appended, and a new key is dropped when the dictionary is
    /// already at its wire-format limit of 255 entries.
    pub fn set(&mut self, key: u8, value: Value)
        requires
            old(self).wf(),
        ensures
            final(self).wf(),
            if old(self).has_key(key) {
                final(self).entries() == old(self).entries().update(
                    seq_key_index(old(self).entries(), key),
                    (key, value),
                )
            } else if old(self).entries().len() < 255 {
                final(self).entries() == old(self).entries().push((key, value))
            } else {
                final(self).entries() == old(self).entries()
            },
            old(self).has_key(key) || old(self).entries().len() < 255 ==> final(self).spec_get(
                key,
            ) == Some(value),
            forall|k2: u8|
                k2 != key ==> final(self).spec_get(k2) == old(self).spec_get(k2),
    {
        let ghost gv = value;
        match self.find(key) {
            Some(i) => {
                self.entries[i] = (key, value);
                proof {
                    lemma_seq_get_update(old(self).entries(), i as int, key, gv);
                }
            },
            None => {
                if self.entries.len() < 255 {
                    self.entries.push((key, value));
                    proof {
                        lemma_seq_get_push(old(self).entries(), key, gv);
                        lemma_absent_key_unique(old(self).entries(), key);
                        assert(unique_keys(final(self).entries())) by {
                            let t = final(self).entries();
                            assert forall|a: int, b: int| 0 <= a < b < t.len() implies t[a].0
                                != t[b].0 by {
                                if b < t.len() - 1 {
                                    assert(old(self).entries()[a].0 != old(
                                        self,
                                    ).entries()[b].0);
                                }
                            }
                        }
                    }
                }
            },
        }
    }

    pub fn count(&self) -> (r: usize)
        ensures
            r == self.entries().len(),
    {
        self.entries.len()
    }

    /// The entry at position `i`, in insertion order.
    pub fn entry_at(&self, i: usize) -> (r: &(u8, Value))
        requires
            i < self.entries().len(),
        ensures
            *r == self.entries()[i as int],
    {
        &self.entries[i]
    }

    /// The entries as a list of pairs, in insertion order.  The keys are the
    /// dictionary's keys in order; the values are clones.
    pub fn iter(&self) -> (r: Vec<(u8, Value)>)
        ensures
            r@.len() == self.entries().len(),
            forall|i: int| 0 <= i < r@.len() ==> r@[i].0 == self.entries()[i].0,
    {
        let n = self.entries.len();
        let mut r: Vec<(u8, Value)> = Vec::new();
        let mut i: usize = 0;
        while i < n
            invariant
                i <= n,
                n == self.entries().len(),
                r@.len() == i,
                forall|j: int| 0 <= j < i ==> r@[j].0 == self.entries()[j].0,
            decreases n - i,
        {
            let key = self.entries[i].0;
            let value = self.entries[i].1.clone();
            r.push((key, value));
            i = i + 1;
        }
        r
    }

    pub fn contains_key(&self, key: u8) -> (r: bool)
        ensures
            r == self.has_key(key),
    {
        self.find(key).is_some()
    }

    /// The value under `key`; the key must be present.
    pub fn index(&self, key: u8) -> (r: &Value)
        requires
            self.has_key(key),
        ensures
            self.spec_get(key) == Some(*r),
    {
        match self.find(key) {
            Some(i) => &self.entries[i].1,
            None => unreached(),
        }
    }

    pub fn remove(&mut self, key: u8) -> (r: Option<Value>)
        requires
            old(self).wf(),
        ensures
            final(self).wf(),
            r == old(self).spec_get(key),
            final(self).spec_get(key) is None,
            forall|k2: u8|
                k2 != key ==> final(self).spec_get(k2) == old(self).spec_get(k2),
    {
        match self.find(key) {
            Some(i) => {
                let (_, v) = self.entries.remove(i);
                proof {
                    lemma_seq_get_remove(old(self).entries(), i as int, key);
                }
                Some(v)
            },
            None => None,
        }
    }

    pub fn clear(&mut self)
        ensures
            final(self).wf(),
            final(self).entries() == Seq::<(u8, Value)>::empty(),
    {
        self.entries.clear();
    }
}

/// Updating the entry of `key` in place changes only the binding of that key.
pub(crate) proof fn lemma_seq_get_update<K, T>(s: Seq<(K, T)>, i: int, key: K, value: T)
    requires
        unique_keys(s),
        0 <= i < s.len(),
        s[i].0 == key,
        forall|j: int| 0 <= j < i ==> s[j].0 != key,
    ensures
        unique_keys(s.update(i, (key, value))),
        seq_get(s.update(i, (key, value)), key) == Some(value),
        forall|k2: K| k2 != key ==> seq_get(s.update(i, (key, value)), k2) == seq_get(s, k2),
    decreases i,
{
    let t = s.update(i, (key, value));
    assert(unique_keys(t)) by {
        assert forall|a: int, b: int| 0 <= a < b < t.len() implies t[a].0 != t[b].0 by {
            assert(s[a].0 != s[b].0);
        }
    }
    if i == 0 {
        assert forall|k2: K| k2 != key implies seq_get(t, k2) == seq_get(s, k2) by {
            assert(t.drop_first() =~= s.drop_first());
        }
    } else {
        assert(t.drop_first() =~= s.drop_first().update(i - 1, (key, value)));
        lemma_seq_get_update(s.drop_first(), i - 1, key, value);
        assert(s[0].0 != key);
        assert(seq_get(t, key) == seq_get(t.drop_first(), key));
        assert forall|k2: K| k2 != key implies seq_get(t, k2) == seq_get(s, k2) by {
            if t[0].0 == k2 {
            } else {
                assert(seq_get(t.drop_first(), k2) == seq_get(s.drop_first(), k2));
            }
        }
    }
}

/// Appending a fresh key binds it and leaves every other key alone.
pub(crate) proof fn lemma_seq_get_push<K, T>(s: Seq<(K, T)>, key: K, value: T)
    requires
        seq_get(s, key) is None,
    ensures
        seq_get(s.push((key, value)), key) == Some(value),
        forall|k2: K| k2 != key ==> seq_get(s.push((key, value)), k2) == seq_get(s, k2),
    decreases s.len(),
{
    let t = s.push((key, value));
    if s.len() == 0 {
        assert(t[0] == (key, value));
        assert forall|k2: K| k2 != key implies seq_get(t, k2) == seq_get(s, k2) by {
            assert(t.drop_first() =~= Seq::<(K, T)>::empty());
            assert(seq_get(Seq::<(K, T)>::empty(), k2) is None);
        }
    } else {
        assert(t.drop_first() =~= s.drop_first().push((key, value)));
        lemma_seq_get_push(s.drop_first(), key, value);
        assert(t[0] == s[0]);
        assert(s[0].0 != key);
        assert(seq_get(t, key) == Some(value));
        assert forall|k2: K| k2 != key implies seq_get(t, k2) == seq_get(s, k2) by {
            if t[0].0 == k2 {
            } else {
                assert(seq_get(t.drop_first(), k2) == seq_get(s.drop_first(), k2));
            }
        }
    }
}

/// A key that `seq_get` misses occurs nowhere in the list.
pub(crate) proof fn lemma_absent_key_unique<K, T>(s: Seq<(K, T)>, key: K)
    requires
        seq_get(s, key) is None,
    ensures
        forall|i: int| 0 <= i < s.len() ==> s[i].0 != key,
    decreases s.len(),
{
    if s.len() > 0 {
        lemma_absent_key_unique(s.drop_first(), key);
        assert forall|i: int| 0 <= i < s.len() implies s[i].0 != key by {
            if i > 0 {
                assert(s.drop_first()[i - 1] == s[i]);
            }
        }
    }
}

/// Removing the entry of `key` unbinds that key and leaves every other key
/// alone.
pub(crate) proof fn lemma_seq_get_remove<K, T>(s: Seq<(K, T)>, i: int, key: K)
    requires
        unique_keys(s),
        0 <= i < s.len(),
        s[i].0 == key,
    ensures
        unique_keys(s.remove(i)),
        seq_get(s.remove(i), key) is None,
        forall|k2: K| k2 != key ==> seq_get(s.remove(i), k2) == seq_get(s, k2),
    decreases s.len(),
{
    let t = s.remove(i);
    assert(unique_keys(t)) by {
        assert forall|a: int, b: int| 0 <= a < b < t.len() implies t[a].0 != t[b].0 by {
            let a0 = if a < i { a } else { a + 1 };
            let b0 = if b < i { b } else { b + 1 };
            assert(t[a] == s[a0]);
            assert(t[b] == s[b0]);
        }
    }
    if i == 0 {
        assert(t =~= s.drop_first());
        assert(seq_get(t, key) is None) by {
            lemma_unique_tail_misses_head_key(s, key);
        }
    } else {
        assert(t[0] == s[0]);
        assert(s[0].0 != key);
        assert(t.drop_first() =~= s.drop_first().remove(i - 1));
        lemma_seq_get_remove(s.drop_first(), i - 1, key);
        assert(seq_get(t, key) == seq_get(t.drop_first(), key));
        assert forall|k2: K| k2 != key implies seq_get(t, k2) == seq_get(s, k2) by {
            if t[0].0 == k2 {
            } else {
                assert(seq_get(t.drop_first(), k2) == seq_get(s.drop_first(), k2));
            }
        }
    }
}

/// When keys are unique, the tail of the list does not bind the head's key.
pub(crate) proof fn lemma_unique_tail_misses_head_key<K, T>(s: Seq<(K, T)>, key: K)
    requires
        unique_keys(s),
        s.len() > 0,
        s[0].0 == key,
    ensures
        seq_get(s.drop_first(), key) is None,
{
    let t = s.drop_first();
    if seq_get(t, key) is Some {
        lemma_seq_get_some_has_index(t, key);
        let i = choose|i: int| 0 <= i < t.len() && t[i].0 == key;
        assert(s[i + 1] == t[i]);
        assert(false);
    }
}

/// A bound key occurs at some position.
pub(crate) proof fn lemma_seq_get_some_has_index<K, T>(s: Seq<(K, T)>, key: K)
    requires
        seq_get(s, key) is Some,
    ensures
        exists|i: int| 0 <= i < s.len() && s[i].0 == key,
    decreases s.len(),
{
    if s.len() > 0 {
        if s[0].0 == key {
            assert(0 <= 0 < s.len() && s[0].0 == key);
        } else {
            lemma_seq_get_some_has_index(s.drop_first(), key);
            let i = choose|i: int| 0 <= i < s.drop_first().len() && s.drop_first()[i].0 == key;
            assert(s[i + 1] == s.drop_first()[i]);
        }
    }
}

} // verus!
