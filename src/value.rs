use crate::text::{lemma_lt_irreflexive, lemma_lt_total, lemma_lt_transitive, seq_lt, str_lt};
use vstd::prelude::*;

verus! {

/// The kind of a [`Value`], without its payload.
#[derive(Debug, PartialEq, Eq, PartialOrd, Ord, Hash, Clone, Copy)]
pub enum Type {
    Bool,
    U8,
    U16,
    U32,
    U64,
    I8,
    I16,
    I32,
    I64,
    F32,
    F64,
    Char,
    String,
    List,
    Table,
    Bytes,
    Null,
}

/// A decoded configuration tree.
///
/// Floating-point numbers are carried by their IEEE-754 bit pattern, so that
/// equality and ordering stay structural and total.
#[derive(Debug, PartialEq, Eq, PartialOrd, Ord, Hash)]
pub enum Value {
    Bool(bool),
    U8(u8),
    U16(u16),
    U32(u32),
    U64(u64),
    I8(i8),
    I16(i16),
    I32(i32),
    I64(i64),
    F32(u32),
    F64(u64),
    Char(char),
    String(String),
    List(Vec<Value>),
    Table(ValueMap),
    Bytes(Vec<u8>),
    Option(Option<Box<Value>>),
}

/// A map from strings to values whose entries are kept in strictly increasing
/// key order, so that every key occurs once.
#[derive(Debug, PartialEq, Eq, PartialOrd, Ord, Hash)]
pub struct ValueMap {
    entries: Vec<(String, Value)>,
}

/// Keys strictly increasing, hence unique.
pub open spec fn keys_sorted(s: Seq<(String, Value)>) -> bool {
    forall|i: int, j: int| 0 <= i < j < s.len() ==> seq_lt(#[trigger] s[i].0@, #[trigger] s[j].0@)
}

/// The value stored under `k`, if any.
pub open spec fn lookup(s: Seq<(String, Value)>, k: Seq<char>) -> Option<Value>
    decreases s.len(),
{
    if s.len() == 0 {
        None
    } else if s[0].0@ == k {
        Some(s[0].1)
    } else {
        lookup(s.drop_first(), k)
    }
}

/// Whether some entry of `s` has key `k`.
pub open spec fn has_key(s: Seq<(String, Value)>, k: Seq<char>) -> bool {
    exists|i: int| 0 <= i < s.len() && #[trigger] s[i].0@ == k
}

pub proof fn lemma_lookup(s: Seq<(String, Value)>, k: Seq<char>)
    ensures
        lookup(s, k) is Some <==> has_key(s, k),
        lookup(s, k) is Some ==> exists|i: int|
            0 <= i < s.len() && #[trigger] s[i].0@ == k && lookup(s, k) == Some(s[i].1),
    decreases s.len(),
{
    if s.len() > 0 {
        lemma_lookup(s.drop_first(), k);
        if s[0].0@ != k {
            if has_key(s, k) {
                let i = choose|i: int| 0 <= i < s.len() && #[trigger] s[i].0@ == k;
                assert(s.drop_first()[i - 1].0@ == k);
            }
            if lookup(s, k) is Some {
                let i = choose|i: int|
                    0 <= i < s.drop_first().len() && #[trigger] s.drop_first()[i].0@ == k
                        && lookup(s.drop_first(), k) == Some(s.drop_first()[i].1);
                assert(s[i + 1].0@ == k);
            }
        } else {
            assert(s[0].0@ == k);
        }
    }
}

pub proof fn lemma_lookup_at(s: Seq<(String, Value)>, i: int)
    requires
        keys_sorted(s),
        0 <= i < s.len(),
    ensures
        lookup(s, s[i].0@) == Some(s[i].1),
{
    lemma_lookup(s, s[i].0@);
    let j = choose|j: int|
        0 <= j < s.len() && #[trigger] s[j].0@ == s[i].0@ && lookup(s, s[i].0@) == Some(s[j].1);
    if j < i {
        lemma_lt_irreflexive(s[i].0@);
    } else if i < j {
        lemma_lt_irreflexive(s[i].0@);
    }
}

impl View for ValueMap {
    type V = Seq<(String, Value)>;

    closed spec fn view(&self) -> Seq<(String, Value)> {
        self.entries@
    }
}

/// The first position whose key does not come before `k`.
fn lower_bound(entries: &Vec<(String, Value)>, k: &String) -> (r: usize)
    requires
        keys_sorted(entries@),
    ensures
        r <= entries.len(),
        forall|j: int| 0 <= j < r ==> seq_lt(#[trigger] entries@[j].0@, k@),
        r < entries.len() ==> !seq_lt(entries@[r as int].0@, k@),
{
    let mut i: usize = 0;
    while i < entries.len() && str_lt(entries[i].0.as_str(), k.as_str())
        invariant
            i <= entries.len(),
            forall|j: int| 0 <= j < i ==> seq_lt(#[trigger] entries@[j].0@, k@),
        decreases entries.len() - i,
    {
        i = i + 1;
    }
    i
}

pub proof fn lemma_replace(s: Seq<(String, Value)>, i: int, v: Value)
    requires
        keys_sorted(s),
        0 <= i < s.len(),
    ensures
        keys_sorted(s.update(i, (s[i].0, v))),
        lookup(s.update(i, (s[i].0, v)), s[i].0@) == Some(v),
        forall|k: Seq<char>| k != s[i].0@ ==> #[trigger] lookup(s.update(i, (s[i].0, v)), k) == lookup(s, k),
        forall|k: Seq<char>| #[trigger] has_key(s.update(i, (s[i].0, v)), k) == has_key(s, k),
{
    let t = s.update(i, (s[i].0, v));
    assert(keys_sorted(t));
    lemma_lookup_at(t, i);
    assert forall|k: Seq<char>| #[trigger] has_key(t, k) == has_key(s, k) by {
        if has_key(s, k) {
            let j = choose|j: int| 0 <= j < s.len() && #[trigger] s[j].0@ == k;
            assert(t[j].0@ == k);
        }
        if has_key(t, k) {
            let j = choose|j: int| 0 <= j < t.len() && #[trigger] t[j].0@ == k;
            assert(s[j].0@ == k);
        }
    }
    assert forall|k: Seq<char>| k != s[i].0@ implies #[trigger] lookup(t, k) == lookup(s, k) by {
        lemma_lookup(s, k);
        lemma_lookup(t, k);
        if has_key(s, k) {
            let j = choose|j: int| 0 <= j < s.len() && #[trigger] s[j].0@ == k;
            assert(t[j].0@ == k);
            lemma_lookup_at(s, j);
            lemma_lookup_at(t, j);
        }
    }
}

pub proof fn lemma_insert(s: Seq<(String, Value)>, i: int, e: (String, Value))
    requires
        keys_sorted(s),
        0 <= i <= s.len(),
        forall|j: int| 0 <= j < i ==> seq_lt(#[trigger] s[j].0@, e.0@),
        i < s.len() ==> seq_lt(e.0@, s[i].0@),
    ensures
        keys_sorted(s.insert(i, e)),
        lookup(s.insert(i, e), e.0@) == Some(e.1),
        !has_key(s, e.0@),
        lookup(s, e.0@) is None,
        forall|k: Seq<char>| k != e.0@ ==> #[trigger] lookup(s.insert(i, e), k) == lookup(s, k),
        forall|k: Seq<char>| #[trigger] has_key(s.insert(i, e), k) == (has_key(s, k) || k == e.0@),
{
    let t = s.insert(i, e);
    let kv = e.0@;
    assert forall|a: int, b: int| 0 <= a < b < t.len() implies seq_lt(#[trigger] t[a].0@, #[trigger] t[b].0@) by {
        if b == i {
        } else if a == i {
            if b > i + 1 {
                lemma_lt_transitive(kv, s[i].0@, s[b - 1].0@);
            }
        } else if a < i && b > i {
            assert(seq_lt(kv, s[b - 1].0@)) by {
                if b - 1 > i {
                    lemma_lt_transitive(kv, s[i].0@, s[b - 1].0@);
                }
            }
            lemma_lt_transitive(s[a].0@, kv, s[b - 1].0@);
        } else if b < i {
        } else {
            assert(s[a - 1] == t[a] && s[b - 1] == t[b]);
        }
    }
    assert(keys_sorted(t));
    assert(t[i] == e);
    lemma_lookup_at(t, i);
    lemma_lookup(s, kv);
    if has_key(s, kv) {
        let j = choose|j: int| 0 <= j < s.len() && #[trigger] s[j].0@ == kv;
        if j < i {
            lemma_lt_irreflexive(kv);
        } else if j > i {
            lemma_lt_transitive(kv, s[i].0@, s[j].0@);
            lemma_lt_irreflexive(kv);
        } else {
            lemma_lt_irreflexive(kv);
        }
    }
    assert forall|k: Seq<char>| #[trigger] has_key(t, k) == (has_key(s, k) || k == kv) by {
        if has_key(s, k) {
            let j = choose|j: int| 0 <= j < s.len() && #[trigger] s[j].0@ == k;
            let jj = if j < i { j } else { j + 1 };
            assert(t[jj] == s[j]);
        }
        if has_key(t, k) && k != kv {
            let j = choose|j: int| 0 <= j < t.len() && #[trigger] t[j].0@ == k;
            let jj = if j < i { j } else { j - 1 };
            assert(s[jj] == t[j]);
        }
    }
    assert forall|k: Seq<char>| k != kv implies #[trigger] lookup(t, k) == lookup(s, k) by {
        lemma_lookup(s, k);
        lemma_lookup(t, k);
        if has_key(s, k) {
            let j = choose|j: int| 0 <= j < s.len() && #[trigger] s[j].0@ == k;
            let jj = if j < i { j } else { j + 1 };
            assert(t[jj] == s[j]);
            lemma_lookup_at(s, j);
            lemma_lookup_at(t, jj);
        }
    }
}

pub proof fn lemma_remove(s: Seq<(String, Value)>, i: int)
    requires
        keys_sorted(s),
        0 <= i < s.len(),
    ensures
        keys_sorted(s.remove(i)),
        lookup(s.remove(i), s[i].0@) is None,
        forall|k: Seq<char>| k != s[i].0@ ==> #[trigger] lookup(s.remove(i), k) == lookup(s, k),
{
    let t = s.remove(i);
    assert forall|a: int, b: int| 0 <= a < b < t.len() implies seq_lt(#[trigger] t[a].0@, #[trigger] t[b].0@) by {
        let aa = if a < i { a } else { a + 1 };
        let bb = if b < i { b } else { b + 1 };
        assert(t[a] == s[aa] && t[b] == s[bb]);
    }
    lemma_lookup(t, s[i].0@);
    if has_key(t, s[i].0@) {
        let j = choose|j: int| 0 <= j < t.len() && #[trigger] t[j].0@ == s[i].0@;
        let jj = if j < i { j } else { j + 1 };
        assert(t[j] == s[jj]);
        if jj < i {
            assert(seq_lt(s[jj].0@, s[i].0@));
        } else {
            assert(seq_lt(s[i].0@, s[jj].0@));
        }
        lemma_lt_irreflexive(s[i].0@);
    }
    assert forall|k: Seq<char>| k != s[i].0@ implies #[trigger] lookup(t, k) == lookup(s, k) by {
        lemma_lookup(s, k);
        lemma_lookup(t, k);
        if has_key(s, k) {
            let j = choose|j: int| 0 <= j < s.len() && #[trigger] s[j].0@ == k;
            let jj = if j < i { j } else { j - 1 };
            assert(t[jj] == s[j]);
            lemma_lookup_at(s, j);
            lemma_lookup_at(t, jj);
        }
        if has_key(t, k) {
            let j = choose|j: int| 0 <= j < t.len() && #[trigger] t[j].0@ == k;
            let jj = if j < i { j } else { j + 1 };
            assert(t[j] == s[jj]);
        }
    }
}

/// Where `k` stands in a sorted entry vector, or where it would be inserted.
fn locate_key(entries: &Vec<(String, Value)>, k: &String) -> (r: (usize, bool))
    requires
        keys_sorted(entries@),
    ensures
        r.0 <= entries.len(),
        r.1 == has_key(entries@, k@),
        r.1 ==> r.0 < entries.len() && entries@[r.0 as int].0@ == k@,
        !r.1 ==> forall|j: int| 0 <= j < r.0 ==> seq_lt(#[trigger] entries@[j].0@, k@),
        !r.1 ==> (r.0 < entries.len() ==> seq_lt(k@, entries@[r.0 as int].0@)),
{
    let i = lower_bound(entries, k);
    if i < entries.len() && entries[i].0 == *k {
        proof {
            assert(entries@[i as int].0@ == k@);
        }
        (i, true)
    } else {
        proof {
            let s = entries@;
            if i < s.len() {
                lemma_lt_total(s[i as int].0@, k@);
            }
            if has_key(s, k@) {
                let j = choose|j: int| 0 <= j < s.len() && #[trigger] s[j].0@ == k@;
                if j < i {
                    lemma_lt_irreflexive(k@);
                } else if j > i {
                    lemma_lt_transitive(k@, s[i as int].0@, s[j].0@);
                    lemma_lt_irreflexive(k@);
                }
            }
        }
        (i, false)
    }
}

/// Inserts or replaces the value under `key` in a sorted entry vector.
fn upsert_entry(entries: &mut Vec<(String, Value)>, key: String, value: Value) -> (r: Option<Value>)
    requires
        keys_sorted(old(entries)@),
    ensures
        keys_sorted(final(entries)@),
        r == lookup(old(entries)@, key@),
        lookup(final(entries)@, key@) == Some(value),
        forall|k: Seq<char>| k != key@ ==> #[trigger] lookup(final(entries)@, k) == lookup(old(entries)@, k),
{
    let ghost s = entries@;
    let (i, found) = locate_key(entries, &key);
    if found {
        let (k0, prev) = entries.remove(i);
        entries.insert(i, (k0, value));
        proof {
            assert(entries@ =~= s.update(i as int, (s[i as int].0, value)));
            lemma_replace(s, i as int, value);
            lemma_lookup_at(s, i as int);
        }
        Some(prev)
    } else {
        let ghost e = (key, value);
        entries.insert(i, (key, value));
        proof {
            assert(entries@ =~= s.insert(i as int, e));
            lemma_insert(s, i as int, e);
        }
        None
    }
}

impl ValueMap {
    #[verifier::type_invariant]
    spec fn sorted(self) -> bool {
        keys_sorted(self.entries@)
    }

    /// An empty map.
    pub fn new() -> (r: ValueMap)
        ensures
            r@ == Seq::<(String, Value)>::empty(),
    {
        ValueMap { entries: Vec::new() }
    }

    /// The number of entries.
    pub fn len(&self) -> (r: usize)
        ensures
            r == self@.len(),
    {
        self.entries.len()
    }

    /// The entries, in increasing key order.
    pub fn entries(&self) -> (r: &Vec<(String, Value)>)
        ensures
            r@ == self@,
    {
        &self.entries
    }

    /// Gives up the entries, in increasing key order.
    pub fn into_entries(self) -> (r: Vec<(String, Value)>)
        ensures
            r@ == self@,
            keys_sorted(r@),
    {
        proof {
            use_type_invariant(&self);
        }
        self.entries
    }

    /// The value under `key`, if any.
    pub fn get(&self, key: &str) -> (r: Option<&Value>)
        ensures
            r is Some <==> lookup(self@, key@) is Some,
            r is Some ==> *r->0 == lookup(self@, key@)->0,
    {
        proof {
            use_type_invariant(self);
        }
        let k = key.to_owned();
        let i = lower_bound(&self.entries, &k);
        if i < self.entries.len() && self.entries[i].0 == k {
            proof {
                lemma_lookup_at(self.entries@, i as int);
            }
            Some(&self.entries[i].1)
        } else {
            proof {
                lemma_lookup(self.entries@, key@);
                if has_key(self.entries@, key@) {
                    let s = self.entries@;
                    let j = choose|j: int| 0 <= j < s.len() && #[trigger] s[j].0@ == key@;
                    if j < i {
                        lemma_lt_irreflexive(key@);
                    } else if j > i {
                        lemma_lt_total(s[i as int].0@, key@);
                        lemma_lt_transitive(key@, s[i as int].0@, s[j].0@);
                        lemma_lt_irreflexive(key@);
                    }
                }
            }
            None
        }
    }

    /// Removes the entry under `key`, returning its value.
    pub fn remove(&mut self, key: &str) -> (r: Option<Value>)
        ensures
            r == lookup(old(self)@, key@),
            lookup(final(self)@, key@) is None,
            forall|k: Seq<char>| k != key@ ==> #[trigger] lookup(final(self)@, k) == lookup(old(self)@, k),
    {
        proof {
            use_type_invariant(&*self);
        }
        let k = key.to_owned();
        let mut entries: Vec<(String, Value)> = Vec::new();
        std::mem::swap(&mut entries, &mut self.entries);
        let ghost s = entries@;
        let (i, found) = locate_key(&entries, &k);
        let r = if found {
            let (_, v) = entries.remove(i);
            proof {
                lemma_remove(s, i as int);
                lemma_lookup_at(s, i as int);
            }
            Some(v)
        } else {
            proof {
                lemma_lookup(s, key@);
            }
            None
        };
        self.entries = entries;
        r
    }

    /// Whether some entry has key `key`.
    pub fn contains(&self, key: &str) -> (r: bool)
        ensures
            r == (lookup(self@, key@) is Some),
    {
        self.get(key).is_some()
    }

    /// Stores `value` under `key` and returns what was there before.
    pub fn insert(&mut self, key: String, value: Value) -> (r: Option<Value>)
        ensures
            r == lookup(old(self)@, key@),
            lookup(final(self)@, key@) == Some(value),
            forall|k: Seq<char>| k != key@ ==> #[trigger] lookup(final(self)@, k) == lookup(old(self)@, k),
    {
        proof {
            use_type_invariant(&*self);
        }
        let mut entries: Vec<(String, Value)> = Vec::new();
        std::mem::swap(&mut entries, &mut self.entries);
        let r = upsert_entry(&mut entries, key, value);
        self.entries = entries;
        r
    }
}

/// The kind of `v`.
pub open spec fn type_of(v: Value) -> Type {
    match v {
        Value::Bool(_) => Type::Bool,
        Value::U8(_) => Type::U8,
        Value::U16(_) => Type::U16,
        Value::U32(_) => Type::U32,
        Value::U64(_) => Type::U64,
        Value::I8(_) => Type::I8,
        Value::I16(_) => Type::I16,
        Value::I32(_) => Type::I32,
        Value::I64(_) => Type::I64,
        Value::F32(_) => Type::F32,
        Value::F64(_) => Type::F64,
        Value::Char(_) => Type::Char,
        Value::String(_) => Type::String,
        Value::List(_) => Type::List,
        Value::Table(_) => Type::Table,
        Value::Bytes(_) => Type::Bytes,
        Value::Option(_) => Type::Null,
    }
}

impl Value {
    /// The kind of the value.
    pub fn ty(&self) -> (r: Type)
        ensures
            r == type_of(*self),
    {
        match self {
            Value::Bool(_) => Type::Bool,
            Value::U8(_) => Type::U8,
            Value::U16(_) => Type::U16,
            Value::U32(_) => Type::U32,
            Value::U64(_) => Type::U64,
            Value::I8(_) => Type::I8,
            Value::I16(_) => Type::I16,
            Value::I32(_) => Type::I32,
            Value::I64(_) => Type::I64,
            Value::F32(_) => Type::F32,
            Value::F64(_) => Type::F64,
            Value::Char(_) => Type::Char,
            Value::String(_) => Type::String,
            Value::List(_) => Type::List,
            Value::Table(_) => Type::Table,
            Value::Bytes(_) => Type::Bytes,
            Value::Option(_) => Type::Null,
        }
    }

    /// The value under `key` where this is a table holding it; `None`
    /// otherwise.
    pub fn get(&self, key: &str) -> (r: Option<&Value>)
        ensures
            r is Some <==> (self matches Value::Table(m) && lookup(m@, key@) is Some),
            r is Some ==> *r->0 == lookup(self->Table_0@, key@)->0,
    {
        match self {
            Value::Table(m) => m.get(key),
            _ => None,
        }
    }

    /// The item at position `i` where this is a list that long; `None`
    /// otherwise.
    pub fn get_index(&self, i: usize) -> (r: Option<&Value>)
        ensures
            r is Some <==> (self matches Value::List(l) && i < l@.len()),
            r is Some ==> *r->0 == self->List_0@[i as int],
    {
        match self {
            Value::List(l) => {
                if i < l.len() {
                    Some(&l[i])
                } else {
                    None
                }
            },
            _ => None,
        }
    }

    /// Stores `value` under `key`, as writing through a key index does: a
    /// table takes the entry, returning the previous value; the "nothing"
    /// value first becomes an empty table; any other value is left as it is
    /// and `Err` comes back.
    pub fn set_key(&mut self, key: String, value: Value) -> (r: Result<Option<Value>, ()>)
        ensures
            (*old(self) is Table || *old(self) == Value::Option(None)) <==> r is Ok,
            r is Err ==> *final(self) == *old(self),
            r is Ok ==> *final(self) is Table && lookup((*final(self))->Table_0@, key@) == Some(value)
                && forall|k: Seq<char>| k != key@ ==> #[trigger] lookup((*final(self))->Table_0@, k) == (match *old(self) {
                    Value::Table(m) => lookup(m@, k),
                    _ => None,
                }),
            r is Ok ==> r->Ok_0 == (match *old(self) {
                Value::Table(m) => lookup(m@, key@),
                _ => None,
            }),
    {
        if self.is_none() {
            *self = Value::Table(ValueMap::new());
        }
        match self {
            Value::Table(m) => Ok(m.insert(key, value)),
            _ => Err(()),
        }
    }

    /// The value that stands for "nothing".
    pub fn none() -> (r: Value)
        ensures
            r == Value::Option(None),
    {
        Value::Option(None)
    }

    /// Whether the value is the "nothing" value.
    pub fn is_none(&self) -> (r: bool)
        ensures
            r == (*self == Value::Option(None)),
    {
        match self {
            Value::Option(None) => true,
            _ => false,
        }
    }

    /// The string held, or `Err` where the value is not a string.
    pub fn into_string(self) -> (r: Result<String, ()>)
        ensures
            self is String <==> r is Ok,
            self is String ==> r->Ok_0 == self->String_0,
    {
        match self {
            Value::String(s) => Ok(s),
            _ => Err(()),
        }
    }
}

/// `r` is the result of merging `b` into `a`:
/// - table into table: keys only in `a` keep their value, keys only in `b`
///   take `b`'s value, and keys in both merge recursively;
/// - list into list: `b`'s items follow `a`'s;
/// - table into list: the table becomes one more item;
/// - anything else: `b` replaces `a`.
pub open spec fn merged(a: Value, b: Value, r: Value) -> bool
    decreases b,
{
    match b {
        Value::Table(bm) => match a {
            Value::Table(am) => match r {
                Value::Table(rm) => {
                    &&& keys_sorted(rm@)
                    &&& forall|k: Seq<char>| #[trigger]
                        has_key(rm@, k) == (has_key(am@, k) || has_key(bm@, k))
                    &&& forall|k: Seq<char>|
                        !has_key(bm@, k) ==> #[trigger] lookup(rm@, k) == lookup(am@, k)
                    &&& forall|i: int|
                        0 <= i < bm@.len() ==> match #[trigger] lookup(am@, bm@[i].0@) {
                            Some(av) => match lookup(rm@, bm@[i].0@) {
                                Some(rv) => merged(av, bm@[i].1, rv),
                                None => false,
                            },
                            None => lookup(rm@, bm@[i].0@) == Some(bm@[i].1),
                        }
                },
                _ => false,
            },
            Value::List(al) => match r {
                Value::List(rl) => rl@ == al@.push(b),
                _ => false,
            },
            _ => r == b,
        },
        Value::List(bl) => match a {
            Value::List(al) => match r {
                Value::List(rl) => rl@ == al@ + bl@,
                _ => false,
            },
            _ => r == b,
        },
        _ => r == b,
    }
}

/// Merging two tables that share no key gives the same table in either
/// order: every key maps to the same value.
pub proof fn lemma_merge_disjoint_commutes(a: ValueMap, b: ValueMap, r1: ValueMap, r2: ValueMap)
    requires
        keys_sorted(a@),
        keys_sorted(b@),
        forall|k: Seq<char>| !(#[trigger] has_key(a@, k) && has_key(b@, k)),
        merged(Value::Table(a), Value::Table(b), Value::Table(r1)),
        merged(Value::Table(b), Value::Table(a), Value::Table(r2)),
    ensures
        forall|k: Seq<char>| #[trigger] lookup(r1@, k) == lookup(r2@, k),
{
    assert forall|k: Seq<char>| #[trigger] lookup(r1@, k) == lookup(r2@, k) by {
        lemma_lookup(a@, k);
        lemma_lookup(b@, k);
        lemma_lookup(r1@, k);
        lemma_lookup(r2@, k);
        if has_key(b@, k) {
            let i = choose|i: int| 0 <= i < b@.len() && #[trigger] b@[i].0@ == k;
            lemma_lookup_at(b@, i);
            assert(!has_key(a@, k));
            assert(lookup(r1@, b@[i].0@) == Some(b@[i].1));
        } else if has_key(a@, k) {
            let i = choose|i: int| 0 <= i < a@.len() && #[trigger] a@[i].0@ == k;
            lemma_lookup_at(a@, i);
            assert(lookup(r2@, a@[i].0@) == Some(a@[i].1));
        }
    }
}

/// `a` and `b` hold the same tree: equal scalars, lists of the same trees,
/// and tables with the same keys, in the same order, over the same trees.
pub open spec fn same(a: Value, b: Value) -> bool
    decreases a,
{
    match a {
        Value::List(x) => match b {
            Value::List(y) => x@.len() == y@.len() && forall|i: int| 0 <= i < x@.len() ==> same(#[trigger] x@[i], y@[i]),
            _ => false,
        },
        Value::Table(x) => match b {
            Value::Table(y) => x@.len() == y@.len() && forall|i: int|
                0 <= i < x@.len() ==> (#[trigger] x@[i]).0@ == y@[i].0@ && same(x@[i].1, y@[i].1),
            _ => false,
        },
        Value::String(s) => match b {
            Value::String(t) => s@ == t@,
            _ => false,
        },
        Value::Bytes(s) => match b {
            Value::Bytes(t) => s@ == t@,
            _ => false,
        },
        Value::Option(Some(x)) => match b {
            Value::Option(Some(y)) => same(*x, *y),
            _ => false,
        },
        _ => a == b,
    }
}

pub proof fn lemma_same_refl(a: Value)
    ensures
        same(a, a),
    decreases a,
{
    match a {
        Value::List(x) => {
            assert forall|i: int| 0 <= i < x@.len() implies same(#[trigger] x@[i], x@[i]) by {
                assert(decreases_to!(x => x@[i]));
                lemma_same_refl(x@[i]);
            }
        },
        Value::Table(x) => {
            assert forall|i: int| 0 <= i < x@.len() implies (#[trigger] x@[i]).0@ == x@[i].0@ && same(x@[i].1, x@[i].1) by {
                assert(decreases_to!(x.entries => x.entries@[i]));
                lemma_same_refl(x@[i].1);
            }
        },
        Value::Option(Some(x)) => {
            lemma_same_refl(*x);
        },
        _ => {},
    }
}

/// Two tables that hold the same trees entry by entry.
pub open spec fn aligned(x: Seq<(String, Value)>, y: Seq<(String, Value)>) -> bool {
    x.len() == y.len() && forall|i: int| 0 <= i < x.len() ==> (#[trigger] x[i]).0@ == y[i].0@ && same(x[i].1, y[i].1)
}

proof fn lemma_lookup_aligned(x: Seq<(String, Value)>, y: Seq<(String, Value)>, k: Seq<char>)
    requires
        aligned(x, y),
    ensures
        lookup(x, k) is Some <==> lookup(y, k) is Some,
        lookup(x, k) is Some ==> same(lookup(x, k)->0, lookup(y, k)->0),
        has_key(x, k) == has_key(y, k),
    decreases x.len(),
{
    lemma_lookup(x, k);
    lemma_lookup(y, k);
    if x.len() > 0 {
        assert(x[0].0@ == y[0].0@);
        assert forall|i: int| 0 <= i < x.drop_first().len() implies (#[trigger] x.drop_first()[i]).0@ == y.drop_first()[i].0@
            && same(x.drop_first()[i].1, y.drop_first()[i].1) by {
            assert(x.drop_first()[i] == x[i + 1]);
            assert(y.drop_first()[i] == y[i + 1]);
        }
        lemma_lookup_aligned(x.drop_first(), y.drop_first(), k);
    }
}

proof fn lemma_sorted_keys_align(s: Seq<(String, Value)>, t: Seq<(String, Value)>)
    requires
        keys_sorted(s),
        keys_sorted(t),
        forall|k: Seq<char>| #![trigger has_key(s, k)] #![trigger has_key(t, k)] has_key(s, k) == has_key(t, k),
    ensures
        s.len() == t.len(),
        forall|i: int| 0 <= i < s.len() ==> (#[trigger] s[i]).0@ == t[i].0@,
    decreases s.len(),
{
    if s.len() == 0 {
        if t.len() > 0 {
            assert(has_key(t, t[0].0@));
        }
    } else if t.len() == 0 {
        assert(has_key(s, s[0].0@));
    } else {
        let k = s[0].0@;
        assert(has_key(s, k));
        let j = choose|j: int| 0 <= j < t.len() && #[trigger] t[j].0@ == k;
        assert(has_key(t, t[0].0@));
        let i = choose|i: int| 0 <= i < s.len() && #[trigger] s[i].0@ == t[0].0@;
        if j > 0 {
            if i > 0 {
                lemma_lt_transitive(t[0].0@, k, s[i].0@);
            }
            lemma_lt_irreflexive(t[0].0@);
        }
        let s2 = s.drop_first();
        let t2 = t.drop_first();
        assert forall|q: Seq<char>| #![trigger has_key(s2, q)] #![trigger has_key(t2, q)] has_key(s2, q) == has_key(t2, q) by {
            if has_key(s2, q) {
                let a = choose|a: int| 0 <= a < s2.len() && #[trigger] s2[a].0@ == q;
                assert(s[a + 1].0@ == q);
                assert(has_key(s, q));
                let b = choose|b: int| 0 <= b < t.len() && #[trigger] t[b].0@ == q;
                if b == 0 {
                    lemma_lt_irreflexive(k);
                }
                assert(t2[b - 1].0@ == q);
            }
            if has_key(t2, q) {
                let a = choose|a: int| 0 <= a < t2.len() && #[trigger] t2[a].0@ == q;
                assert(t[a + 1].0@ == q);
                assert(has_key(t, q));
                let b = choose|b: int| 0 <= b < s.len() && #[trigger] s[b].0@ == q;
                if b == 0 {
                    lemma_lt_irreflexive(k);
                }
                assert(s2[b - 1].0@ == q);
            }
        }
        lemma_sorted_keys_align(s2, t2);
        assert forall|x: int| 0 <= x < s.len() implies (#[trigger] s[x]).0@ == t[x].0@ by {
            if x > 0 {
                assert(s2[x - 1] == s[x]);
                assert(t2[x - 1] == t[x]);
            }
        }
    }
}

/// Merging the same tree into two copies of a tree gives two copies of one
/// tree: [`merged`] fixes its result.
pub proof fn lemma_merged_same(a1: Value, a2: Value, b: Value, r1: Value, r2: Value)
    requires
        same(a1, a2),
        merged(a1, b, r1),
        merged(a2, b, r2),
    ensures
        same(r1, r2),
    decreases b,
{
    lemma_same_refl(b);
    match b {
        Value::Table(bm) => {
            if let Value::Table(am1) = a1 {
                let am2 = a2->Table_0;
                let rm1 = r1->Table_0;
                let rm2 = r2->Table_0;
                assert(aligned(am1@, am2@));
                assert forall|k: Seq<char>| #[trigger] has_key(rm1@, k) == has_key(rm2@, k) by {
                    lemma_lookup_aligned(am1@, am2@, k);
                }
                lemma_sorted_keys_align(rm1@, rm2@);
                assert forall|i: int| 0 <= i < rm1@.len() implies (#[trigger] rm1@[i]).0@ == rm2@[i].0@
                    && same(rm1@[i].1, rm2@[i].1) by {
                    let k = rm1@[i].0@;
                    lemma_lookup_at(rm1@, i);
                    lemma_lookup_at(rm2@, i);
                    lemma_lookup_aligned(am1@, am2@, k);
                    lemma_lookup(bm@, k);
                    if has_key(bm@, k) {
                        let j = choose|j: int| 0 <= j < bm@.len() && #[trigger] bm@[j].0@ == k;
                        assert(decreases_to!(bm.entries => bm.entries@[j]));
                        if let Some(av1) = lookup(am1@, k) {
                            let av2 = lookup(am2@, k)->0;
                            assert(merged(av1, bm@[j].1, rm1@[i].1));
                            assert(merged(av2, bm@[j].1, rm2@[i].1));
                            lemma_merged_same(av1, av2, bm@[j].1, rm1@[i].1, rm2@[i].1);
                        } else {
                            lemma_same_refl(bm@[j].1);
                        }
                    }
                }
            } else if let Value::List(al1) = a1 {
                let al2 = a2->List_0;
                let rl1 = r1->List_0;
                let rl2 = r2->List_0;
                assert forall|i: int| 0 <= i < rl1@.len() implies same(#[trigger] rl1@[i], rl2@[i]) by {
                    if i < al1@.len() {
                        assert(rl1@[i] == al1@[i]);
                        assert(rl2@[i] == al2@[i]);
                    }
                }
            } else {
                assert(!(a2 is Table) && !(a2 is List));
            }
        },
        Value::List(bl) => {
            if let Value::List(al1) = a1 {
                let al2 = a2->List_0;
                let rl1 = r1->List_0;
                let rl2 = r2->List_0;
                assert forall|i: int| 0 <= i < rl1@.len() implies same(#[trigger] rl1@[i], rl2@[i]) by {
                    if i < al1@.len() {
                        assert(rl1@[i] == al1@[i]);
                        assert(rl2@[i] == al2@[i]);
                    } else {
                        assert(rl1@[i] == bl@[i - al1@.len()]);
                        assert(rl2@[i] == bl@[i - al1@.len()]);
                        assert(decreases_to!(bl => bl@[i - al1@.len()]));
                        lemma_same_refl(bl@[i - al1@.len()]);
                    }
                }
            } else {
                assert(!(a2 is List));
            }
        },
        _ => {},
    }
}

/// Every table in `v`, however deep, keeps its keys in increasing order.
pub open spec fn well_formed(v: Value) -> bool
    decreases v,
{
    match v {
        Value::Table(m) => keys_sorted(m@) && forall|i: int| 0 <= i < m@.len() ==> well_formed((#[trigger] m@[i]).1),
        Value::List(l) => forall|i: int| 0 <= i < l@.len() ==> well_formed(#[trigger] l@[i]),
        Value::Option(Some(x)) => well_formed(*x),
        _ => true,
    }
}

/// `a` and `b` are tables, and wherever both hold a key, both values are
/// again such tables: no leaf value stands under the same key path in both.
pub open spec fn leaves_apart(a: Value, b: Value) -> bool
    decreases a,
{
    match a {
        Value::Table(am) => match b {
            Value::Table(bm) => forall|i: int, j: int|
                #![trigger am@[i], bm@[j]]
                0 <= i < am@.len() && 0 <= j < bm@.len() && am@[i].0@ == bm@[j].0@ ==> leaves_apart(am@[i].1, bm@[j].1),
            _ => false,
        },
        _ => false,
    }
}

/// Merging two tables whose leaf values lie under different key paths gives
/// the same tree in either order.
pub proof fn lemma_merge_commutes(a: Value, b: Value, r1: Value, r2: Value)
    requires
        well_formed(a),
        well_formed(b),
        leaves_apart(a, b),
        merged(a, b, r1),
        merged(b, a, r2),
    ensures
        same(r1, r2),
    decreases a,
{
    if let Value::Table(am) = a {
        let bm = b->Table_0;
        let rm1 = r1->Table_0;
        let rm2 = r2->Table_0;
        assert forall|k: Seq<char>| #[trigger] has_key(rm1@, k) == has_key(rm2@, k) by {
        }
        lemma_sorted_keys_align(rm1@, rm2@);
        assert forall|i: int| 0 <= i < rm1@.len() implies (#[trigger] rm1@[i]).0@ == rm2@[i].0@
            && same(rm1@[i].1, rm2@[i].1) by {
            let k = rm1@[i].0@;
            lemma_lookup_at(rm1@, i);
            lemma_lookup_at(rm2@, i);
            lemma_lookup(am@, k);
            lemma_lookup(bm@, k);
            assert(has_key(rm1@, k));
            if has_key(am@, k) && has_key(bm@, k) {
                let x = choose|x: int| 0 <= x < am@.len() && #[trigger] am@[x].0@ == k;
                let y = choose|y: int| 0 <= y < bm@.len() && #[trigger] bm@[y].0@ == k;
                lemma_lookup_at(am@, x);
                lemma_lookup_at(bm@, y);
                assert(merged(am@[x].1, bm@[y].1, rm1@[i].1));
                assert(merged(bm@[y].1, am@[x].1, rm2@[i].1));
                assert(leaves_apart(am@[x].1, bm@[y].1));
                assert(well_formed(am@[x].1));
                assert(well_formed(bm@[y].1));
                assert(decreases_to!(am.entries => am.entries@[x]));
                lemma_merge_commutes(am@[x].1, bm@[y].1, rm1@[i].1, rm2@[i].1);
            } else if has_key(am@, k) {
                let x = choose|x: int| 0 <= x < am@.len() && #[trigger] am@[x].0@ == k;
                lemma_lookup_at(am@, x);
                assert(lookup(rm2@, am@[x].0@) == Some(am@[x].1));
                lemma_same_refl(am@[x].1);
            } else {
                let y = choose|y: int| 0 <= y < bm@.len() && #[trigger] bm@[y].0@ == k;
                lemma_lookup_at(bm@, y);
                assert(lookup(rm1@, bm@[y].0@) == Some(bm@[y].1));
                lemma_same_refl(bm@[y].1);
            }
        }
    }
}

/// Merges `b` into `a`, following [`merged`].
pub fn merge(a: &mut Value, b: Value)
    ensures
        merged(*old(a), b, *final(a)),
    decreases b,
{
    match b {
        Value::Table(bm) => {
            if let Value::Table(am) = a {
                merge_tables(am, bm);
            } else if let Value::List(al) = a {
                al.push(Value::Table(bm));
            } else {
                *a = Value::Table(bm);
            }
        },
        Value::List(bl) => {
            if let Value::List(al) = a {
                let mut bl = bl;
                al.append(&mut bl);
            } else {
                *a = Value::List(bl);
            }
        },
        _ => {
            *a = b;
        },
    }
}

/// Merges every entry of `bm` into `am`, in key order.
#[verifier::loop_isolation(false)]
fn merge_tables(am: &mut ValueMap, bm: ValueMap)
    ensures
        merged(Value::Table(*old(am)), Value::Table(bm), Value::Table(*final(am))),
    decreases bm,
{
    proof {
        use_type_invariant(&*am);
        use_type_invariant(&bm);
    }
    assert forall|i: int| 0 <= i < bm.entries.len() implies decreases_to!(bm => #[trigger] bm.entries[i].1) by {
        assert(decreases_to!(bm => bm.entries));
        assert(decreases_to!(bm.entries => bm.entries[i]));
        assert(decreases_to!(bm.entries[i] => bm.entries[i].1));
    }
    let ghost bm0 = bm;
    let mut entries: Vec<(String, Value)> = Vec::new();
    std::mem::swap(&mut entries, &mut am.entries);
    let ghost s0 = entries@;
    let mut rest = bm.entries;
    let total: usize = rest.len();
    let ghost bs = rest@;
    let mut j: usize = 0;
    assert(rest@ =~= bs.skip(0));
    while rest.len() > 0
        invariant
            keys_sorted(entries@),
            keys_sorted(bs),
            bs == bm0@,
            j <= bs.len(),
            rest@ == bs.skip(j as int),
            rest.len() == bs.len() - j,
            bs.len() == total,
            forall|i: int| 0 <= i < bs.len() ==> decreases_to!(bm0 => #[trigger] bm0.entries[i].1),
            forall|k: Seq<char>| #[trigger]
                has_key(entries@, k) == (has_key(s0, k) || has_key(bs.take(j as int), k)),
            forall|k: Seq<char>|
                !has_key(bs.take(j as int), k) ==> #[trigger] lookup(entries@, k) == lookup(s0, k),
            forall|i: int|
                0 <= i < j ==> match #[trigger] lookup(s0, bs[i].0@) {
                    Some(av) => match lookup(entries@, bs[i].0@) {
                        Some(rv) => merged(av, bs[i].1, rv),
                        None => false,
                    },
                    None => lookup(entries@, bs[i].0@) == Some(bs[i].1),
                },
        decreases rest.len(),
    {
        let ghost before = entries@;
        let (k, v) = rest.remove(0);
        proof {
            assert(bs[j as int] == (k, v));
            assert(rest@ =~= bs.skip(j + 1));
            assert(v == bm0.entries[j as int].1);
            // the key of this entry was not seen before
            if has_key(bs.take(j as int), k@) {
                let x = choose|x: int| 0 <= x < j && #[trigger] bs.take(j as int)[x].0@ == k@;
                assert(seq_lt(bs[x].0@, bs[j as int].0@));
                lemma_lt_irreflexive(k@);
            }
            assert forall|kk: Seq<char>| #[trigger] has_key(bs.take(j + 1), kk) == (has_key(bs.take(j as int), kk) || kk == k@) by {
                if has_key(bs.take(j + 1), kk) {
                    let x = choose|x: int| 0 <= x < j + 1 && #[trigger] bs.take(j + 1)[x].0@ == kk;
                    if x < j {
                        assert(bs.take(j as int)[x].0@ == kk);
                    }
                }
                if has_key(bs.take(j as int), kk) {
                    let x = choose|x: int| 0 <= x < j && #[trigger] bs.take(j as int)[x].0@ == kk;
                    assert(bs.take(j + 1)[x].0@ == kk);
                }
                if kk == k@ {
                    assert(bs.take(j + 1)[j as int].0@ == kk);
                }
            }
        }
        let (i, found) = locate_key(&entries, &k);
        if found {
            let (k0, mut cur) = entries.remove(i);
            merge(&mut cur, v);
            let ghost e = (k0, cur);
            entries.insert(i, (k0, cur));
            proof {
                assert(entries@ =~= before.update(i as int, (before[i as int].0, e.1)));
                lemma_replace(before, i as int, e.1);
                lemma_lookup_at(before, i as int);
            }
        } else {
            let ghost e = (k, v);
            entries.insert(i, (k, v));
            proof {
                assert(entries@ =~= before.insert(i as int, e));
                lemma_insert(before, i as int, e);
            }
        }
        proof {
            assert forall|x: int|
                0 <= x < j + 1 implies match #[trigger] lookup(s0, bs[x].0@) {
                    Some(av) => match lookup(entries@, bs[x].0@) {
                        Some(rv) => merged(av, bs[x].1, rv),
                        None => false,
                    },
                    None => lookup(entries@, bs[x].0@) == Some(bs[x].1),
                } by {
                if x < j {
                    assert(seq_lt(bs[x].0@, bs[j as int].0@));
                    assert(bs[x].0@ != k@) by {
                        lemma_lt_irreflexive(k@);
                    }
                }
            }
        }
        j = j + 1;
    }
    proof {
        assert(bs.take(j as int) =~= bs);
    }
    am.entries = entries;
}

} // verus!
