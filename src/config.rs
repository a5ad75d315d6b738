use crate::text::{lemma_lt_irreflexive, lemma_lt_total, lemma_lt_transitive, seq_lt, str_lt};
use crate::value::{lemma_merged_same, lemma_same_refl, lookup, merge, merged, same, Value, ValueMap};
use vstd::prelude::*;

verus! {

broadcast use vstd::seq_lib::group_to_multiset_ensures;

/// One decoded file: its top-level table and the absolute path it came from.
#[derive(Debug)]
pub struct ConfigFile {
    pub config: ValueMap,
    pub path: String,
}

/// Files ordered by path, ties kept in place.
pub open spec fn by_path(s: Seq<ConfigFile>) -> bool {
    forall|i: int, j: int| 0 <= i < j < s.len() ==> !seq_lt(#[trigger] s[j].path@, #[trigger] s[i].path@)
}

/// The paths of `s`, in order.
pub open spec fn paths_of(s: Seq<ConfigFile>) -> Seq<Seq<char>> {
    s.map_values(|f: ConfigFile| f.path@)
}

/// The tables of `s`, in order.
pub open spec fn tables_of(s: Seq<ConfigFile>) -> Seq<ValueMap> {
    s.map_values(|f: ConfigFile| f.config)
}

/// `r` is `seed` with each table of `ms` merged into it, first to last.
pub open spec fn folded(seed: Value, ms: Seq<ValueMap>, r: Value) -> bool
    decreases ms.len(),
{
    if ms.len() == 0 {
        r == seed
    } else {
        exists|mid: Value| folded(seed, ms.drop_last(), mid) && #[trigger] merged(mid, Value::Table(ms.last()), r)
    }
}

proof fn lemma_folded_step(seed: Value, ms: Seq<ValueMap>, mid: Value, r: Value)
    requires
        ms.len() > 0,
        folded(seed, ms.drop_last(), mid),
        merged(mid, Value::Table(ms.last()), r),
    ensures
        folded(seed, ms, r),
{
}

/// Folding the same tables into the same seed twice gives the same tree.
pub proof fn lemma_fold_deterministic(seed: Value, ms: Seq<ValueMap>, r1: Value, r2: Value)
    requires
        folded(seed, ms, r1),
        folded(seed, ms, r2),
    ensures
        same(r1, r2),
    decreases ms.len(),
{
    if ms.len() == 0 {
        lemma_same_refl(seed);
    } else {
        let m1 = choose|mid: Value| folded(seed, ms.drop_last(), mid) && #[trigger] merged(mid, Value::Table(ms.last()), r1);
        let m2 = choose|mid: Value| folded(seed, ms.drop_last(), mid) && #[trigger] merged(mid, Value::Table(ms.last()), r2);
        lemma_fold_deterministic(seed, ms.drop_last(), m1, m2);
        lemma_merged_same(m1, m2, Value::Table(ms.last()), r1, r2);
    }
}

/// No two files stand on the same path.
pub open spec fn distinct_paths(s: Seq<ConfigFile>) -> bool {
    forall|i: int, j: int| 0 <= i < s.len() && 0 <= j < s.len() && i != j ==> #[trigger] s[i].path@ != #[trigger] s[j].path@
}

proof fn lemma_distinct_transfer(f: Seq<ConfigFile>, s: Seq<ConfigFile>)
    requires
        distinct_paths(f),
        s.to_multiset() == f.to_multiset(),
    ensures
        distinct_paths(s),
{
    assert forall|i: int, j: int| 0 <= i < s.len() && 0 <= j < s.len() && i != j implies #[trigger] s[i].path@ != #[trigger] s[j].path@ by {
        if s[i].path@ == s[j].path@ {
            assert(s.contains(s[i]));
            vstd::seq_lib::to_multiset_contains(s, s[i]);
            vstd::seq_lib::to_multiset_contains(f, s[i]);
            assert(f.contains(s[i]));
            let p = choose|p: int| 0 <= p < f.len() && f[p] == s[i];
            if s[i] == s[j] {
                let t = s.remove(i);
                let jj = if j < i { j } else { j - 1 };
                assert(t[jj] == s[i]);
                assert(t.contains(s[i]));
                vstd::seq_lib::to_multiset_remove(s, i);
                vstd::seq_lib::to_multiset_remove(f, p);
                assert(f.remove(p).to_multiset() == t.to_multiset());
                vstd::seq_lib::to_multiset_contains(t, s[i]);
                vstd::seq_lib::to_multiset_contains(f.remove(p), s[i]);
                assert(f.remove(p).contains(s[i]));
                let q = choose|q: int| 0 <= q < f.remove(p).len() && f.remove(p)[q] == s[i];
                let qq = if q < p { q } else { q + 1 };
                assert(f[qq] == s[i]);
                assert(f[qq].path@ == f[p].path@);
            } else {
                assert(s.contains(s[j]));
                vstd::seq_lib::to_multiset_contains(s, s[j]);
                vstd::seq_lib::to_multiset_contains(f, s[j]);
                assert(f.contains(s[j]));
                let q = choose|q: int| 0 <= q < f.len() && f[q] == s[j];
                assert(f[q].path@ == f[p].path@);
            }
        }
    }
}

proof fn lemma_sorted_unique(s1: Seq<ConfigFile>, s2: Seq<ConfigFile>)
    requires
        by_path(s1),
        by_path(s2),
        distinct_paths(s1),
        s1.to_multiset() == s2.to_multiset(),
    ensures
        s1 == s2,
    decreases s1.len(),
{
    vstd::seq_lib::to_multiset_len(s1);
    vstd::seq_lib::to_multiset_len(s2);
    if s1.len() == 0 {
        assert(s2.len() == 0);
        assert(s1 =~= s2);
    } else {
        assert(s2.len() == s1.len());
        assert(s1.contains(s1[0]));
        vstd::seq_lib::to_multiset_contains(s1, s1[0]);
        vstd::seq_lib::to_multiset_contains(s2, s1[0]);
        vstd::seq_lib::to_multiset_contains(s1, s2[0]);
        vstd::seq_lib::to_multiset_contains(s2, s2[0]);
        assert(s2.contains(s1[0]));
        let j = choose|j: int| 0 <= j < s2.len() && s2[j] == s1[0];
        assert(s2.contains(s2[0]));
        assert(s1.contains(s2[0]));
        let i = choose|i: int| 0 <= i < s1.len() && s1[i] == s2[0];
        if j > 0 {
            assert(!seq_lt(s2[j].path@, s2[0].path@));
        }
        if i > 0 {
            assert(!seq_lt(s1[i].path@, s1[0].path@));
        }
        lemma_lt_total(s1[0].path@, s2[0].path@);
        assert(s1[0].path@ == s2[0].path@);
        assert(s1[i].path@ == s1[0].path@);
        assert(i == 0);
        vstd::seq_lib::to_multiset_remove(s1, 0);
        vstd::seq_lib::to_multiset_remove(s2, 0);
        assert(s1.remove(0) =~= s1.drop_first());
        assert(s2.remove(0) =~= s2.drop_first());
        let t1 = s1.drop_first();
        let t2 = s2.drop_first();
        assert forall|a: int, b: int| 0 <= a < b < t1.len() implies !seq_lt(#[trigger] t1[b].path@, #[trigger] t1[a].path@) by {
            assert(t1[a] == s1[a + 1] && t1[b] == s1[b + 1]);
        }
        assert forall|a: int, b: int| 0 <= a < b < t2.len() implies !seq_lt(#[trigger] t2[b].path@, #[trigger] t2[a].path@) by {
            assert(t2[a] == s2[a + 1] && t2[b] == s2[b + 1]);
        }
        assert forall|a: int, b: int| 0 <= a < t1.len() && 0 <= b < t1.len() && a != b implies #[trigger] t1[a].path@ != #[trigger] t1[b].path@ by {
            assert(t1[a] == s1[a + 1] && t1[b] == s1[b + 1]);
        }
        lemma_sorted_unique(t1, t2);
        assert(s1 =~= s2) by {
            assert forall|x: int| 0 <= x < s1.len() implies s1[x] == s2[x] by {
                if x > 0 {
                    assert(t1[x - 1] == s1[x] && t2[x - 1] == s2[x]);
                }
            }
        }
    }
}

/// `c` is what ordering `files` by path and merging them into `seed` gives.
pub open spec fn assembled(seed: ValueMap, files: Seq<ConfigFile>, c: Config) -> bool {
    exists|s: Seq<ConfigFile>|
        by_path(s) && s.to_multiset() == files.to_multiset()
            && #[trigger] folded(Value::Table(seed), tables_of(s), Value::Table(c.table()))
            && c.sources() == paths_of(s)
}

/// With no two files on one path, the order in which the files come does
/// not change the configuration: the same tree, from the same sources.
pub proof fn lemma_order_independent(seed: ValueMap, f1: Seq<ConfigFile>, f2: Seq<ConfigFile>, c1: Config, c2: Config)
    requires
        f1.to_multiset() == f2.to_multiset(),
        distinct_paths(f1),
        assembled(seed, f1, c1),
        assembled(seed, f2, c2),
    ensures
        same(Value::Table(c1.table()), Value::Table(c2.table())),
        c1.sources() == c2.sources(),
{
    let s1 = choose|s: Seq<ConfigFile>|
        by_path(s) && s.to_multiset() == f1.to_multiset()
            && #[trigger] folded(Value::Table(seed), tables_of(s), Value::Table(c1.table()))
            && c1.sources() == paths_of(s);
    let s2 = choose|s: Seq<ConfigFile>|
        by_path(s) && s.to_multiset() == f2.to_multiset()
            && #[trigger] folded(Value::Table(seed), tables_of(s), Value::Table(c2.table()))
            && c2.sources() == paths_of(s);
    lemma_distinct_transfer(f1, s1);
    lemma_sorted_unique(s1, s2);
    lemma_fold_deterministic(Value::Table(seed), tables_of(s1), Value::Table(c1.table()), Value::Table(c2.table()));
}

/// Orders `files` by path, lexicographically; files with equal paths keep
/// their relative order.
pub fn sort_by_path(files: Vec<ConfigFile>) -> (r: Vec<ConfigFile>)
    ensures
        by_path(r@),
        r@.to_multiset() == files@.to_multiset(),
{
    let mut rest = files;
    let mut out: Vec<ConfigFile> = Vec::new();
    while rest.len() > 0
        invariant
            by_path(out@),
            out@.to_multiset().add(rest@.to_multiset()) == files@.to_multiset(),
        decreases rest.len(),
    {
        let ghost r0 = rest@;
        let f = rest.remove(0);
        proof {
            vstd::seq_lib::to_multiset_remove(r0, 0);
        }
        let mut i: usize = 0;
        while i < out.len() && !str_lt(f.path.as_str(), out[i].path.as_str())
            invariant
                i <= out.len(),
                forall|j: int| 0 <= j < i ==> !seq_lt(f.path@, #[trigger] out@[j].path@),
            decreases out.len() - i,
        {
            i = i + 1;
        }
        let ghost o0 = out@;
        let ghost fv = f;
        out.insert(i, f);
        proof {
            vstd::seq_lib::to_multiset_insert(o0, i as int, fv);
            assert forall|a: int, b: int| 0 <= a < b < out@.len() implies !seq_lt(#[trigger] out@[b].path@, #[trigger] out@[a].path@) by {
                if a == i {
                    assert(out@[b] == o0[b - 1]);
                    assert(seq_lt(fv.path@, o0[i as int].path@));
                    if seq_lt(out@[b].path@, fv.path@) {
                        lemma_lt_transitive(out@[b].path@, fv.path@, o0[i as int].path@);
                        lemma_lt_irreflexive(o0[i as int].path@);
                    }
                } else if b == i {
                } else if a < i && b > i {
                    assert(out@[a] == o0[a] && out@[b] == o0[b - 1]);
                } else if b < i {
                    assert(out@[a] == o0[a] && out@[b] == o0[b]);
                } else {
                    assert(out@[a] == o0[a - 1] && out@[b] == o0[b - 1]);
                }
            }
        }
    }
    out
}

/// Merges the table of each file into `seed`, in the order given.
pub fn merge_files(seed: ValueMap, files: Vec<ConfigFile>) -> (r: (ValueMap, Vec<String>))
    ensures
        folded(Value::Table(seed), tables_of(files@), Value::Table(r.0)),
        r.1@.map_values(|p: String| p@) == paths_of(files@),
{
    let mut acc = Value::Table(seed);
    let mut paths: Vec<String> = Vec::new();
    let mut rest = files;
    let ghost fs = files@;
    let mut j: usize = 0;
    let total: usize = rest.len();
    assert(rest@ =~= fs.skip(0));
    while rest.len() > 0
        invariant
            j <= fs.len(),
            fs.len() == total,
            rest.len() == total - j,
            rest@ == fs.skip(j as int),
            folded(Value::Table(seed), tables_of(fs).take(j as int), acc),
            acc is Table,
            paths.len() == j,
            paths@.map_values(|p: String| p@) == paths_of(fs).take(j as int),
        decreases rest.len(),
    {
        let ghost prev = acc;
        let f = rest.remove(0);
        proof {
            assert(f == fs[j as int]);
            assert(rest@ =~= fs.skip(j + 1));
        }
        let ConfigFile { config, path } = f;
        let ghost p0 = paths@;
        merge(&mut acc, Value::Table(config));
        paths.push(path);
        proof {
            assert(paths@ == p0.push(path));
            assert(paths_of(fs)[j as int] == path@);
            let ms = tables_of(fs).take(j + 1);
            assert(ms.drop_last() =~= tables_of(fs).take(j as int));
            assert(ms.last() == config);
            assert(folded(Value::Table(seed), ms.drop_last(), prev));
            assert(paths@.map_values(|p: String| p@) =~= paths_of(fs).take(j + 1)) by {
                assert(p0.map_values(|p: String| p@) == paths_of(fs).take(j as int));
                assert forall|x: int| 0 <= x < j implies paths@[x]@ == paths_of(fs)[x] by {
                    assert(paths@[x] == p0[x]);
                    assert(p0.map_values(|p: String| p@)[x] == paths_of(fs).take(j as int)[x]);
                }
            }
            assert(merged(prev, Value::Table(ms.last()), acc));
            assert(ms.len() > 0);
            lemma_folded_step(Value::Table(seed), ms, prev, acc);
        }
        j = j + 1;
    }
    proof {
        assert(tables_of(fs).take(j as int) =~= tables_of(fs));
        assert(paths_of(fs).take(j as int) =~= paths_of(fs));
    }
    match acc {
        Value::Table(m) => (m, paths),
        _ => (ValueMap::new(), paths),
    }
}

/// A merged configuration: one table, plus the paths of the files that went
/// into it, in merge order.
#[derive(Debug)]
pub struct Config {
    inner: ValueMap,
    files: Vec<String>,
    none: Value,
}

impl Config {
    #[verifier::type_invariant]
    spec fn holds_none(self) -> bool {
        self.none == Value::Option(None)
    }

    /// The merged table.
    pub closed spec fn table(&self) -> ValueMap {
        self.inner
    }

    /// The contributing paths, in merge order.
    pub closed spec fn sources(&self) -> Seq<Seq<char>> {
        self.files@.map_values(|p: String| p@)
    }

    /// An empty configuration with no sources.
    pub fn new() -> (r: Config)
        ensures
            r.table()@.len() == 0,
            r.sources().len() == 0,
    {
        Config { inner: ValueMap::new(), files: Vec::new(), none: Value::Option(None) }
    }

    /// A configuration made of `table`, with no sources.
    pub fn from_table(table: ValueMap) -> (r: Config)
        ensures
            r.table() == table,
            r.sources().len() == 0,
    {
        Config { inner: table, files: Vec::new(), none: Value::Option(None) }
    }

    /// A configuration made of `table`, contributed to by `files`.
    pub fn with_sources(table: ValueMap, files: Vec<String>) -> (r: Config)
        ensures
            r.table() == table,
            r.sources() == files@.map_values(|p: String| p@),
    {
        Config { inner: table, files, none: Value::Option(None) }
    }

    /// Merges the files into `seed` in the order given, recording their paths.
    pub fn from_ordered_files(seed: ValueMap, files: Vec<ConfigFile>) -> (r: Config)
        ensures
            folded(Value::Table(seed), tables_of(files@), Value::Table(r.table())),
            r.sources() == paths_of(files@),
    {
        let (inner, paths) = merge_files(seed, files);
        Config { inner, files: paths, none: Value::Option(None) }
    }

    /// Orders the files by path and merges them into `seed` in that order.
    pub fn from_files(seed: ValueMap, files: Vec<ConfigFile>) -> (r: Config)
        ensures
            assembled(seed, files@, r),
    {
        let sorted = sort_by_path(files);
        let ghost s = sorted@;
        let r = Config::from_ordered_files(seed, sorted);
        assert(folded(Value::Table(seed), tables_of(s), Value::Table(r.table())));
        r
    }

    /// The contributing paths, in merge order.
    pub fn files(&self) -> (r: &Vec<String>)
        ensures
            r@.map_values(|p: String| p@) == self.sources(),
    {
        &self.files
    }

    /// The merged table.
    pub fn table_ref(&self) -> (r: &ValueMap)
        ensures
            *r == self.table(),
    {
        &self.inner
    }

    /// Gives up the merged table.
    pub fn into_table(self) -> (r: ValueMap)
        ensures
            r == self.table(),
    {
        self.inner
    }

    /// The value under `name`, if the key is present.
    pub fn get(&self, name: &str) -> (r: Option<&Value>)
        ensures
            r is Some <==> lookup(self.table()@, name@) is Some,
            r is Some ==> *r->0 == lookup(self.table()@, name@)->0,
    {
        self.inner.get(name)
    }

    /// Stores `value` under `name`, returning the previous value.
    pub fn set(&mut self, name: String, value: Value) -> (r: Option<Value>)
        ensures
            r == lookup(old(self).table()@, name@),
            lookup(final(self).table()@, name@) == Some(value),
            forall|k: Seq<char>| k != name@ ==> #[trigger] lookup(final(self).table()@, k) == lookup(old(self).table()@, k),
            final(self).sources() == old(self).sources(),
    {
        proof {
            use_type_invariant(&*self);
        }
        let mut own = ValueMap::new();
        std::mem::swap(&mut own, &mut self.inner);
        let r = own.insert(name, value);
        self.inner = own;
        r
    }

    /// The value under `name`, or the "nothing" value where the key is absent.
    pub fn index(&self, name: &str) -> (r: &Value)
        ensures
            *r == match lookup(self.table()@, name@) {
                Some(v) => v,
                None => Value::Option(None),
            },
    {
        proof {
            use_type_invariant(self);
        }
        match self.inner.get(name) {
            Some(v) => v,
            None => &self.none,
        }
    }

    /// Removes `name`, returning its value.
    pub fn remove(&mut self, name: &str) -> (r: Option<Value>)
        ensures
            r == lookup(old(self).table()@, name@),
            lookup(final(self).table()@, name@) is None,
            forall|k: Seq<char>| k != name@ ==> #[trigger] lookup(final(self).table()@, k) == lookup(old(self).table()@, k),
            final(self).sources() == old(self).sources(),
    {
        proof {
            use_type_invariant(&*self);
        }
        let mut own = ValueMap::new();
        std::mem::swap(&mut own, &mut self.inner);
        let r = own.remove(name);
        self.inner = own;
        r
    }

    /// Whether `name` is present.
    pub fn contains(&self, name: &str) -> (r: bool)
        ensures
            r == (lookup(self.table()@, name@) is Some),
    {
        self.inner.contains(name)
    }

    /// Merges the table of `other` into this one; the sources stay as they are.
    pub fn extend(&mut self, other: Config)
        ensures
            merged(Value::Table(old(self).table()), Value::Table(other.table()), Value::Table(final(self).table())),
            final(self).sources() == old(self).sources(),
    {
        proof {
            use_type_invariant(&*self);
        }
        let mut own = ValueMap::new();
        std::mem::swap(&mut own, &mut self.inner);
        let mut acc = Value::Table(own);
        merge(&mut acc, Value::Table(other.inner));
        match acc {
            Value::Table(m) => {
                self.inner = m;
            },
            _ => {},
        }
    }
}

impl Default for Config {
    fn default() -> (r: Config)
        ensures
            r.table()@.len() == 0,
            r.sources().len() == 0,
    {
        Config::new()
    }
}

} // verus!
