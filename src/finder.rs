use crate::config::{Config, ConfigFile};
use crate::error::Error;
use crate::locator::{matching, name_matches, views, walk, DirListing, DirLocator, WalkDirLocator, any_match, is_absolute};
use crate::paths::{file_name, file_name_of};
use crate::pattern::{all_rendered, all_valid, compile_patterns, templates_ok, texts_of, CompiledPattern};
use crate::value::ValueMap;
use vstd::prelude::*;

verus! {

/// `s` without repeats: each element kept where it first occurs.
pub open spec fn dedup(s: Seq<Seq<char>>) -> Seq<Seq<char>>
    decreases s.len(),
{
    if s.len() == 0 {
        seq![]
    } else if dedup(s.drop_last()).contains(s.last()) {
        dedup(s.drop_last())
    } else {
        dedup(s.drop_last()).push(s.last())
    }
}

/// Every path occurs once in the result, and the result holds exactly the
/// paths of the input.
pub proof fn lemma_dedup(s: Seq<Seq<char>>)
    ensures
        dedup(s).no_duplicates(),
        forall|x: Seq<char>| #[trigger] dedup(s).contains(x) <==> s.contains(x),
    decreases s.len(),
{
    if s.len() > 0 {
        let d = dedup(s.drop_last());
        let p = s.drop_last();
        let l = s.last();
        lemma_dedup(p);
        assert forall|x: Seq<char>| s.contains(x) <==> (p.contains(x) || x == l) by {
            if s.contains(x) && x != l {
                let i = choose|i: int| 0 <= i < s.len() && s[i] == x;
                assert(p[i] == x);
            }
            if p.contains(x) {
                let i = choose|i: int| 0 <= i < p.len() && p[i] == x;
                assert(s[i] == x);
            }
            if x == l {
                assert(s[s.len() - 1] == x);
            }
        }
        if !d.contains(l) {
            let e = d.push(l);
            assert forall|x: Seq<char>| e.contains(x) <==> (d.contains(x) || x == l) by {
                if e.contains(x) && x != l {
                    let i = choose|i: int| 0 <= i < e.len() && e[i] == x;
                    assert(d[i] == x);
                }
                if d.contains(x) {
                    let i = choose|i: int| 0 <= i < d.len() && d[i] == x;
                    assert(e[i] == x);
                }
                if x == l {
                    assert(e[d.len() as int] == x);
                }
            }
            assert forall|a: int, b: int| 0 <= a < e.len() && 0 <= b < e.len() && a != b implies e[a] != e[b] by {
                if a == d.len() {
                    assert(d[b] == e[b]);
                } else if b == d.len() {
                    assert(d[a] == e[a]);
                } else {
                    assert(d[a] == e[a] && d[b] == e[b]);
                }
            }
        }
    }
}

/// Keeps the first occurrence of each path.
pub fn dedup_paths(paths: Vec<String>) -> (r: Vec<String>)
    ensures
        views(r@) == dedup(views(paths@)),
{
    let mut out: Vec<String> = Vec::new();
    let mut i: usize = 0;
    assert(views(paths@).take(0) =~= Seq::<Seq<char>>::empty());
    assert(views(out@) =~= Seq::<Seq<char>>::empty());
    while i < paths.len()
        invariant
            i <= paths.len(),
            views(out@) == dedup(views(paths@).take(i as int)),
        decreases paths.len() - i,
    {
        let ghost s = views(paths@).take(i + 1);
        proof {
            assert(s.drop_last() =~= views(paths@).take(i as int));
            assert(s.last() == paths@[i as int]@);
        }
        let mut seen = false;
        let mut j: usize = 0;
        while j < out.len()
            invariant
                i < paths.len(),
                j <= out.len(),
                seen <==> exists|x: int| 0 <= x < j && out@[x]@ == paths@[i as int]@,
            decreases out.len() - j,
        {
            if out[j] == paths[i] {
                seen = true;
            }
            j = j + 1;
        }
        proof {
            if seen {
                let x = choose|x: int| 0 <= x < j && out@[x]@ == paths@[i as int]@;
                assert(views(out@)[x] == s.last());
            }
            if views(out@).contains(s.last()) {
                let x = choose|x: int| 0 <= x < views(out@).len() && views(out@)[x] == s.last();
                assert(out@[x]@ == paths@[i as int]@);
            }
        }
        if !seen {
            let ghost o = out@;
            out.push(paths[i].clone());
            proof {
                assert(views(out@) =~= views(o).push(s.last()));
            }
        }
        i = i + 1;
    }
    proof {
        assert(views(paths@).take(i as int) =~= views(paths@));
    }
    out
}

/// Where to look: one directory, or a bounded walk below a root.
#[derive(Debug)]
pub enum Locator {
    Dir(DirLocator),
    Walk(WalkDirLocator),
}

/// What `l` finds in the listing `t` of its root.
pub open spec fn located(l: Locator, t: DirListing, pats: Seq<CompiledPattern>) -> Seq<Seq<char>> {
    match l {
        Locator::Dir(_) => matching(t.files@, pats),
        Locator::Walk(w) => walk(t, w.depth_spec(), pats),
    }
}

/// What the first `n` locators find, each in the listing of the same index,
/// one after the other.
pub open spec fn all_located(ls: Seq<Locator>, ts: Seq<DirListing>, pats: Seq<CompiledPattern>, n: int) -> Seq<Seq<char>>
    decreases n,
{
    if n <= 0 {
        seq![]
    } else {
        all_located(ls, ts, pats, n - 1) + located(ls[n - 1], ts[n - 1], pats)
    }
}

impl Locator {
    /// The directory where the search starts.
    pub fn root(&self) -> (r: &String)
        ensures
            r@ == match *self {
                Locator::Dir(d) => d.0@,
                Locator::Walk(w) => w.root_spec(),
            },
    {
        match self {
            Locator::Dir(d) => d.root(),
            Locator::Walk(w) => w.root(),
        }
    }

    /// Whether the locator looks below its root (a walk) or not.
    pub fn is_recursive(&self) -> (r: bool)
        ensures
            r == (self is Walk),
    {
        match self {
            Locator::Dir(_) => false,
            Locator::Walk(_) => true,
        }
    }

    /// The matches found in `listing`, the listing of the root.
    pub fn locate(&self, listing: &DirListing, pats: &Vec<CompiledPattern>) -> (r: Vec<String>)
        ensures
            views(r@) == located(*self, *listing, pats@),
    {
        match self {
            Locator::Dir(d) => d.locate(listing, pats),
            Locator::Walk(w) => w.locate(listing, pats),
        }
    }
}

/// The formats that can be decoded, each with the extensions it handles.
#[derive(Debug)]
pub struct Loader {
    encoders: Vec<Vec<String>>,
}

/// The extensions of all formats, format by format.
pub open spec fn flat_extensions(es: Seq<Vec<String>>) -> Seq<Seq<char>>
    decreases es.len(),
{
    if es.len() == 0 {
        seq![]
    } else {
        flat_extensions(es.drop_last()) + views(es.last()@)
    }
}

impl Loader {
    pub closed spec fn formats(&self) -> Seq<Vec<String>> {
        self.encoders@
    }

    /// A loader that knows no format.
    pub fn new() -> (r: Loader)
        ensures
            r.formats().len() == 0,
    {
        Loader { encoders: Vec::new() }
    }

    /// Registers one more format, handling `extensions`.
    pub fn with_encoder(self, extensions: Vec<String>) -> (r: Loader)
        ensures
            r.formats() == self.formats().push(extensions),
    {
        let mut encoders = self.encoders;
        encoders.push(extensions);
        Loader { encoders }
    }

    /// All extensions, format by format.
    pub fn extensions(&self) -> (r: Vec<String>)
        ensures
            views(r@) == flat_extensions(self.formats()),
    {
        let mut out: Vec<String> = Vec::new();
        let mut i: usize = 0;
        assert(self.encoders@.take(0) =~= Seq::<Vec<String>>::empty());
        assert(views(out@) =~= Seq::<Seq<char>>::empty());
        while i < self.encoders.len()
            invariant
                i <= self.encoders.len(),
                views(out@) == flat_extensions(self.encoders@.take(i as int)),
            decreases self.encoders.len() - i,
        {
            let ghost start = views(out@);
            let exts = &self.encoders[i];
            let mut j: usize = 0;
            assert(views(exts@.take(0)) =~= Seq::<Seq<char>>::empty());
            assert(start + Seq::<Seq<char>>::empty() =~= start);
            while j < exts.len()
                invariant
                    j <= exts.len(),
                    views(out@) == start + views(exts@.take(j as int)),
                decreases exts.len() - j,
            {
                let ghost o = out@;
                let x = exts[j].clone();
                out.push(x);
                proof {
                    assert(out@ == o.push(x));
                    assert(views(exts@.take(j + 1)) =~= views(exts@.take(j as int)).push(x@));
                    assert(views(out@) =~= views(o).push(x@));
                    assert(views(out@) =~= start + views(exts@.take(j + 1)));
                }
                j = j + 1;
            }
            proof {
                assert(exts@.take(j as int) =~= exts@);
                assert(self.encoders@.take(i + 1).drop_last() =~= self.encoders@.take(i as int));
                assert(self.encoders@.take(i + 1).last() == *exts);
            }
            i = i + 1;
        }
        proof {
            assert(self.encoders@.take(i as int) =~= self.encoders@);
        }
        out
    }

    /// The first format that handles `ext`.
    pub fn find(&self, ext: &str) -> (r: Option<usize>)
        ensures
            r is Some ==> r->0 < self.formats().len() && views(self.formats()[r->0 as int]@).contains(ext@)
                && forall|i: int| 0 <= i < r->0 ==> !views(#[trigger] self.formats()[i]@).contains(ext@),
            r is None ==> forall|i: int| 0 <= i < self.formats().len() ==> !views(#[trigger] self.formats()[i]@).contains(ext@),
    {
        let key = ext.to_owned();
        let mut i: usize = 0;
        while i < self.encoders.len()
            invariant
                i <= self.encoders.len(),
                key@ == ext@,
                forall|x: int| 0 <= x < i ==> !views(#[trigger] self.encoders@[x]@).contains(ext@),
            decreases self.encoders.len() - i,
        {
            let exts = &self.encoders[i];
            let mut j: usize = 0;
            while j < exts.len()
                invariant
                    i < self.encoders.len(),
                    *exts == self.encoders@[i as int],
                    forall|x: int| 0 <= x < i ==> !views(#[trigger] self.encoders@[x]@).contains(ext@),
                    j <= exts.len(),
                    key@ == ext@,
                    forall|y: int| 0 <= y < j ==> exts@[y]@ != ext@,
                decreases exts.len() - j,
            {
                if exts[j] == key {
                    proof {
                        assert(views(exts@)[j as int] == ext@);
                    }
                    return Some(i);
                }
                j = j + 1;
            }
            proof {
                if views(exts@).contains(ext@) {
                    let y = choose|y: int| 0 <= y < views(exts@).len() && views(exts@)[y] == ext@;
                    assert(exts@[y]@ == ext@);
                }
            }
            i = i + 1;
        }
        None
    }
}

/// Which outcomes of reading and decoding go on to the merge: with `strict`,
/// all of them or the first error; otherwise the successes, errors skipped.
pub fn gather(results: Vec<Result<ConfigFile, Error>>, strict: bool) -> (r: Result<Vec<ConfigFile>, Error>)
    ensures
        strict ==> (r is Ok <==> forall|i: int| 0 <= i < results@.len() ==> #[trigger] results@[i] is Ok),
        r is Ok ==> r->Ok_0@ == results@.filter(|x: Result<ConfigFile, Error>| x is Ok).map_values(|x: Result<ConfigFile, Error>| x->Ok_0),
        r is Err ==> strict && exists|i: int|
            0 <= i < results@.len() && results@[i] == Err::<ConfigFile, Error>(r->Err_0)
                && forall|k: int| 0 <= k < i ==> #[trigger] results@[k] is Ok,
{
    let ghost all = results@;
    let mut rest = results;
    let mut out: Vec<ConfigFile> = Vec::new();
    let mut j: usize = 0;
    let total: usize = rest.len();
    assert(rest@ =~= all.skip(0));
    reveal(Seq::filter);
    assert(all.take(0).filter(|x: Result<ConfigFile, Error>| x is Ok) =~= Seq::<Result<ConfigFile, Error>>::empty());
    while rest.len() > 0
        invariant
            all == results@,
            j <= all.len(),
            all.len() == total,
            rest.len() == total - j,
            rest@ == all.skip(j as int),
            strict ==> forall|i: int| 0 <= i < j ==> #[trigger] all[i] is Ok,
            out@ == all.take(j as int).filter(|x: Result<ConfigFile, Error>| x is Ok).map_values(|x: Result<ConfigFile, Error>| x->Ok_0),
        decreases rest.len(),
    {
        let item = rest.remove(0);
        proof {
            assert(item == all[j as int]);
            assert(rest@ =~= all.skip(j + 1));
            assert(all.take(j + 1).drop_last() =~= all.take(j as int));
            reveal(Seq::filter);
        }
        match item {
            Ok(f) => {
                out.push(f);
                proof {
                    assert(out@ =~= all.take(j + 1).filter(|x: Result<ConfigFile, Error>| x is Ok).map_values(|x: Result<ConfigFile, Error>| x->Ok_0));
                }
            },
            Err(e) => {
                if strict {
                    proof {
                        assert(all[j as int] == Err::<ConfigFile, Error>(e));
                    }
                    return Err(e);
                }
            },
        }
        j = j + 1;
    }
    proof {
        assert(all.take(j as int) =~= all);
    }
    Ok(out)
}

/// The smaller of `a` and `b`.
pub open spec fn bound(a: int, b: int) -> int {
    if b < a { b } else { a }
}

/// What the first `n` locators find, each in its root's listing where that
/// could be read.
pub open spec fn all_found(ls: Seq<Locator>, os: Seq<Result<DirListing, Error>>, pats: Seq<CompiledPattern>, n: int) -> Seq<Seq<char>>
    decreases n,
{
    if n <= 0 {
        seq![]
    } else {
        all_found(ls, os, pats, n - 1) + match os[n - 1] {
            Ok(t) => located(ls[n - 1], t, pats),
            Err(_) => seq![],
        }
    }
}

/// The errors among `os`, in order.
pub open spec fn errors_of(os: Seq<Result<DirListing, Error>>) -> Seq<Error>
    decreases os.len(),
{
    if os.len() == 0 {
        seq![]
    } else {
        match os.last() {
            Ok(_) => errors_of(os.drop_last()),
            Err(e) => errors_of(os.drop_last()).push(e),
        }
    }
}

/// The matching files: locator by locator, each searching the listing of the
/// same index (a locator without one finds nothing), each path kept where it
/// is first found.
pub fn find_files(locators: &Vec<Locator>, listings: &Vec<DirListing>, patterns: &Vec<CompiledPattern>) -> (r: Vec<String>)
    ensures
        views(r@) == dedup(all_located(locators@, listings@, patterns@,
            if listings.len() < locators.len() { listings.len() as int } else { locators.len() as int })),
{
    let n: usize = if listings.len() < locators.len() { listings.len() } else { locators.len() };
    let mut all: Vec<String> = Vec::new();
    let mut k: usize = 0;
    assert(views(all@) =~= Seq::<Seq<char>>::empty());
    while k < n
        invariant
            k <= n,
            n <= listings.len(),
            n <= locators.len(),
            views(all@) == all_located(locators@, listings@, patterns@, k as int),
        decreases n - k,
    {
        let mut found = locators[k].locate(&listings[k], patterns);
        let ghost a = views(all@);
        let ghost f = views(found@);
        all.append(&mut found);
        proof {
            assert(views(all@) =~= a + f);
        }
        k = k + 1;
    }
    dedup_paths(all)
}

/// Collects name templates and locators; `build` turns them into a finder.
#[derive(Debug)]
pub struct ConfigBuilder {
    search_names: Vec<String>,
    locators: Vec<Locator>,
}

impl ConfigBuilder {
    pub closed spec fn names(&self) -> Seq<String> {
        self.search_names@
    }

    pub closed spec fn locator_list(&self) -> Seq<Locator> {
        self.locators@
    }

    /// No templates and no locators yet.
    pub fn new() -> (r: ConfigBuilder)
        ensures
            r.names().len() == 0,
            r.locator_list().len() == 0,
    {
        ConfigBuilder { search_names: Vec::new(), locators: Vec::new() }
    }

    /// Adds a name template.
    pub fn add_name_pattern(&mut self, pattern: String)
        ensures
            final(self).names() == old(self).names().push(pattern),
            final(self).locator_list() == old(self).locator_list(),
    {
        self.search_names.push(pattern);
    }

    /// Adds a name template.
    pub fn with_name_pattern(self, pattern: String) -> (r: ConfigBuilder)
        ensures
            r.names() == self.names().push(pattern),
            r.locator_list() == self.locator_list(),
    {
        let mut b = self;
        b.add_name_pattern(pattern);
        b
    }

    /// Adds a locator; locators are searched in the order added.
    pub fn add_locator(&mut self, locator: Locator)
        ensures
            final(self).locator_list() == old(self).locator_list().push(locator),
            final(self).names() == old(self).names(),
    {
        self.locators.push(locator);
    }

    /// Adds a locator; locators are searched in the order added.
    pub fn with_locator(self, locator: Locator) -> (r: ConfigBuilder)
        ensures
            r.locator_list() == self.locator_list().push(locator),
            r.names() == self.names(),
    {
        let mut b = self;
        b.add_locator(locator);
        b
    }

    /// Adds a search of the directory `path`, which must be absolute.
    pub fn add_search_path(&mut self, path: String) -> (r: Result<(), Error>)
        ensures
            r is Ok <==> is_absolute(path@),
            r is Ok ==> final(self).locator_list() == old(self).locator_list().push(Locator::Dir(DirLocator(path))),
            r is Err ==> final(self).locator_list() == old(self).locator_list()
                && r == Err::<(), Error>(Error::NotAbsolute { path }),
            final(self).names() == old(self).names(),
    {
        let cs = crate::text::chars_of(path.as_str());
        if cs.len() > 0 && cs[0] == '/' {
            self.add_locator(Locator::Dir(DirLocator(path)));
            Ok(())
        } else {
            Err(Error::NotAbsolute { path })
        }
    }

    /// Adds a search of the directory `path`, which must be absolute.
    pub fn with_search_path(self, path: String) -> (r: Result<ConfigBuilder, Error>)
        ensures
            r is Ok <==> is_absolute(path@),
            r is Ok ==> r->Ok_0.locator_list() == self.locator_list().push(Locator::Dir(DirLocator(path)))
                && r->Ok_0.names() == self.names(),
            r is Err ==> r == Err::<ConfigBuilder, Error>(Error::NotAbsolute { path }),
    {
        let mut b = self;
        match b.add_search_path(path) {
            Ok(()) => Ok(b),
            Err(e) => Err(e),
        }
    }

    /// Compiles every template once per extension in `exts`, with `ext` bound
    /// to the extension besides the bindings of `context`.
    pub fn build_with(self, exts: &Vec<String>, context: &Vec<(String, String)>) -> (r: Result<ConfigFinder, Error>)
        ensures
            r is Ok <==> templates_ok(self.names()) && all_valid(all_rendered(self.names(), context@, exts@)),
            r is Ok ==> texts_of(r->Ok_0.pattern_list()) == all_rendered(self.names(), context@, exts@).map_values(|t: Option<Seq<char>>| t->0)
                && r->Ok_0.locator_list() == self.locator_list(),
    {
        match compile_patterns(&self.search_names, context, exts) {
            Ok(patterns) => Ok(ConfigFinder { patterns, locators: self.locators }),
            Err(e) => Err(e),
        }
    }

    /// Compiles every template once per extension in `exts`, with only `ext`
    /// bound.
    pub fn build(self, exts: &Vec<String>) -> (r: Result<ConfigFinder, Error>)
        ensures
            r is Ok <==> templates_ok(self.names()) && all_valid(all_rendered(self.names(), Seq::empty(), exts@)),
            r is Ok ==> texts_of(r->Ok_0.pattern_list()) == all_rendered(self.names(), Seq::empty(), exts@).map_values(|t: Option<Seq<char>>| t->0)
                && r->Ok_0.locator_list() == self.locator_list(),
    {
        let context: Vec<(String, String)> = Vec::new();
        self.build_with(exts, &context)
    }
}

/// Compiled patterns and locators: finds the files to load and tells which
/// changes concern them.
#[derive(Debug)]
pub struct ConfigFinder {
    patterns: Vec<CompiledPattern>,
    locators: Vec<Locator>,
}

impl ConfigFinder {
    pub closed spec fn pattern_list(&self) -> Seq<CompiledPattern> {
        self.patterns@
    }

    pub closed spec fn locator_list(&self) -> Seq<Locator> {
        self.locators@
    }

    /// The compiled patterns.
    pub fn patterns(&self) -> (r: &Vec<CompiledPattern>)
        ensures
            r@ == self.pattern_list(),
    {
        &self.patterns
    }

    /// The locators, in search order.
    pub fn locators(&self) -> (r: &Vec<Locator>)
        ensures
            r@ == self.locator_list(),
    {
        &self.locators
    }

    /// The matching files: locator by locator, each searching the listing of
    /// the same index (a locator without one finds nothing), each path kept
    /// where it is first found.
    pub fn files(&self, listings: &Vec<DirListing>) -> (r: Vec<String>)
        ensures
            views(r@) == dedup(all_located(self.locator_list(), listings@, self.pattern_list(),
                if listings.len() < self.locator_list().len() { listings.len() as int } else { self.locator_list().len() as int })),
    {
        find_files(&self.locators, listings, &self.patterns)
    }

    /// Whether a pattern matches the file name of `path`.
    pub fn matches(&self, path: &str) -> (r: bool)
        ensures
            r == name_matches(self.pattern_list(), file_name_of(path@)),
    {
        any_match(&self.patterns, file_name(path))
    }

    /// Whether a pattern matches the file name of one of `paths`.
    pub fn matche_any(&self, paths: &Vec<String>) -> (r: bool)
        ensures
            r == exists|i: int| 0 <= i < paths.len() && name_matches(self.pattern_list(), file_name_of(#[trigger] paths@[i]@)),
    {
        let mut i: usize = 0;
        while i < paths.len()
            invariant
                i <= paths.len(),
                forall|j: int| 0 <= j < i ==> !name_matches(self.pattern_list(), file_name_of(#[trigger] paths@[j]@)),
            decreases paths.len() - i,
        {
            if self.matches(paths[i].as_str()) {
                return true;
            }
            i = i + 1;
        }
        false
    }

    /// The matching files, each root's listing given as read: with
    /// `strict`, the first root that could not be read fails the search;
    /// otherwise such a root contributes nothing and its error is handed
    /// back beside the files.
    pub fn locate_all(&self, outcomes: Vec<Result<DirListing, Error>>, strict: bool) -> (r: Result<(Vec<String>, Vec<Error>), Error>)
        ensures
            strict ==> (r is Ok <==> forall|k: int| 0 <= k < bound(self.locator_list().len() as int, outcomes@.len() as int) ==> #[trigger] outcomes@[k] is Ok),
            r is Err ==> strict && exists|k: int|
                0 <= k < bound(self.locator_list().len() as int, outcomes@.len() as int)
                    && outcomes@[k] == Err::<DirListing, Error>(r->Err_0)
                    && forall|j: int| 0 <= j < k ==> #[trigger] outcomes@[j] is Ok,
            r is Ok ==> views(r->Ok_0.0@) == dedup(all_found(self.locator_list(), outcomes@, self.pattern_list(),
                bound(self.locator_list().len() as int, outcomes@.len() as int))),
            r is Ok ==> r->Ok_0.1@ == errors_of(outcomes@.take(bound(self.locator_list().len() as int, outcomes@.len() as int))),
    {
        let ghost os = outcomes@;
        let n: usize = if outcomes.len() < self.locators.len() { outcomes.len() } else { self.locators.len() };
        let mut rest = outcomes;
        let mut all: Vec<String> = Vec::new();
        let mut errors: Vec<Error> = Vec::new();
        let mut k: usize = 0;
        assert(views(all@) =~= Seq::<Seq<char>>::empty());
        assert(rest@ =~= os.skip(0));
        assert(errors@ =~= errors_of(os.take(0)));
        while k < n
            invariant
                os == outcomes@,
                k <= n,
                n == bound(self.locators@.len() as int, os.len() as int),
                n <= os.len(),
                rest@ == os.skip(k as int),
                views(all@) == all_found(self.locators@, os, self.patterns@, k as int),
                errors@ == errors_of(os.take(k as int)),
                strict ==> forall|j: int| 0 <= j < k ==> #[trigger] os[j] is Ok,
            decreases n - k,
        {
            let item = rest.remove(0);
            proof {
                assert(item == os[k as int]);
                assert(rest@ =~= os.skip(k + 1));
                assert(os.take(k + 1).drop_last() =~= os.take(k as int));
            }
            match item {
                Ok(listing) => {
                    let mut found = self.locators[k].locate(&listing, &self.patterns);
                    let ghost a = views(all@);
                    let ghost f = views(found@);
                    all.append(&mut found);
                    proof {
                        assert(views(all@) =~= a + f);
                    }
                },
                Err(e) => {
                    if strict {
                        return Err(e);
                    }
                    errors.push(e);
                },
            }
            k = k + 1;
        }
        Ok((dedup_paths(all), errors))
    }

    /// Orders the decoded files by path and merges them into `seed`.
    pub fn config(&self, seed: ValueMap, files: Vec<ConfigFile>) -> (r: Config)
        ensures
            crate::config::assembled(seed, files@, r),
    {
        Config::from_files(seed, files)
    }
}

} // verus!
