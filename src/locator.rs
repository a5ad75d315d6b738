use crate::error::Error;
use crate::pattern::{glob_matches, CompiledPattern};
use crate::paths::{file_name, file_name_of};
use crate::text::chars_of;
use vstd::prelude::*;

verus! {

/// What a directory holds: the absolute paths of its regular files and its
/// subdirectories, each listed in turn. Unreadable subdirectories are left
/// out by whoever fills it.
#[derive(Debug)]
pub struct DirListing {
    pub path: String,
    pub files: Vec<String>,
    pub dirs: Vec<DirListing>,
}

/// The views of a sequence of strings.
pub open spec fn views(s: Seq<String>) -> Seq<Seq<char>> {
    s.map_values(|x: String| x@)
}

/// Whether some pattern matches the file name `name`.
pub open spec fn name_matches(pats: Seq<CompiledPattern>, name: Seq<char>) -> bool {
    exists|i: int| 0 <= i < pats.len() && glob_matches(#[trigger] pats[i].text(), name)
}

/// The paths whose file name some pattern matches, in listing order.
pub open spec fn matching(files: Seq<String>, pats: Seq<CompiledPattern>) -> Seq<Seq<char>>
    decreases files.len(),
{
    if files.len() == 0 {
        seq![]
    } else if name_matches(pats, file_name_of(files.last()@)) {
        matching(files.drop_last(), pats).push(files.last()@)
    } else {
        matching(files.drop_last(), pats)
    }
}

/// Whether a walk bounded by `depth` (0: unbounded) goes below a directory
/// `level` levels under its root.
pub open spec fn descends(level: nat, depth: nat) -> bool {
    depth == 0 || level < depth
}

/// What a walk yields from `t`, found `level` levels below the root: with
/// `own`, the matching files of `t` and then, where the walk descends, those of
/// every subdirectory; without, only those of the subdirectories from the
/// `k`-th on.
pub open spec fn collect(t: DirListing, own: bool, k: nat, level: nat, depth: nat, pats: Seq<CompiledPattern>) -> Seq<Seq<char>>
    decreases t, (if own { 1nat } else { 0nat }), t.dirs@.len() - k,
{
    if own {
        matching(t.files@, pats) + (if descends(level, depth) {
            collect(t, false, 0, level, depth, pats)
        } else {
            seq![]
        })
    } else if k >= t.dirs@.len() {
        seq![]
    } else {
        collect(t.dirs@[k as int], true, 0, level + 1, depth, pats) + collect(t, false, k + 1, level, depth, pats)
    }
}

/// The matches of a walk from the root `t` bounded by `depth` (0: unbounded).
pub open spec fn walk(t: DirListing, depth: nat, pats: Seq<CompiledPattern>) -> Seq<Seq<char>> {
    collect(t, true, 0, 0, depth, pats)
}

/// Whether `name` matches one of `pats`.
pub fn any_match(pats: &Vec<CompiledPattern>, name: &str) -> (r: bool)
    ensures
        r == name_matches(pats@, name@),
{
    let mut i: usize = 0;
    while i < pats.len()
        invariant
            i <= pats.len(),
            forall|j: int| 0 <= j < i ==> !glob_matches(#[trigger] pats@[j].text(), name@),
        decreases pats.len() - i,
    {
        if pats[i].matches(name) {
            return true;
        }
        i = i + 1;
    }
    false
}

/// Appends the paths of the files of `files` that match.
fn push_matching(files: &Vec<String>, pats: &Vec<CompiledPattern>, out: &mut Vec<String>)
    ensures
        views(final(out)@) == views(old(out)@) + matching(files@, pats@),
{
    let ghost start = views(out@);
    let mut i: usize = 0;
    while i < files.len()
        invariant
            i <= files.len(),
            views(out@) == start + matching(files@.take(i as int), pats@),
        decreases files.len() - i,
    {
        let ghost fs = files@.take(i + 1);
        proof {
            assert(fs.drop_last() =~= files@.take(i as int));
            assert(fs.last() == files@[i as int]);
        }
        if any_match(pats, file_name(files[i].as_str())) {
            let ghost o = out@;
            out.push(files[i].clone());
            proof {
                assert(views(out@) =~= views(o).push(files@[i as int]@));
                assert(start + matching(fs, pats@) =~= (start + matching(files@.take(i as int), pats@)).push(files@[i as int]@));
            }
        }
        i = i + 1;
    }
    proof {
        assert(files@.take(i as int) =~= files@);
    }
}

proof fn lemma_level_irrelevant(t: DirListing, own: bool, k: nat, l1: nat, l2: nat, pats: Seq<CompiledPattern>)
    ensures
        collect(t, own, k, l1, 0, pats) == collect(t, own, k, l2, 0, pats),
    decreases t, (if own { 1nat } else { 0nat }), t.dirs@.len() - k,
{
    if own {
        lemma_level_irrelevant(t, false, 0, l1, l2, pats);
    } else if k < t.dirs@.len() {
        assert(decreases_to!(t => t.dirs));
        assert(decreases_to!(t.dirs => t.dirs@[k as int]));
        lemma_level_irrelevant(t.dirs@[k as int], true, 0, l1 + 1, l2 + 1, pats);
        lemma_level_irrelevant(t, false, k + 1, l1, l2, pats);
    }
}

/// Appends what a walk yields from `t`, found `level` levels below the root.
fn walk_into(t: &DirListing, level: usize, depth: usize, pats: &Vec<CompiledPattern>, out: &mut Vec<String>)
    requires
        depth > 0 ==> level <= depth,
    ensures
        views(final(out)@) == views(old(out)@) + collect(*t, true, 0, level as nat, depth as nat, pats@),
    decreases *t,
{
    push_matching(&t.files, pats, out);
    if depth == 0 || level < depth {
        let next: usize = if depth == 0 { level } else { level + 1 };
        let ghost base = views(out@);
        let mut k: usize = 0;
        while k < t.dirs.len()
            invariant
                k <= t.dirs.len(),
                depth > 0 ==> level < depth,
                next == (if depth == 0 { level } else { (level + 1) as usize }),
                views(out@) + collect(*t, false, k as nat, level as nat, depth as nat, pats@)
                    == base + collect(*t, false, 0, level as nat, depth as nat, pats@),
            decreases t.dirs.len() - k,
        {
            let ghost o = views(out@);
            proof {
                assert(decreases_to!(*t => t.dirs));
                assert(decreases_to!(t.dirs => t.dirs@[k as int]));
            }
            walk_into(&t.dirs[k], next, depth, pats, out);
            proof {
                let child = t.dirs@[k as int];
                if depth == 0 {
                    lemma_level_irrelevant(child, true, 0, next as nat, (level + 1) as nat, pats@);
                }
                assert(collect(*t, false, k as nat, level as nat, depth as nat, pats@)
                    == collect(child, true, 0, (level + 1) as nat, depth as nat, pats@)
                        + collect(*t, false, (k + 1) as nat, level as nat, depth as nat, pats@));
                assert(views(out@) + collect(*t, false, (k + 1) as nat, level as nat, depth as nat, pats@)
                    =~= o + collect(*t, false, k as nat, level as nat, depth as nat, pats@));
            }
            k = k + 1;
        }
        proof {
            assert(views(out@) =~= views(out@) + collect(*t, false, k as nat, level as nat, depth as nat, pats@));
        }
    }
}

/// Whether `x` is the path of a file of `t` or, while `budget` allows, of a
/// directory at most `budget` levels below it.
pub open spec fn listed(t: DirListing, budget: nat, x: Seq<char>) -> bool
    decreases t,
{
    ||| views(t.files@).contains(x)
    ||| (budget > 0 && exists|k: int| 0 <= k < t.dirs@.len() && listed(#[trigger] t.dirs@[k], (budget - 1) as nat, x))
}

proof fn lemma_matching_sound(files: Seq<String>, pats: Seq<CompiledPattern>, x: Seq<char>)
    requires
        matching(files, pats).contains(x),
    ensures
        views(files).contains(x),
        name_matches(pats, file_name_of(x)),
    decreases files.len(),
{
    let rest = matching(files.drop_last(), pats);
    if rest.contains(x) {
        lemma_matching_sound(files.drop_last(), pats, x);
        let i = choose|i: int| 0 <= i < views(files.drop_last()).len() && views(files.drop_last())[i] == x;
        assert(views(files)[i] == x);
    } else {
        assert(views(files)[files.len() - 1] == x);
    }
}

proof fn lemma_matching_complete(files: Seq<String>, pats: Seq<CompiledPattern>, x: Seq<char>)
    requires
        views(files).contains(x),
        name_matches(pats, file_name_of(x)),
    ensures
        matching(files, pats).contains(x),
    decreases files.len(),
{
    if files.last()@ == x {
        assert(matching(files, pats).last() == x);
    } else {
        let i = choose|i: int| 0 <= i < views(files).len() && views(files)[i] == x;
        assert(views(files.drop_last())[i] == x);
        lemma_matching_complete(files.drop_last(), pats, x);
        let rest = matching(files.drop_last(), pats);
        let j = choose|j: int| 0 <= j < rest.len() && rest[j] == x;
        if name_matches(pats, file_name_of(files.last()@)) {
            assert(matching(files, pats)[j] == x);
        }
    }
}

proof fn lemma_collect_bound(t: DirListing, own: bool, k: nat, level: nat, depth: nat, pats: Seq<CompiledPattern>, x: Seq<char>)
    requires
        depth > 0,
        level <= depth,
        !own ==> level < depth,
        collect(t, own, k, level, depth, pats).contains(x),
    ensures
        name_matches(pats, file_name_of(x)),
        own ==> listed(t, (depth - level) as nat, x),
        !own ==> exists|j: int| k <= j < t.dirs@.len() && #[trigger] listed(t.dirs@[j], (depth - level - 1) as nat, x),
    decreases t, (if own { 1nat } else { 0nat }), t.dirs@.len() - k,
{
    if own {
        let m = matching(t.files@, pats);
        if m.contains(x) {
            lemma_matching_sound(t.files@, pats, x);
        } else {
            let i = choose|i: int| 0 <= i < collect(t, own, k, level, depth, pats).len() && collect(t, own, k, level, depth, pats)[i] == x;
            let rest = collect(t, false, 0, level, depth, pats);
            assert(rest[i - m.len()] == x);
            lemma_collect_bound(t, false, 0, level, depth, pats, x);
            let j = choose|j: int| 0 <= j < t.dirs@.len() && #[trigger] listed(t.dirs@[j], (depth - level - 1) as nat, x);
            assert(listed(t, (depth - level) as nat, x));
        }
    } else {
        let child = t.dirs@[k as int];
        let a = collect(child, true, 0, level + 1, depth, pats);
        let b = collect(t, false, k + 1, level, depth, pats);
        let i = choose|i: int| 0 <= i < (a + b).len() && (a + b)[i] == x;
        assert(decreases_to!(t => t.dirs));
        assert(decreases_to!(t.dirs => t.dirs@[k as int]));
        if i < a.len() {
            assert(a[i] == x);
            lemma_collect_bound(child, true, 0, level + 1, depth, pats, x);
            assert(listed(t.dirs@[k as int], (depth - level - 1) as nat, x));
        } else {
            assert(b[i - a.len()] == x);
            lemma_collect_bound(t, false, k + 1, level, depth, pats, x);
        }
    }
}

/// A walk bounded by `depth` yields only files listed at most `depth`
/// levels below its root, each with a matching name.
pub proof fn lemma_walk_depth_bound(t: DirListing, depth: nat, pats: Seq<CompiledPattern>, x: Seq<char>)
    requires
        depth > 0,
        walk(t, depth, pats).contains(x),
    ensures
        listed(t, depth, x),
        name_matches(pats, file_name_of(x)),
{
    lemma_collect_bound(t, true, 0, 0, depth, pats, x);
}

proof fn lemma_collect_complete(t: DirListing, own: bool, k: nat, level: nat, budget: nat, pats: Seq<CompiledPattern>, x: Seq<char>)
    requires
        name_matches(pats, file_name_of(x)),
        own ==> listed(t, budget, x),
        !own ==> exists|j: int| k <= j < t.dirs@.len() && #[trigger] listed(t.dirs@[j], budget, x),
    ensures
        collect(t, own, k, level, 0, pats).contains(x),
    decreases t, (if own { 1nat } else { 0nat }), t.dirs@.len() - k,
{
    if own {
        let m = matching(t.files@, pats);
        if views(t.files@).contains(x) {
            lemma_matching_complete(t.files@, pats, x);
            let j = choose|j: int| 0 <= j < m.len() && m[j] == x;
            assert(collect(t, own, k, level, 0, pats)[j] == x);
        } else {
            let j = choose|j: int| 0 <= j < t.dirs@.len() && listed(#[trigger] t.dirs@[j], (budget - 1) as nat, x);
            lemma_collect_complete(t, false, 0, level, (budget - 1) as nat, pats, x);
            let rest = collect(t, false, 0, level, 0, pats);
            let q = choose|q: int| 0 <= q < rest.len() && rest[q] == x;
            assert(collect(t, own, k, level, 0, pats)[m.len() + q] == x);
        }
    } else {
        let child = t.dirs@[k as int];
        let a = collect(child, true, 0, level + 1, 0, pats);
        let b = collect(t, false, k + 1, level, 0, pats);
        assert(decreases_to!(t => t.dirs));
        assert(decreases_to!(t.dirs => t.dirs@[k as int]));
        if listed(child, budget, x) {
            lemma_collect_complete(child, true, 0, level + 1, budget, pats, x);
            let q = choose|q: int| 0 <= q < a.len() && a[q] == x;
            assert((a + b)[q] == x);
        } else {
            let j = choose|j: int| k <= j < t.dirs@.len() && #[trigger] listed(t.dirs@[j], budget, x);
            assert(j != k);
            lemma_collect_complete(t, false, k + 1, level, budget, pats, x);
            let q = choose|q: int| 0 <= q < b.len() && b[q] == x;
            assert((a + b)[a.len() + q] == x);
        }
    }
}

/// A walk with no depth bound yields every file with a matching name,
/// however deep.
pub proof fn lemma_walk_unbounded(t: DirListing, budget: nat, pats: Seq<CompiledPattern>, x: Seq<char>)
    requires
        listed(t, budget, x),
        name_matches(pats, file_name_of(x)),
    ensures
        walk(t, 0, pats).contains(x),
{
    lemma_collect_complete(t, true, 0, 0, budget, pats, x);
}

/// Whether a path is absolute, that is starts at the file-system root `/`.
pub open spec fn is_absolute(path: Seq<char>) -> bool {
    path.len() > 0 && path[0] == '/'
}

fn check_absolute(path: &String) -> (r: bool)
    ensures
        r == is_absolute(path@),
{
    let cs = chars_of(path.as_str());
    cs.len() > 0 && cs[0] == '/'
}

/// Looks at the files of one directory only.
#[derive(Debug)]
pub struct DirLocator(pub String);

impl DirLocator {
    /// The directory searched.
    pub fn root(&self) -> (r: &String)
        ensures
            *r == self.0,
    {
        &self.0
    }

    /// The paths of the files of `listing` (the root's own listing) whose name
    /// a pattern matches, in listing order.
    pub fn locate(&self, listing: &DirListing, pats: &Vec<CompiledPattern>) -> (r: Vec<String>)
        ensures
            views(r@) == matching(listing.files@, pats@),
    {
        let mut out: Vec<String> = Vec::new();
        push_matching(&listing.files, pats, &mut out);
        proof {
            assert(views(Seq::<String>::empty()) =~= Seq::<Seq<char>>::empty());
            assert(Seq::<Seq<char>>::empty() + matching(listing.files@, pats@) =~= matching(listing.files@, pats@));
        }
        out
    }
}

/// Walks the tree below an absolute root, down to a bounded depth (0: no
/// bound). The root is level 0; a directory at level `l` is descended into
/// while `l` is below the bound.
#[derive(Debug)]
pub struct WalkDirLocator {
    root: String,
    depth: usize,
}

/// The name under which the recursive locator is also known.
pub type DirWalkLocator = WalkDirLocator;

impl WalkDirLocator {
    pub closed spec fn root_spec(&self) -> Seq<char> {
        self.root@
    }

    pub closed spec fn depth_spec(&self) -> nat {
        self.depth as nat
    }

    /// A walk from `root` with no depth bound; a relative root is refused.
    pub fn new(root: String) -> (r: Result<WalkDirLocator, Error>)
        ensures
            r is Ok <==> is_absolute(root@),
            r is Ok ==> r->Ok_0.root_spec() == root@ && r->Ok_0.depth_spec() == 0,
            r is Err ==> r == Err::<WalkDirLocator, Error>(Error::NotAbsolute { path: root }),
    {
        if check_absolute(&root) {
            Ok(WalkDirLocator { root, depth: 0 })
        } else {
            Err(Error::NotAbsolute { path: root })
        }
    }

    /// The same walk, bounded by `depth` (0: no bound).
    pub fn depth(self, depth: usize) -> (r: Self)
        ensures
            r.root_spec() == self.root_spec(),
            r.depth_spec() == depth,
    {
        WalkDirLocator { root: self.root, depth }
    }

    /// The root of the walk.
    pub fn root(&self) -> (r: &String)
        ensures
            r@ == self.root_spec(),
    {
        &self.root
    }

    /// The depth bound (0: none).
    pub fn max_depth(&self) -> (r: usize)
        ensures
            r == self.depth_spec(),
    {
        self.depth
    }

    /// The matches of the walk over `tree`, the listing of the root: each
    /// directory's own files first, then its subdirectories in turn.
    pub fn locate(&self, tree: &DirListing, pats: &Vec<CompiledPattern>) -> (r: Vec<String>)
        ensures
            views(r@) == walk(*tree, self.depth_spec(), pats@),
    {
        let mut out: Vec<String> = Vec::new();
        walk_into(tree, 0, self.depth, pats, &mut out);
        proof {
            assert(views(Seq::<String>::empty()) =~= Seq::<Seq<char>>::empty());
            assert(Seq::<Seq<char>>::empty() + walk(*tree, self.depth_spec(), pats@) =~= walk(*tree, self.depth_spec(), pats@));
        }
        out
    }
}

} // verus!
