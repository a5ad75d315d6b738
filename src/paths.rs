use crate::text::chars_of;
use vstd::prelude::*;
use vstd::string::StrSliceExecFns;

verus! {

/// The position of the last `c` in `s`, or -1.
pub open spec fn last_index_of(s: Seq<char>, c: char) -> int
    decreases s.len(),
{
    if s.len() == 0 {
        -1
    } else if s.last() == c {
        s.len() - 1
    } else {
        last_index_of(s.drop_last(), c)
    }
}

pub proof fn lemma_last_index_bounds(s: Seq<char>, c: char)
    ensures
        -1 <= last_index_of(s, c) < s.len(),
    decreases s.len(),
{
    if s.len() > 0 {
        lemma_last_index_bounds(s.drop_last(), c);
    }
}

/// The file name of a path: what follows its last `/`.
pub open spec fn file_name_of(p: Seq<char>) -> Seq<char> {
    p.subrange(last_index_of(p, '/') + 1, p.len() as int)
}

/// The extension of a file name: what follows its last `.`, where that dot
/// is not the name's first character.
pub open spec fn extension_of(name: Seq<char>) -> Option<Seq<char>> {
    if last_index_of(name, '.') > 0 {
        Some(name.subrange(last_index_of(name, '.') + 1, name.len() as int))
    } else {
        None
    }
}

/// The key that selects the format of the file at `p`: its extension, or
/// `fallback` where it has none.
pub open spec fn format_key_of(p: Seq<char>, fallback: Seq<char>) -> Seq<char> {
    match extension_of(file_name_of(p)) {
        Some(e) => e,
        None => fallback,
    }
}

fn last_index(cs: &Vec<char>, c: char) -> (r: Option<usize>)
    ensures
        match r {
            Some(i) => i == last_index_of(cs@, c),
            None => last_index_of(cs@, c) == -1,
        },
{
    let mut i: usize = cs.len();
    assert(cs@.take(i as int) =~= cs@);
    while i > 0
        invariant
            i <= cs.len(),
            last_index_of(cs@, c) == last_index_of(cs@.take(i as int), c),
        decreases i,
    {
        assert(cs@.take(i as int).drop_last() =~= cs@.take(i - 1));
        if cs[i - 1] == c {
            return Some(i - 1);
        }
        i = i - 1;
    }
    None
}

/// The file name of `path`: what follows its last `/`.
pub fn file_name(path: &str) -> (r: &str)
    ensures
        r@ == file_name_of(path@),
{
    let cs = chars_of(path);
    proof {
        lemma_last_index_bounds(path@, '/');
    }
    let start: usize = match last_index(&cs, '/') {
        Some(i) => {
            assert(i < cs.len());
            i + 1
        },
        None => 0,
    };
    path.substring_char(start, cs.len())
}

/// The key that selects the format of the file at `path`: the extension of
/// its file name, or `fallback` where it has none.
pub fn format_key<'a>(path: &'a str, fallback: &'a str) -> (r: &'a str)
    ensures
        r@ == format_key_of(path@, fallback@),
{
    let name = file_name(path);
    let cs = chars_of(name);
    proof {
        lemma_last_index_bounds(name@, '.');
    }
    match last_index(&cs, '.') {
        Some(d) => {
            assert(d < cs.len());
            if d > 0 {
                name.substring_char(d + 1, cs.len())
            } else {
                fallback
            }
        },
        None => fallback,
    }
}

} // verus!
