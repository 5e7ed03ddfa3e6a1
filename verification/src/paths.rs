//! Where the bookmarks are kept: beside the program, or in the home directory where the
//! program is installed under `/usr/bin`.
use vstd::prelude::*;
use crate::domain::opt_str_view;
use crate::text::{char_is, chars_of, concat_str, find_from, lemma_find_from};

verus! {

/// The components of the path `s` from position `i` on: the pieces between slashes,
/// leaving out empty pieces and `.`.
pub open spec fn path_parts_from(s: Seq<char>, i: int) -> Seq<Seq<char>>
    decreases s.len() - i,
    via path_parts_from_decreases
{
    if i < 0 || i >= s.len() {
        seq![]
    } else if s[i] == '/' {
        path_parts_from(s, i + 1)
    } else {
        let e = find_from(s, i, char_is('/'));
        let part = s.subrange(i, e);
        if part == seq!['.'] {
            path_parts_from(s, e)
        } else {
            seq![part] + path_parts_from(s, e)
        }
    }
}

#[via_fn]
proof fn path_parts_from_decreases(s: Seq<char>, i: int) {
    if !(i < 0 || i >= s.len()) && s[i] != '/' {
        lemma_find_from(s, i + 1, char_is('/'));
    }
}

/// Whether the directory `dir` lies under `/usr/bin`: it is absolute and its first two
/// components are `usr` and `bin`.
pub open spec fn under_usr_bin(dir: Seq<char>) -> bool {
    let parts = path_parts_from(dir, 0);
    &&& dir.len() > 0
    &&& dir[0] == '/'
    &&& parts.len() >= 2
    &&& parts[0] == seq!['u', 's', 'r']
    &&& parts[1] == seq!['b', 'i', 'n']
}

/// The path of the file `name` in the directory `dir`: a slash goes between them unless
/// `dir` is empty or already ends with one.
pub open spec fn path_join(dir: Seq<char>, name: Seq<char>) -> Seq<char> {
    if dir.len() == 0 {
        name
    } else if dir.last() == '/' {
        dir + name
    } else {
        dir + seq!['/'] + name
    }
}

/// Where the bookmarks file lives, given the directory of the program (`.` where it is
/// not known) and the home directory, where one is set.
pub open spec fn bookmarks_location(exe_dir: Option<Seq<char>>, home: Option<Seq<char>>) -> Seq<
    char,
> {
    let dir = match exe_dir {
        Some(d) => d,
        None => seq!['.'],
    };
    match home {
        Some(h) => if under_usr_bin(dir) {
            path_join(h, ".gemini_bookmarks.bin"@)
        } else {
            path_join(dir, "bookmarks.bin"@)
        },
        None => path_join(dir, "bookmarks.bin"@),
    }
}

/// The first path component of `v` from `i` on, as its start and end, with the
/// components after it.
fn next_part(v: &Vec<char>, i: usize) -> (r: Option<(usize, usize)>)
    requires
        i <= v.len(),
    ensures
        match r {
            None => path_parts_from(v@, i as int) == Seq::<Seq<char>>::empty(),
            Some((a, e)) => {
                &&& i <= a < e <= v.len()
                &&& path_parts_from(v@, i as int) == seq![v@.subrange(a as int, e as int)]
                    + path_parts_from(v@, e as int)
            },
        },
{
    let mut k = i;
    while k < v.len()
        invariant
            i <= k <= v.len(),
            path_parts_from(v@, i as int) == path_parts_from(v@, k as int),
        decreases v.len() - k,
    {
        if v[k] == '/' {
            k = k + 1;
        } else {
            let mut e = k + 1;
            while e < v.len() && v[e] != '/'
                invariant
                    k < e <= v.len(),
                    find_from(v@, k as int, char_is('/')) == find_from(v@, e as int, char_is('/')),
                decreases v.len() - e,
            {
                assert(!char_is('/')(v@[e as int]));
                e = e + 1;
            }
            proof {
                assert(!char_is('/')(v@[k as int]));
                lemma_find_from(v@, k as int, char_is('/'));
            }
            if e == k + 1 && v[k] == '.' {
                assert(v@.subrange(k as int, e as int) =~= seq!['.']);
                k = e;
            } else {
                proof {
                    if v@.subrange(k as int, e as int) == seq!['.'] {
                        assert(v@.subrange(k as int, e as int).len() == 1);
                        assert(v@.subrange(k as int, e as int)[0] == v@[k as int]);
                    }
                }
                return Some((k, e));
            }
        }
    }
    None
}

/// Whether `v[a..e]` spells `word`.
fn part_is(v: &Vec<char>, a: usize, e: usize, word: &Vec<char>) -> (res: bool)
    requires
        a <= e <= v.len(),
    ensures
        res == (v@.subrange(a as int, e as int) == word@),
{
    if e - a != word.len() {
        return false;
    }
    let mut k: usize = 0;
    while k < word.len()
        invariant
            a <= e <= v.len(),
            e - a == word.len(),
            k <= word.len(),
            forall|j: int| 0 <= j < k ==> v@[a + j] == word@[j],
        decreases word.len() - k,
    {
        if v[a + k] != word[k] {
            assert(v@.subrange(a as int, e as int)[k as int] != word@[k as int]);
            return false;
        }
        k = k + 1;
    }
    assert(v@.subrange(a as int, e as int) =~= word@);
    true
}

/// Whether the directory `dir` lies under `/usr/bin`.
fn is_under_usr_bin(dir: &str) -> (res: bool)
    ensures
        res == under_usr_bin(dir@),
{
    let v = chars_of(dir);
    if v.len() == 0 || v[0] != '/' {
        return false;
    }
    let usr = chars_of("usr");
    let bin = chars_of("bin");
    proof {
        reveal_strlit("usr");
        reveal_strlit("bin");
        assert(usr@ =~= seq!['u', 's', 'r']);
        assert(bin@ =~= seq!['b', 'i', 'n']);
    }
    match next_part(&v, 0) {
        None => false,
        Some((a, e)) => {
            if !part_is(&v, a, e, &usr) {
                return false;
            }
            match next_part(&v, e) {
                None => {
                    assert(path_parts_from(v@, 0).len() == 1);
                    false
                },
                Some((a2, e2)) => {
                    let ghost parts = path_parts_from(v@, 0);
                    assert(parts[1] == v@.subrange(a2 as int, e2 as int));
                    part_is(&v, a2, e2, &bin)
                },
            }
        },
    }
}

/// The path of the file `name` in the directory `dir`.
fn join_path(dir: &str, name: &str) -> (res: String)
    ensures
        res@ == path_join(dir@, name@),
{
    let v = chars_of(dir);
    if v.len() == 0 {
        String::from_str(name)
    } else if v[v.len() - 1] == '/' {
        concat_str(dir, name)
    } else {
        let with_slash = concat_str(dir, "/");
        proof {
            reveal_strlit("/");
        }
        concat_str(with_slash.as_str(), name)
    }
}

/// Where the bookmarks file lives, given the directory of the program, where it is known,
/// and the home directory, where one is set.
pub fn bookmarks_path(exe_dir: Option<String>, home: Option<String>) -> (res: String)
    ensures
        res@ == bookmarks_location(opt_str_view(exe_dir), opt_str_view(home)),
{
    let dir = match exe_dir {
        Some(d) => d,
        None => {
            let d = String::from_str(".");
            proof {
                reveal_strlit(".");
            }
            assert(d@ =~= seq!['.']);
            d
        },
    };
    match home {
        Some(h) => if is_under_usr_bin(dir.as_str()) {
            join_path(h.as_str(), ".gemini_bookmarks.bin")
        } else {
            join_path(dir.as_str(), "bookmarks.bin")
        },
        None => join_path(dir.as_str(), "bookmarks.bin"),
    }
}

} // verus!
