//! Filesystem paths as text: how `Path::join` composes a base with a
//! relative or absolute component.
//!
//! The library targets Unix: paths are `/`-separated text, and `join` is
//! `Path::join` as it behaves there. Windows separators (`\`) and prefixes
//! (`C:`, `\\server\share`) are not recognised.

use vstd::prelude::*;
use vstd::string::*;

verus! {

/// `Path::join(base, part)` on Unix: an absolute `part` replaces the base;
/// otherwise a `/` separator is put between them unless the base is empty or
/// already ends with one.
pub open spec fn join_path(base: Seq<char>, part: Seq<char>) -> Seq<char> {
    if part.len() > 0 && part[0] == '/' {
        part
    } else if base.len() == 0 || base.last() == '/' {
        base + part
    } else {
        base + seq!['/'] + part
    }
}

/// The path of `rel` inside the repository's `.git` directory.
pub open spec fn git_path(repo_dir: Seq<char>, rel: Seq<char>) -> Seq<char> {
    join_path(join_path(repo_dir, seq!['.', 'g', 'i', 't']), rel)
}

/// Joins `part` onto `base` as `Path::join` does.
pub fn join(base: &str, part: &str) -> (res: String)
    ensures
        res@ == join_path(base@, part@),
{
    let part_len = part.unicode_len();
    if part_len > 0 && part.get_char(0) == '/' {
        return part.to_owned();
    }
    let base_len = base.unicode_len();
    let mut res = base.to_owned();
    if base_len == 0 || base.get_char(base_len - 1) == '/' {
        res.append(part);
    } else {
        let sep = "/";
        proof {
            reveal_strlit("/");
        }
        res.append(sep);
        res.append(part);
    }
    res
}

/// The path of `rel` inside `<repo_dir>/.git`.
pub fn git_dir_path(repo_dir: &str, rel: &str) -> (res: String)
    ensures
        res@ == git_path(repo_dir@, rel@),
{
    let dot_git = ".git";
    proof {
        reveal_strlit(".git");
        assert(dot_git@ =~= seq!['.', 'g', 'i', 't']);
    }
    let git_dir = join(repo_dir, dot_git);
    join(git_dir.as_str(), rel)
}

} // verus!
