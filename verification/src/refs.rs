//! References: the `HEAD` pointer (`"ref: <path>"`) and branch files that
//! hold a commit name on one line.

use vstd::prelude::*;
use vstd::string::*;

use crate::object::{is_lower_hex_char, is_object_name};
use crate::paths::{git_dir_path, git_path};

verus! {

/// Errors of reference handling.
#[derive(Debug)]
pub enum RefsError {
    /// Reading or writing a reference file failed.
    Io(std::io::Error),
    /// `HEAD` holds something other than `"ref: <path>"` (such as a raw hash).
    DetachedHead,
}

/// The characters with Unicode's White_Space property (what
/// `char::is_whitespace` accepts).
pub open spec fn is_white(c: char) -> bool {
    ||| ('\u{9}' <= c && c <= '\u{d}')
    ||| c == ' '
    ||| c == '\u{85}'
    ||| c == '\u{a0}'
    ||| c == '\u{1680}'
    ||| ('\u{2000}' <= c && c <= '\u{200a}')
    ||| c == '\u{2028}'
    ||| c == '\u{2029}'
    ||| c == '\u{202f}'
    ||| c == '\u{205f}'
    ||| c == '\u{3000}'
}

/// `s` without its leading whitespace.
pub open spec fn trim_start(s: Seq<char>) -> Seq<char>
    decreases s.len(),
{
    if s.len() > 0 && is_white(s[0]) {
        trim_start(s.drop_first())
    } else {
        s
    }
}

/// `s` without its trailing whitespace.
pub open spec fn trim_end(s: Seq<char>) -> Seq<char>
    decreases s.len(),
{
    if s.len() > 0 && is_white(s.last()) {
        trim_end(s.drop_last())
    } else {
        s
    }
}

/// `s` without leading and trailing whitespace (`str::trim`).
pub open spec fn trim(s: Seq<char>) -> Seq<char> {
    trim_end(trim_start(s))
}

/// The prefix of a symbolic `HEAD`.
pub open spec fn ref_prefix() -> Seq<char> {
    seq!['r', 'e', 'f', ':', ' ']
}

/// The reference path that `HEAD` contents name: the trimmed contents
/// without their `"ref: "` prefix; `None` where there is no such prefix.
pub open spec fn head_target(contents: Seq<char>) -> Option<Seq<char>> {
    let t = trim(contents);
    if t.len() >= 5 && t.take(5) == ref_prefix() {
        Some(t.skip(5))
    } else {
        None
    }
}

/// The line written to a branch file: the commit name and a newline.
pub open spec fn ref_line(hash: Seq<char>) -> Seq<char> {
    hash.push('\n')
}

/// What to write to move the current branch: the file and its contents.
#[derive(Debug)]
pub struct RefUpdate {
    pub path: String,
    pub contents: String,
}

/// Whether `c` is whitespace (`char::is_whitespace`).
pub fn is_whitespace(c: char) -> (res: bool)
    ensures
        res == is_white(c),
{
    ('\u{9}' <= c && c <= '\u{d}') || c == ' ' || c == '\u{85}' || c == '\u{a0}' || c
        == '\u{1680}' || ('\u{2000}' <= c && c <= '\u{200a}') || c == '\u{2028}' || c
        == '\u{2029}' || c == '\u{202f}' || c == '\u{205f}' || c == '\u{3000}'
}

/// Removing leading whitespace from a suffix of `s` whose prefix is all
/// whitespace.
proof fn lemma_trim_start_skip(s: Seq<char>, i: int)
    requires
        0 <= i < s.len(),
        is_white(s[i]),
    ensures
        trim_start(s.skip(i)) == trim_start(s.skip(i + 1)),
{
    let t = s.skip(i);
    assert(t[0] == s[i]);
    assert(t.drop_first() =~= s.skip(i + 1));
}

/// Removing trailing whitespace from a prefix of `s` ending in whitespace.
proof fn lemma_trim_end_take(s: Seq<char>, j: int)
    requires
        0 < j <= s.len(),
        is_white(s[j - 1]),
    ensures
        trim_end(s.take(j)) == trim_end(s.take(j - 1)),
{
    let t = s.take(j);
    assert(t.last() == s[j - 1]);
    assert(t.drop_last() =~= s.take(j - 1));
}

/// `s` without leading and trailing whitespace (`str::trim`).
pub fn trim_str(s: &str) -> (res: String)
    ensures
        res@ == trim(s@),
{
    let n = s.unicode_len();
    let mut i: usize = 0;
    assert(s@.skip(0) =~= s@);
    while i < n && is_whitespace(s.get_char(i))
        invariant
            n == s@.len(),
            i <= n,
            trim_start(s@.skip(i as int)) == trim_start(s@),
        decreases n - i,
    {
        proof {
            lemma_trim_start_skip(s@, i as int);
        }
        i = i + 1;
    }
    let ghost rest = s@.skip(i as int);
    proof {
        if i < n {
            assert(rest[0] == s@[i as int]);
        }
        assert(trim_start(s@) == rest);
    }
    let mut j: usize = n;
    assert(rest.take((n - i) as int) =~= rest);
    while j > i && is_whitespace(s.get_char(j - 1))
        invariant
            n == s@.len(),
            i <= j <= n,
            rest == s@.skip(i as int),
            trim_end(rest.take(j - i)) == trim_end(rest),
        decreases j,
    {
        proof {
            assert(rest[j - 1 - i] == s@[j - 1]);
            lemma_trim_end_take(rest, j - i);
        }
        j = j - 1;
    }
    proof {
        let kept = rest.take(j - i);
        if j > i {
            assert(kept.last() == s@[j - 1]);
        }
        assert(trim_end(rest) == kept);
        assert(kept =~= s@.subrange(i as int, j as int));
    }
    s.substring_char(i, j).to_owned()
}

/// The reference path named by the contents of `HEAD`
/// (`"ref: refs/heads/main"` names `refs/heads/main`). Anything else, such as
/// a raw commit name, is a detached `HEAD`.
pub fn read_head(contents: &str) -> (res: Result<String, RefsError>)
    ensures
        match head_target(contents@) {
            Some(target) => res matches Ok(p) && p@ == target,
            None => res matches Err(RefsError::DetachedHead),
        },
{
    let trimmed = trim_str(contents);
    let t = trimmed.as_str();
    let n = t.unicode_len();
    if n < 5 {
        return Err(RefsError::DetachedHead);
    }
    if t.get_char(0) == 'r' && t.get_char(1) == 'e' && t.get_char(2) == 'f' && t.get_char(3) == ':'
        && t.get_char(4) == ' ' {
        proof {
            assert(t@.take(5) =~= ref_prefix());
        }
        Ok(t.substring_char(5, n).to_owned())
    } else {
        proof {
            if t@.take(5) == ref_prefix() {
                assert(t@.take(5)[0] == 'r');
                assert(t@.take(5)[1] == 'e');
                assert(t@.take(5)[2] == 'f');
                assert(t@.take(5)[3] == ':');
                assert(t@.take(5)[4] == ' ');
            }
        }
        Err(RefsError::DetachedHead)
    }
}

/// The commit name held by a branch file with the given contents: the
/// trimmed contents; `None` where the file does not exist.
pub fn read_ref(contents: Option<&str>) -> (res: Option<String>)
    ensures
        match contents {
            Some(c) => res matches Some(r) && r@ == trim(c@),
            None => res is None,
        },
{
    match contents {
        Some(c) => Some(trim_str(c)),
        None => None,
    }
}

/// What moving the current branch to `new_head_commit_hash` writes: the file
/// `<repo_dir>/.git/<path named by HEAD>` and the line `"<hash>\n"`.
pub fn update_current_ref(head_contents: &str, new_head_commit_hash: &str, repo_dir: &str) -> (res:
    Result<RefUpdate, RefsError>)
    ensures
        match head_target(head_contents@) {
            Some(target) => res matches Ok(u) && u.path@ == git_path(repo_dir@, target)
                && u.contents@ == ref_line(new_head_commit_hash@),
            None => res matches Err(RefsError::DetachedHead),
        },
{
    let ref_path = read_head(head_contents)?;
    let path = git_dir_path(repo_dir, ref_path.as_str());
    let mut contents = new_head_commit_hash.to_owned();
    let newline = "\n";
    proof {
        reveal_strlit("\n");
    }
    contents.append(newline);
    proof {
        assert(contents@ =~= ref_line(new_head_commit_hash@));
    }
    Ok(RefUpdate { path, contents })
}

/// A commit name that neither starts nor ends with whitespace reads back from
/// the line that `update_current_ref` writes for it.
pub proof fn lemma_ref_roundtrip(hash: Seq<char>)
    requires
        hash.len() > 0 ==> !is_white(hash[0]) && !is_white(hash.last()),
    ensures
        trim(ref_line(hash)) == hash,
{
    let line = ref_line(hash);
    if hash.len() > 0 {
        assert(line[0] == hash[0]);
        assert(trim_start(line) == line);
    } else {
        assert(line =~= seq!['\n']);
        assert(line.drop_first() =~= Seq::<char>::empty());
        assert(trim_start(line.drop_first()) =~= Seq::<char>::empty());
        assert(trim_start(line) =~= Seq::<char>::empty());
        assert(trim_end(Seq::<char>::empty()) =~= Seq::<char>::empty());
        return;
    }
    assert(is_white(line.last()));
    assert(line.drop_last() =~= hash);
    assert(trim_end(hash) == hash);
}


/// After a commit, the branch file that `update_current_ref` writes for the
/// commit's object name reads back (trimmed, as `read_ref` reads it) as that
/// same 40-character name.
pub proof fn lemma_commit_ref_roundtrip(hash: Seq<char>)
    requires
        is_object_name(hash),
    ensures
        trim(ref_line(hash)) == hash,
        hash.len() == 40,
{
    assert(is_lower_hex_char(hash[0]));
    assert(is_lower_hex_char(hash[39]));
    assert(hash.last() == hash[39]);
    lemma_ref_roundtrip(hash);
}

} // verus!
