//! Commit objects: a tree linked with author and committer signatures, a
//! message and an optional parent commit, in Git's plain-text format.

use vstd::prelude::*;
use vstd::string::*;
use vstd::utf8::*;

use crate::encoding::{
    all_digits, ascii_chars, decimal, decimal_string, digits_value, lemma_ascii_utf8,
    lemma_decimal_shape, push_slice,
};
use crate::object::{is_stored_object, object_bytes, write_object, ObjectError, ObjectFile};
use crate::outside::{seconds_since_epoch, system_now};

verus! {

/// Errors that can occur during commit creation and serialization.
#[derive(Debug)]
pub enum CommitError {
    /// Reading the configuration or writing the object failed.
    Io(std::io::Error),
    /// The system clock is before the UNIX epoch.
    SystemTime(std::time::SystemTimeError),
    /// Preparing the commit object failed.
    Object(ObjectError),
}

/// An author or committer signature.
#[derive(Debug)]
pub struct Signature {
    pub name: String,
    pub email: String,
    pub timestamp: u64,
    pub timezone: String,
}

/// A commit object and its metadata.
#[derive(Debug)]
pub struct Commit {
    pub tree: String,
    pub author: Signature,
    pub committer: Signature,
    pub message: String,
    pub parent: Option<String>,
}

/// The text of a signature.
pub struct SignatureView {
    pub name: Seq<char>,
    pub email: Seq<char>,
    pub timestamp: u64,
    pub timezone: Seq<char>,
}

/// The text of a commit.
pub struct CommitView {
    pub tree: Seq<char>,
    pub author: SignatureView,
    pub committer: SignatureView,
    pub message: Seq<char>,
    pub parent: Option<Seq<char>>,
}

impl View for Signature {
    type V = SignatureView;

    open spec fn view(&self) -> SignatureView {
        SignatureView {
            name: self.name@,
            email: self.email@,
            timestamp: self.timestamp,
            timezone: self.timezone@,
        }
    }
}

impl View for Commit {
    type V = CommitView;

    open spec fn view(&self) -> CommitView {
        CommitView {
            tree: self.tree@,
            author: self.author@,
            committer: self.committer@,
            message: self.message@,
            parent: match self.parent {
                Some(p) => Some(p@),
                None => None,
            },
        }
    }
}

/// The text of an optional parent commit name.
pub open spec fn parent_view(parent: Option<&str>) -> Option<Seq<char>> {
    match parent {
        Some(p) => Some(p@),
        None => None,
    }
}

/// The time zone written in signatures.
pub open spec fn utc_zone() -> Seq<char> {
    seq!['+', '0', '0', '0', '0']
}

/// The commit made from a tree, message, optional parent and author at a
/// given time: author and committer are the same person at the same time,
/// in zone `+0000`.
pub open spec fn commit_at(
    tree: Seq<char>,
    message: Seq<char>,
    parent: Option<Seq<char>>,
    name: Seq<char>,
    email: Seq<char>,
    timestamp: u64,
) -> CommitView {
    let sig = SignatureView { name, email, timestamp, timezone: utc_zone() };
    CommitView { tree, author: sig, committer: sig, message, parent }
}

/// `"<label> <name> <<email>> <timestamp> <zone>\n"`.
pub open spec fn signature_line(label: Seq<char>, s: SignatureView) -> Seq<char> {
    label + seq![' '] + s.name + seq![' ', '<'] + s.email + seq!['>', ' '] + ascii_chars(
        decimal(s.timestamp as nat),
    ) + seq![' '] + s.timezone + seq!['\n']
}

/// The commit's text: its tree line, a parent line when it has a parent,
/// author and committer lines, a blank line, and the message ending in a
/// newline.
pub open spec fn commit_text(c: CommitView) -> Seq<char> {
    seq!['t', 'r', 'e', 'e', ' '] + c.tree + seq!['\n'] + match c.parent {
        Some(p) => seq!['p', 'a', 'r', 'e', 'n', 't', ' '] + p + seq!['\n'],
        None => Seq::<char>::empty(),
    } + signature_line(seq!['a', 'u', 't', 'h', 'o', 'r'], c.author) + signature_line(
        seq!['c', 'o', 'm', 'm', 'i', 't', 't', 'e', 'r'],
        c.committer,
    ) + seq!['\n'] + c.message + seq!['\n']
}

/// The bytes of the kind `commit`.
pub open spec fn commit_kind() -> Seq<u8> {
    seq![99u8, 111u8, 109u8, 109u8, 105u8, 116u8]
}

/// `file` is the stored commit object for `c`.
pub open spec fn is_commit_file(c: CommitView, repo_dir: Seq<char>, file: ObjectFile) -> bool {
    is_stored_object(object_bytes(commit_kind(), encode_utf8(commit_text(c))), repo_dir, file)
}

/// A commit made at time `t` is stamped with `t` itself, as whole seconds in
/// decimal digits, in both its author and its committer line, each followed
/// by the zone `+0000`.
pub proof fn lemma_commit_stamp(
    tree: Seq<char>,
    message: Seq<char>,
    parent: Option<Seq<char>>,
    name: Seq<char>,
    email: Seq<char>,
    t: u64,
)
    ensures
        ({
            let stamp = name + seq![' ', '<'] + email + seq!['>', ' '] + ascii_chars(decimal(t as nat))
                + seq![' ', '+', '0', '0', '0', '0', '\n'];
            let parent_line = match parent {
                Some(p) => seq!['p', 'a', 'r', 'e', 'n', 't', ' '] + p + seq!['\n'],
                None => Seq::<char>::empty(),
            };
            commit_text(commit_at(tree, message, parent, name, email, t)) == seq![
                't',
                'r',
                'e',
                'e',
                ' ',
            ] + tree + seq!['\n'] + parent_line + seq!['a', 'u', 't', 'h', 'o', 'r', ' '] + stamp
                + seq!['c', 'o', 'm', 'm', 'i', 't', 't', 'e', 'r', ' '] + stamp + seq!['\n'] + message
                + seq!['\n']
        }),
        all_digits(decimal(t as nat)),
        digits_value(decimal(t as nat)) == t,
{
    lemma_decimal_shape(t as nat);
    let c = commit_at(tree, message, parent, name, email, t);
    let stamp = name + seq![' ', '<'] + email + seq!['>', ' '] + ascii_chars(decimal(t as nat))
        + seq![' ', '+', '0', '0', '0', '0', '\n'];
    assert(signature_line(seq!['a', 'u', 't', 'h', 'o', 'r'], c.author) =~= seq![
        'a',
        'u',
        't',
        'h',
        'o',
        'r',
        ' ',
    ] + stamp);
    assert(signature_line(seq!['c', 'o', 'm', 'm', 'i', 't', 't', 'e', 'r'], c.committer) =~= seq![
        'c',
        'o',
        'm',
        'm',
        'i',
        't',
        't',
        'e',
        'r',
        ' ',
    ] + stamp);
}

/// The timestamp of a clock reading: the whole seconds since the epoch, as
/// they are, or the clock's error where it is set before the epoch.
pub fn timestamp_from_clock(reading: Result<u64, std::time::SystemTimeError>) -> (res: Result<
    u64,
    CommitError,
>)
    ensures
        reading matches Ok(t) ==> res == Ok::<u64, CommitError>(t),
        reading matches Err(e) ==> res matches Err(CommitError::SystemTime(f)) && f == e,
{
    match reading {
        Ok(t) => Ok(t),
        Err(e) => Err(CommitError::SystemTime(e)),
    }
}

/// The current UNIX time in seconds (`timestamp_from_clock` of the clock's
/// reading). Fails where the clock is set before the epoch.
pub fn get_timestamp() -> (res: Result<u64, CommitError>)
    ensures
        res matches Err(e) ==> e is SystemTime,
{
    let now = system_now();
    timestamp_from_clock(seconds_since_epoch(&now))
}

/// The commit made at the given time (see `commit_at`).
pub fn commit_with_timestamp(
    tree_hash: &str,
    commit_message: &str,
    parent_hash: Option<&str>,
    author: (String, String),
    timestamp: u64,
) -> (res: Commit)
    ensures
        res@ == commit_at(
            tree_hash@,
            commit_message@,
            parent_view(parent_hash),
            author.0@,
            author.1@,
            timestamp,
        ),
{
    let (name, email) = author;
    let zone = "+0000";
    proof {
        reveal_strlit("+0000");
        assert(zone@ =~= utc_zone());
    }
    let author_sig = Signature {
        name: name.clone(),
        email: email.clone(),
        timestamp,
        timezone: zone.to_owned(),
    };
    let committer = Signature {
        name,
        email,
        timestamp: author_sig.timestamp,
        timezone: author_sig.timezone.clone(),
    };
    let parent = match parent_hash {
        Some(p) => Some(p.to_owned()),
        None => None,
    };
    Commit {
        tree: tree_hash.to_owned(),
        author: author_sig,
        committer,
        message: commit_message.to_owned(),
        parent,
    }
}

/// A commit of the given tree, message, optional parent and author
/// `(name, email)`, stamped with the current time.
pub fn create_commit(
    tree_hash: &str,
    commit_message: &str,
    parent_hash: Option<&str>,
    author: (String, String),
) -> (res: Result<Commit, CommitError>)
    ensures
        res matches Ok(c) ==> c@ == commit_at(
            tree_hash@,
            commit_message@,
            parent_view(parent_hash),
            author.0@,
            author.1@,
            c.author.timestamp,
        ),
        res matches Err(e) ==> e is SystemTime,
{
    let time_stamp = get_timestamp()?;
    Ok(commit_with_timestamp(tree_hash, commit_message, parent_hash, author, time_stamp))
}

/// Appends the line `"<label> <name> <<email>> <timestamp> <zone>\n"`.
fn push_signature(text: &mut String, label: &str, sig: &Signature)
    ensures
        final(text)@ == old(text)@ + signature_line(label@, sig@),
{
    let space = " ";
    let open = " <";
    let close = "> ";
    let newline = "\n";
    proof {
        reveal_strlit(" ");
        reveal_strlit(" <");
        reveal_strlit("> ");
        reveal_strlit("\n");
    }
    let stamp = decimal_string(sig.timestamp);
    text.append(label);
    text.append(space);
    text.append(sig.name.as_str());
    text.append(open);
    text.append(sig.email.as_str());
    text.append(close);
    text.append(stamp.as_str());
    text.append(space);
    text.append(sig.timezone.as_str());
    text.append(newline);
    proof {
        assert(text@ =~= old(text)@ + signature_line(label@, sig@));
    }
}

/// The commit's text (see `commit_text`).
pub fn commit_string(commit: &Commit) -> (res: String)
    ensures
        res@ == commit_text(commit@),
{
    let tree_label = "tree ";
    let parent_label = "parent ";
    let author_label = "author";
    let committer_label = "committer";
    let newline = "\n";
    proof {
        reveal_strlit("tree ");
        reveal_strlit("parent ");
        reveal_strlit("author");
        reveal_strlit("committer");
        reveal_strlit("\n");
    }
    let mut text = String::new();
    text.append(tree_label);
    text.append(commit.tree.as_str());
    text.append(newline);
    let ghost after_tree = text@;
    match &commit.parent {
        Some(p) => {
            text.append(parent_label);
            text.append(p.as_str());
            text.append(newline);
        },
        None => {},
    }
    let ghost after_parent = text@;
    push_signature(&mut text, author_label, &commit.author);
    push_signature(&mut text, committer_label, &commit.committer);
    text.append(newline);
    text.append(commit.message.as_str());
    text.append(newline);
    proof {
        assert(tree_label@ =~= seq!['t', 'r', 'e', 'e', ' ']);
        assert(author_label@ =~= seq!['a', 'u', 't', 'h', 'o', 'r']);
        assert(committer_label@ =~= seq!['c', 'o', 'm', 'm', 'i', 't', 't', 'e', 'r']);
        assert(parent_label@ =~= seq!['p', 'a', 'r', 'e', 'n', 't', ' ']);
        let pv: Seq<char> = match commit@.parent {
            Some(p) => seq!['p', 'a', 'r', 'e', 'n', 't', ' '] + p + seq!['\n'],
            None => Seq::<char>::empty(),
        };
        assert(after_parent =~= after_tree + pv);
        assert(text@ =~= commit_text(commit@));
    }
    text
}

/// Serializes the commit in Git's text format.
pub fn serialize_commit(commit: &Commit) -> (res: Vec<u8>)
    ensures
        res@ == encode_utf8(commit_text(commit@)),
{
    let text = commit_string(commit);
    let mut out: Vec<u8> = Vec::new();
    push_slice(&mut out, text.as_str().as_bytes());
    out
}

/// The stored commit object for `commit`, ready to write.
pub fn write_commit(commit: &Commit, repo_dir: &str) -> (res: Result<ObjectFile, CommitError>)
    ensures
        res matches Ok(file) && is_commit_file(commit@, repo_dir@, file),
{
    let serialized = serialize_commit(commit);
    let kind = "commit";
    proof {
        reveal_strlit("commit");
        assert(kind@ =~= ascii_chars(commit_kind()));
        lemma_ascii_utf8(commit_kind());
    }
    match write_object(kind, serialized.as_slice(), repo_dir) {
        Ok(file) => Ok(file),
        Err(e) => Err(CommitError::Object(e)),
    }
}

/// Creates the commit of a tree with a message, an optional parent and an
/// author `(name, email)`, stamped with the current time, and prepares its
/// object for storage under `repo_dir`.
pub fn write_commit_object(
    tree_hash: &str,
    commit_message: &str,
    parent_hash: Option<&str>,
    author: (String, String),
    repo_dir: &str,
) -> (res: Result<ObjectFile, CommitError>)
    ensures
        res matches Ok(file) ==> exists|timestamp: u64|
            is_commit_file(
                #[trigger] commit_at(
                    tree_hash@,
                    commit_message@,
                    parent_view(parent_hash),
                    author.0@,
                    author.1@,
                    timestamp,
                ),
                repo_dir@,
                file,
            ),
        res matches Err(e) ==> e is SystemTime,
{
    let commit = create_commit(tree_hash, commit_message, parent_hash, author)?;
    let commit_hash = write_commit(&commit, repo_dir)?;
    Ok(commit_hash)
}

} // verus!
