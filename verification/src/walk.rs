//! The snapshot of a directory as a walk: the caller lists directories and
//! reads files, and reports each step as an event; the walk decides what to
//! do with each listed entry, builds the entries of every open directory, and
//! closes a directory into its tree object only once its listing is used up
//! (post-order: children before parents).

use vstd::prelude::*;
use vstd::string::*;
use vstd::utf8::*;

use crate::encoding::{ascii_chars, is_hex_byte, is_hex_text, lemma_ascii_utf8};
use crate::object::{
    is_lower_hex_char, is_object_name, is_stored_object, object_bytes, write_object, ObjectFile,
};
use crate::tree::{
    all_hashes_hex, dir_mode, entry_views, file_mode, git_dir_name, is_name_order, is_tree_file,
    write_tree, EntryView, TreeEntry,
};

verus! {

/// What a listed directory entry is.
#[derive(Debug, Clone, Copy)]
pub enum ListedKind {
    /// A regular file (or a link to one).
    File,
    /// A directory (or a link to one).
    Dir,
    /// Anything else, such as a dangling link.
    Other,
}

/// What the caller is to do next.
#[derive(Debug)]
pub enum WalkAction {
    /// Leave the listed entry out.
    Skip,
    /// Read the listed file and report its bytes with `FileRead`.
    StoreBlob,
    /// List the listed directory: report its entries, then `ListingDone`.
    Descend,
    /// Write this object: a blob just read, or the tree of a directory just
    /// closed.
    WriteObject(ObjectFile),
    /// Write this object, the tree of the walked directory; the walk is over.
    WriteRoot(ObjectFile),
    /// The event does not fit the walk's state; nothing changed.
    Unexpected,
}

/// What the caller reports.
#[derive(Debug)]
pub enum WalkEvent {
    /// The directory being listed holds an entry with this name and kind.
    Listed { name: String, kind: ListedKind },
    /// The bytes of the file for which `StoreBlob` was asked.
    FileRead { content: Vec<u8> },
    /// The directory being listed has no more entries.
    ListingDone,
}

/// A directory whose listing is under way: its name in its parent and the
/// entries gathered so far.
#[derive(Debug)]
pub struct WalkFrame {
    name: String,
    entries: Vec<TreeEntry>,
}

/// The state of a walk.
#[derive(Debug)]
pub struct WalkState {
    repo_dir: String,
    frames: Vec<WalkFrame>,
    pending: Option<String>,
    done: bool,
}

/// The text of an open directory.
pub struct FrameView {
    pub name: Seq<char>,
    pub entries: Seq<EntryView>,
}

/// The text of a walk: the repository it stores into, the open directories
/// from the walked one (first) to the one being listed (last), the file
/// whose bytes are awaited, and whether the walk is over.
pub struct WalkView {
    pub repo_dir: Seq<char>,
    pub frames: Seq<FrameView>,
    pub pending: Option<Seq<char>>,
    pub done: bool,
}

impl View for WalkFrame {
    type V = FrameView;

    closed spec fn view(&self) -> FrameView {
        FrameView { name: self.name@, entries: entry_views(self.entries@) }
    }
}

impl View for WalkState {
    type V = WalkView;

    closed spec fn view(&self) -> WalkView {
        WalkView {
            repo_dir: self.repo_dir@,
            frames: self.frames@.map_values(|f: WalkFrame| f@),
            pending: match self.pending {
                Some(p) => Some(p@),
                None => None,
            },
            done: self.done,
        }
    }
}

/// The bytes of the kind `blob`.
pub open spec fn blob_kind() -> Seq<u8> {
    seq![98u8, 108u8, 111u8, 98u8]
}

/// What to do with a listed entry: the `.git` directory and entries that are
/// neither files nor directories are left out, files are stored as blobs,
/// directories are walked.
pub open spec fn entry_action(name: Seq<char>, kind: ListedKind) -> WalkAction {
    if name == git_dir_name() {
        WalkAction::Skip
    } else {
        match kind {
            ListedKind::File => WalkAction::StoreBlob,
            ListedKind::Dir => WalkAction::Descend,
            ListedKind::Other => WalkAction::Skip,
        }
    }
}

/// `file` is the tree object of the closed directory `frame`.
pub open spec fn closes_frame(frame: FrameView, repo_dir: Seq<char>, file: ObjectFile) -> bool {
    exists|order: Seq<EntryView>|
        #[trigger] is_name_order(frame.entries, order) && is_tree_file(order, repo_dir, file)
}

/// `frames` with `entry` added to the last (innermost) open directory.
pub open spec fn add_to_last(frames: Seq<FrameView>, entry: EntryView) -> Seq<FrameView> {
    let last = frames.last();
    frames.update(
        frames.len() - 1,
        FrameView { name: last.name, entries: last.entries.push(entry) },
    )
}

/// The text of an event.
pub enum EventView {
    Listed { name: Seq<char>, kind: ListedKind },
    FileRead { content: Seq<u8> },
    ListingDone,
}

impl View for WalkEvent {
    type V = EventView;

    open spec fn view(&self) -> EventView {
        match self {
            WalkEvent::Listed { name, kind } => EventView::Listed { name: name@, kind: *kind },
            WalkEvent::FileRead { content } => EventView::FileRead { content: content@ },
            WalkEvent::ListingDone => EventView::ListingDone,
        }
    }
}

/// One step of the walk from `s` on event `e` leads to `n` and asks for `a`
/// (see `walk_step`).
pub open spec fn step_rel(s: WalkView, e: EventView, n: WalkView, a: WalkAction) -> bool {
    if s.done {
        n == s && a is Unexpected
    } else {
        match e {
            EventView::Listed { name, kind } => if s.pending is Some {
                n == s && a is Unexpected
            } else {
                &&& a == entry_action(name, kind)
                &&& a is Skip ==> n == s
                &&& a is StoreBlob ==> n == WalkView { pending: Some(name), ..s }
                &&& a is Descend ==> n == WalkView {
                    frames: s.frames.push(FrameView { name, entries: Seq::empty() }),
                    ..s
                }
            },
            EventView::FileRead { content } => match s.pending {
                None => n == s && a is Unexpected,
                Some(p) => a matches WalkAction::WriteObject(file) && is_stored_object(
                    object_bytes(blob_kind(), content),
                    s.repo_dir,
                    file,
                ) && n == WalkView {
                    frames: add_to_last(
                        s.frames,
                        EntryView { mode: file_mode(), name: p, hash: file.hash@ },
                    ),
                    pending: None,
                    ..s
                },
            },
            EventView::ListingDone => if s.pending is Some {
                n == s && a is Unexpected
            } else if s.frames.len() > 1 {
                a matches WalkAction::WriteObject(file) && closes_frame(
                    s.frames.last(),
                    s.repo_dir,
                    file,
                ) && n == WalkView {
                    frames: add_to_last(
                        s.frames.drop_last(),
                        EntryView { mode: dir_mode(), name: s.frames.last().name, hash: file.hash@ },
                    ),
                    ..s
                }
            } else {
                a matches WalkAction::WriteRoot(file) && closes_frame(
                    s.frames.last(),
                    s.repo_dir,
                    file,
                ) && n == WalkView { frames: Seq::empty(), done: true, ..s }
            },
        }
    }
}

/// What to do with a listed entry (see `entry_action`).
pub fn classify_entry(name: &str, kind: ListedKind) -> (res: WalkAction)
    ensures
        res == entry_action(name@, kind),
        res is Skip <==> (name@ == seq!['.', 'g', 'i', 't'] || kind is Other),
        name@ != seq!['.', 'g', 'i', 't'] ==> (kind is File ==> res is StoreBlob) && (kind is Dir
            ==> res is Descend),
{
    if crate::tree::is_skipped_entry(name) {
        WalkAction::Skip
    } else {
        match kind {
            ListedKind::File => WalkAction::StoreBlob,
            ListedKind::Dir => WalkAction::Descend,
            ListedKind::Other => WalkAction::Skip,
        }
    }
}

/// Only the `.git` directory itself is left out of a snapshot, together with
/// entries that are neither files nor directories: every other name, even
/// one that starts with `.git` (such as `.gitignore`), is stored as a blob
/// when it is a file and walked when it is a directory.
pub proof fn lemma_only_git_dir_skipped(name: Seq<char>, kind: ListedKind)
    ensures
        entry_action(name, kind) is Skip <==> (name == seq!['.', 'g', 'i', 't'] || kind is Other),
        name != seq!['.', 'g', 'i', 't'] ==> (kind is File ==> entry_action(name, kind) is StoreBlob)
            && (kind is Dir ==> entry_action(name, kind) is Descend),
        entry_action(name, kind) is StoreBlob ==> kind is File,
        entry_action(name, kind) is Descend ==> kind is Dir,
{
    assert(git_dir_name() =~= seq!['.', 'g', 'i', 't']);
}

/// An object name is hexadecimal text.
proof fn lemma_object_name_hex(name: Seq<char>)
    requires
        is_object_name(name),
    ensures
        is_hex_text(encode_utf8(name)),
{
    assert(is_ascii_chars(name)) by {
        assert forall|i: int| 0 <= i < name.len() implies '\0' <= #[trigger] name[i] <= '\u{7f}' by {
            assert(is_lower_hex_char(name[i]));
        }
    }
    is_ascii_chars_encode_utf8(name);
    let b = encode_utf8(name);
    assert forall|i: int| 0 <= i < b.len() implies is_hex_byte(#[trigger] b[i]) by {
        assert(name[i] as u8 == b[i]);
        assert(is_lower_hex_char(name[i]));
    }
}

impl WalkState {
    /// Every gathered entry names an object; a finished walk has no open
    /// directory, and an unfinished one has at least one.
    #[verifier::type_invariant]
    spec fn wf(self) -> bool {
        &&& forall|i: int, j: int|
            0 <= i < self.frames@.len() && 0 <= j < self.frames@[i].entries@.len()
                ==> is_object_name(#[trigger] self.frames@[i].entries@[j].hash@)
        &&& self.done ==> self.frames@.len() == 0 && self.pending is None
        &&& !self.done ==> self.frames@.len() > 0
    }

    /// The walk of a directory, storing into the repository at `repo_dir`:
    /// one open directory (the walked one), nothing gathered yet.
    pub fn new(repo_dir: &str) -> (res: WalkState)
        ensures
            res@ == (WalkView {
                repo_dir: repo_dir@,
                frames: seq![FrameView { name: Seq::empty(), entries: Seq::empty() }],
                pending: None,
                done: false,
            }),
    {
        let mut frames: Vec<WalkFrame> = Vec::new();
        frames.push(WalkFrame { name: String::new(), entries: Vec::new() });
        let res = WalkState { repo_dir: repo_dir.to_owned(), frames, pending: None, done: false };
        proof {
            assert(entry_views(Seq::<TreeEntry>::empty()) =~= Seq::<EntryView>::empty());
            assert(res@.frames =~= seq![FrameView { name: Seq::empty(), entries: Seq::empty() }]);
        }
        res
    }

    /// Whether the walk is over.
    pub fn is_done(&self) -> (res: bool)
        ensures
            res == self@.done,
    {
        self.done
    }
}

/// One step of the walk.
/// - A listed entry is classified (`entry_action`); a blob to store becomes
///   the awaited file, a directory to walk opens a new, empty directory.
/// - The bytes of the awaited file are stored as a blob, which enters the
///   directory being listed as a `100644` entry.
/// - The end of a listing closes the directory being listed into its tree
///   object; that tree enters the enclosing directory as a `040000` entry,
///   or, for the walked directory, ends the walk.
/// - Any other event (after the end, a listing or end of listing while a
///   file is awaited, bytes that nobody asked for) changes nothing.
pub fn walk_step(state: WalkState, event: WalkEvent) -> (res: (WalkState, WalkAction))
    ensures
        step_rel(state@, event@, res.0@, res.1),
{
    proof {
        use_type_invariant(&state);
    }
    if state.done {
        return (state, WalkAction::Unexpected);
    }
    match event {
        WalkEvent::Listed { name, kind } => {
            if state.pending.is_some() {
                return (state, WalkAction::Unexpected);
            }
            let action = classify_entry(name.as_str(), kind);
            match action {
                WalkAction::StoreBlob => {
                    let WalkState { repo_dir, frames, pending: _, done } = state;
                    let next = WalkState { repo_dir, frames, pending: Some(name), done };
                    proof {
                        assert(next@ == WalkView { pending: Some(name@), ..state@ });
                    }
                    (next, WalkAction::StoreBlob)
                },
                WalkAction::Descend => {
                    let WalkState { repo_dir, mut frames, pending, done } = state;
                    let ghost before = frames@;
                    frames.push(WalkFrame { name, entries: Vec::new() });
                    let next = WalkState { repo_dir, frames, pending, done };
                    proof {
                        assert(entry_views(Seq::<TreeEntry>::empty()) =~= Seq::<EntryView>::empty());
                        assert(next@.frames =~= state@.frames.push(
                            FrameView { name: name@, entries: Seq::empty() },
                        ));
                    }
                    (next, WalkAction::Descend)
                },
                _ => (state, action),
            }
        },
        WalkEvent::FileRead { content } => {
            let WalkState { repo_dir, mut frames, pending, done } = state;
            match pending {
                None => (WalkState { repo_dir, frames, pending: None, done }, WalkAction::Unexpected),
                Some(p) => {
                    let kind = "blob";
                    proof {
                        reveal_strlit("blob");
                        assert(kind@ =~= ascii_chars(blob_kind()));
                        lemma_ascii_utf8(blob_kind());
                    }
                    let file = match write_object(kind, content.as_slice(), repo_dir.as_str()) {
                        Ok(f) => f,
                        Err(_) => {
                            return (
                                WalkState { repo_dir, frames, pending: Some(p), done },
                                WalkAction::Unexpected,
                            );
                        },
                    };
                    let ghost before = frames@;
                    let mut top = match frames.pop() {
                        Some(t) => t,
                        None => {
                            return (
                                WalkState { repo_dir, frames, pending: Some(p), done },
                                WalkAction::Unexpected,
                            );
                        },
                    };
                    let ghost old_top = top;
                    let entry = TreeEntry::file(p, file.hash.clone());
                    top.entries.push(entry);
                    frames.push(top);
                    let next = WalkState { repo_dir, frames, pending: None, done };
                    proof {
                        let sv = state@;
                        let k = before.len() - 1;
                        assert(entry_views(top.entries@) =~= entry_views(old_top.entries@).push(
                            entry@,
                        ));
                        assert(next@.frames =~= add_to_last(
                            sv.frames,
                            EntryView { mode: file_mode(), name: p@, hash: file.hash@ },
                        )) by {
                            assert(frames@ =~= before.update(k, top));
                        }
                    }
                    (next, WalkAction::WriteObject(file))
                },
            }
        },
        WalkEvent::ListingDone => {
            if state.pending.is_some() {
                return (state, WalkAction::Unexpected);
            }
            let WalkState { repo_dir, mut frames, pending, done } = state;
            let ghost before = frames@;
            let top = match frames.pop() {
                Some(t) => t,
                None => {
                    return (WalkState { repo_dir, frames, pending, done }, WalkAction::Unexpected);
                },
            };
            let WalkFrame { name: top_name, entries: top_entries } = top;
            proof {
                let k = before.len() - 1;
                assert(top_entries@ == before[k].entries@);
                assert forall|j: int| 0 <= j < entry_views(top_entries@).len() implies is_hex_text(
                    encode_utf8(#[trigger] entry_views(top_entries@)[j].hash),
                ) by {
                    assert(is_object_name(before[k].entries@[j].hash@));
                    lemma_object_name_hex(before[k].entries@[j].hash@);
                }
                assert(all_hashes_hex(entry_views(top_entries@)));
            }
            let ghost top_view = entry_views(top_entries@);
            let file = match write_tree(top_entries, repo_dir.as_str()) {
                Ok(f) => f,
                Err(_) => {
                    return (
                        WalkState { repo_dir, frames: Vec::new(), pending, done: true },
                        WalkAction::Unexpected,
                    );
                },
            };
            if frames.len() > 0 {
                let ghost rest = frames@;
                let mut parent = match frames.pop() {
                    Some(t) => t,
                    None => {
                        return (
                            WalkState { repo_dir, frames, pending, done: true },
                            WalkAction::Unexpected,
                        );
                    },
                };
                let ghost old_parent = parent;
                let entry = TreeEntry::directory(top_name, file.hash.clone());
                parent.entries.push(entry);
                frames.push(parent);
                let next = WalkState { repo_dir, frames, pending, done };
                proof {
                    let sv = state@;
                    let k = rest.len() - 1;
                    assert(entry_views(parent.entries@) =~= entry_views(
                        old_parent.entries@,
                    ).push(entry@));
                    assert(sv.frames.drop_last() =~= rest.map_values(|f: WalkFrame| f@));
                    assert(sv.frames.last() == FrameView { name: top_name@, entries: top_view });
                    assert(next@.frames =~= add_to_last(
                        sv.frames.drop_last(),
                        EntryView { mode: dir_mode(), name: top_name@, hash: file.hash@ },
                    )) by {
                        assert(frames@ =~= rest.update(k, parent));
                    }
                }
                (next, WalkAction::WriteObject(file))
            } else {
                let next = WalkState { repo_dir, frames, pending, done: true };
                proof {
                    let sv = state@;
                    assert(sv.frames.last() == FrameView { name: top_name@, entries: top_view });
                    assert(next@.frames =~= Seq::<FrameView>::empty());
                }
                (next, WalkAction::WriteRoot(file))
            }
        },
    }
}

} // verus!
