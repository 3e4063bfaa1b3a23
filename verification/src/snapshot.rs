//! What a whole walk computes. A directory is modelled as its listing: named
//! children that are files (with their bytes), directories (with their own
//! listings) or other entries. Walking it ends in the tree object named
//! `dir_id` of the listing, after every object that tree names has been
//! written; and that name depends on what the directory holds, not on the
//! order in which any of its listings comes.

use vstd::prelude::*;

use crate::object::{is_stored_object, object_bytes, object_id};
use crate::tree::{
    dir_mode, distinct_names, file_mode, is_name_order, is_tree_file, lemma_distinct_names_once,
    lemma_name_order_exists, lemma_tree_order_independent, tree_bytes, tree_kind, EntryView,
};
use crate::walk::{
    add_to_last, blob_kind, closes_frame, entry_action, step_rel, EventView, FrameView, ListedKind,
    WalkAction, WalkView,
};

verus! {

broadcast use vstd::seq_lib::group_to_multiset_ensures;

/// A node of a directory tree.
pub enum FsNode {
    File { content: Seq<u8> },
    Dir { children: Seq<FsChild> },
    Other,
}

/// A named entry of a directory listing.
pub struct FsChild {
    pub name: Seq<char>,
    pub node: FsNode,
}

/// The kind under which a node is listed.
pub open spec fn kind_of(node: FsNode) -> ListedKind {
    match node {
        FsNode::File { .. } => ListedKind::File,
        FsNode::Dir { .. } => ListedKind::Dir,
        FsNode::Other => ListedKind::Other,
    }
}

/// The events of listing `children` in order (without the end of the listing).
pub open spec fn children_events(children: Seq<FsChild>) -> Seq<EventView>
    decreases children,
{
    if children.len() == 0 {
        Seq::empty()
    } else {
        child_events(children[0]) + children_events(children.drop_first())
    }
}

/// The events of one listed child: the listing itself, then the file's
/// bytes or the walk of the subdirectory where the walk asks for them.
pub open spec fn child_events(c: FsChild) -> Seq<EventView>
    decreases c,
{
    seq![EventView::Listed { name: c.name, kind: kind_of(c.node) }] + match entry_action(
        c.name,
        kind_of(c.node),
    ) {
        WalkAction::StoreBlob => match c.node {
            FsNode::File { content } => seq![EventView::FileRead { content }],
            _ => Seq::empty(),
        },
        WalkAction::Descend => match c.node {
            FsNode::Dir { children } => children_events(children).push(EventView::ListingDone),
            _ => Seq::empty(),
        },
        _ => Seq::empty(),
    }
}

/// The tree entry that a child becomes, if it is not left out.
pub open spec fn child_entry(c: FsChild) -> Option<EntryView>
    decreases c, 0int,
{
    match entry_action(c.name, kind_of(c.node)) {
        WalkAction::StoreBlob => match c.node {
            FsNode::File { content } => Some(
                EntryView {
                    mode: file_mode(),
                    name: c.name,
                    hash: object_id(object_bytes(blob_kind(), content)),
                },
            ),
            _ => None,
        },
        WalkAction::Descend => match c.node {
            FsNode::Dir { children } => Some(
                EntryView { mode: dir_mode(), name: c.name, hash: dir_id(children) },
            ),
            _ => None,
        },
        _ => None,
    }
}

/// The entry that a child becomes, as a sequence of zero or one entries.
pub open spec fn entry_seq(c: FsChild) -> Seq<EntryView>
    decreases c, 1int,
{
    match child_entry(c) {
        Some(e) => seq![e],
        None => Seq::empty(),
    }
}

/// The entries of a listing, in listing order.
pub open spec fn dir_entries(children: Seq<FsChild>) -> Seq<EntryView>
    decreases children, 1int,
{
    if children.len() == 0 {
        Seq::empty()
    } else {
        entry_seq(children[0]) + dir_entries(children.drop_first())
    }
}

/// The name of the tree object of a listing: its entries in name order,
/// serialized and framed as a `tree`.
pub open spec fn dir_id(children: Seq<FsChild>) -> Seq<char>
    decreases children, 2int,
{
    let order = choose|o: Seq<EntryView>| is_name_order(dir_entries(children), o);
    object_id(object_bytes(tree_kind(), tree_bytes(order)))
}


/// No two children of the listing share a name.
pub open spec fn distinct_child_names(children: Seq<FsChild>) -> bool {
    forall|i: int, j: int|
        0 <= i < j < children.len() ==> (#[trigger] children[i]).name != (#[trigger] children[j]).name
}

/// Every listing below these children has distinct names (as any real
/// directory has).
pub open spec fn children_well_named(children: Seq<FsChild>) -> bool
    decreases children, 1int,
{
    if children.len() == 0 {
        true
    } else {
        child_well_named(children[0]) && children_well_named(children.drop_first())
    }
}

/// A subdirectory's listing, and every listing below it, has distinct names.
pub open spec fn child_well_named(c: FsChild) -> bool
    decreases c, 0int,
{
    match c.node {
        FsNode::Dir { children } => distinct_child_names(children) && children_well_named(children),
        _ => true,
    }
}

/// Steps `from..to` of a recorded walk: each state, event and action is one
/// step of `walk_step`.
pub open spec fn run_steps(
    states: Seq<WalkView>,
    events: Seq<EventView>,
    actions: Seq<WalkAction>,
    from: int,
    to: int,
) -> bool {
    &&& 0 <= from <= to
    &&& to < states.len()
    &&& to <= events.len()
    &&& to <= actions.len()
    &&& forall|i: int|
        from <= i < to ==> #[trigger] step_rel(states[i], events[i], states[i + 1], actions[i])
}

/// A walk waiting for the next listed entry.
pub open spec fn ready(s: WalkView) -> bool {
    &&& !s.done
    &&& s.pending is None
    &&& s.frames.len() >= 1
}

/// `s` with `extra` appended to the entries of the innermost open directory.
pub open spec fn with_entries(s: WalkView, extra: Seq<EntryView>) -> WalkView {
    let last = s.frames.last();
    WalkView {
        frames: s.frames.update(
            s.frames.len() - 1,
            FrameView { name: last.name, entries: last.entries + extra },
        ),
        ..s
    }
}

proof fn lemma_with_entries_empty(s: WalkView)
    requires
        s.frames.len() >= 1,
    ensures
        with_entries(s, Seq::empty()) == s,
{
    let last = s.frames.last();
    assert(last.entries + Seq::<EntryView>::empty() =~= last.entries);
    assert(s.frames.update(s.frames.len() - 1, FrameView { name: last.name, entries: last.entries })
        =~= s.frames);
}

proof fn lemma_with_entries_twice(s: WalkView, a: Seq<EntryView>, b: Seq<EntryView>)
    requires
        s.frames.len() >= 1,
    ensures
        with_entries(with_entries(s, a), b) == with_entries(s, a + b),
{
    let last = s.frames.last();
    assert(last.entries + a + b =~= last.entries + (a + b));
    assert(with_entries(with_entries(s, a), b).frames =~= with_entries(s, a + b).frames);
}

/// Every entry of a listing is named after one of its children.
proof fn lemma_entry_names(children: Seq<FsChild>)
    ensures
        forall|k: int|
            0 <= k < dir_entries(children).len() ==> exists|j: int|
                0 <= j < children.len() && children[j].name == (#[trigger] dir_entries(
                    children,
                )[k]).name,
    decreases children.len(),
{
    if children.len() > 0 {
        let rest = children.drop_first();
        lemma_entry_names(rest);
        let head = entry_seq(children[0]);
        assert forall|k: int| 0 <= k < dir_entries(children).len() implies exists|j: int|
            0 <= j < children.len() && children[j].name == (#[trigger] dir_entries(
                children,
            )[k]).name by {
            if k < head.len() {
                assert(dir_entries(children)[k] == head[k]);
                assert(children[0].name == head[k].name);
            } else {
                assert(dir_entries(children)[k] == dir_entries(rest)[k - head.len()]);
                let j = choose|j: int|
                    0 <= j < rest.len() && rest[j].name == dir_entries(rest)[k - head.len()].name;
                assert(children[j + 1] == rest[j]);
            }
        }
    }
}

/// Children with distinct names give entries with distinct names.
proof fn lemma_dir_entries_distinct(children: Seq<FsChild>)
    requires
        distinct_child_names(children),
    ensures
        distinct_names(dir_entries(children)),
    decreases children.len(),
{
    if children.len() > 0 {
        let rest = children.drop_first();
        assert forall|i: int, j: int| 0 <= i < j < rest.len() implies (#[trigger] rest[i]).name
            != (#[trigger] rest[j]).name by {
            assert(rest[i] == children[i + 1] && rest[j] == children[j + 1]);
        }
        lemma_dir_entries_distinct(rest);
        lemma_entry_names(rest);
        let head = entry_seq(children[0]);
        let d = dir_entries(children);
        assert forall|i: int, j: int| 0 <= i < j < d.len() implies (#[trigger] d[i]).name
            != (#[trigger] d[j]).name by {
            if i >= head.len() {
                assert(d[i] == dir_entries(rest)[i - head.len()]);
                assert(d[j] == dir_entries(rest)[j - head.len()]);
            } else {
                assert(d[i] == head[i]);
                assert(head[i].name == children[0].name);
                assert(d[j] == dir_entries(rest)[j - head.len()]);
                let m = choose|m: int|
                    0 <= m < rest.len() && rest[m].name == dir_entries(rest)[j - head.len()].name;
                assert(rest[m] == children[m + 1]);
            }
        }
    }
}

/// A closed directory whose entries are those of a listing with distinct
/// names is the tree object named `dir_id` of the listing.
proof fn lemma_closed_frame_id(
    children: Seq<FsChild>,
    name: Seq<char>,
    repo_dir: Seq<char>,
    file: crate::object::ObjectFile,
)
    requires
        closes_frame(FrameView { name, entries: dir_entries(children) }, repo_dir, file),
        distinct_child_names(children),
    ensures
        file.hash@ == dir_id(children),
{
    let e = dir_entries(children);
    let o = choose|o: Seq<EntryView>| #[trigger] is_name_order(e, o) && is_tree_file(o, repo_dir, file);
    assert(is_name_order(e, o));
    let o2 = choose|o2: Seq<EntryView>| is_name_order(e, o2);
    lemma_dir_entries_distinct(children);
    lemma_tree_order_independent(e, e, o, o2);
}


/// The action asks to write an object with this name (a stored blob or the
/// tree of a closed subdirectory).
pub open spec fn writes(a: WalkAction, hash: Seq<char>) -> bool {
    a matches WalkAction::WriteObject(file) && file.hash@ == hash
}

/// One of the steps `from..to` asks to write an object with this name.
pub open spec fn written_in(actions: Seq<WalkAction>, from: int, to: int, hash: Seq<char>) -> bool {
    exists|i: int| from <= i < to && #[trigger] writes(actions[i], hash)
}

/// Adding entries to the innermost open directory keeps a walk ready.
proof fn lemma_with_entries_ready(s: WalkView, extra: Seq<EntryView>)
    requires
        ready(s),
    ensures
        ready(with_entries(s, extra)),
        with_entries(s, extra).repo_dir == s.repo_dir,
        with_entries(s, extra).frames.len() == s.frames.len(),
        with_entries(s, extra).frames.drop_last() == s.frames.drop_last(),
        with_entries(s, extra).frames.last() == (FrameView {
            name: s.frames.last().name,
            entries: s.frames.last().entries + extra,
        }),
{
    let w = with_entries(s, extra);
    assert(w.frames.drop_last() =~= s.frames.drop_last());
}

/// A window of events split into two consecutive parts.
proof fn lemma_window_split(events: Seq<EventView>, from: int, a: Seq<EventView>, b: Seq<EventView>)
    requires
        0 <= from,
        from + a.len() + b.len() <= events.len(),
        events.subrange(from, from + a.len() + b.len()) == a + b,
    ensures
        events.subrange(from, from + a.len()) == a,
        events.subrange(from + a.len(), from + a.len() + b.len()) == b,
{
    let w = events.subrange(from, from + a.len() + b.len());
    assert forall|i: int| 0 <= i < a.len() implies events.subrange(from, from + a.len())[i] == a[i] by {
        assert(w[i] == (a + b)[i]);
    }
    assert forall|i: int| 0 <= i < b.len() implies events.subrange(
        from + a.len(),
        from + a.len() + b.len(),
    )[i] == b[i] by {
        assert(w[a.len() + i] == (a + b)[a.len() + i]);
    }
    assert(events.subrange(from, from + a.len()) =~= a);
    assert(events.subrange(from + a.len(), from + a.len() + b.len()) =~= b);
}

/// Walking one listed child from a ready state adds the child's entry (if
/// any) to the directory being listed, and nothing else.
proof fn lemma_child_run(
    states: Seq<WalkView>,
    events: Seq<EventView>,
    actions: Seq<WalkAction>,
    from: int,
    c: FsChild,
)
    requires
        run_steps(states, events, actions, from, from + child_events(c).len()),
        events.subrange(from, from + child_events(c).len()) == child_events(c),
        ready(states[from]),
        child_well_named(c),
    ensures
        states[from + child_events(c).len()] == with_entries(states[from], entry_seq(c)),
        forall|k: int|
            0 <= k < entry_seq(c).len() ==> written_in(
                actions,
                from,
                from + child_events(c).len(),
                (#[trigger] entry_seq(c)[k]).hash,
            ),
    decreases c, 0int,
{
    let s0 = states[from];
    let kind = kind_of(c.node);
    let a = entry_action(c.name, kind);
    let ce = child_events(c);
    assert(events[from] == ce[0]) by {
        assert(events.subrange(from, from + ce.len())[0] == events[from]);
    }
    assert(ce[0] == EventView::Listed { name: c.name, kind });
    assert(step_rel(states[from], events[from], states[from + 1], actions[from]));
    match a {
        WalkAction::StoreBlob => {
            let content = c.node->File_content;
            assert(ce =~= seq![
                EventView::Listed { name: c.name, kind },
                EventView::FileRead { content },
            ]);
            assert(events[from + 1] == ce[1]) by {
                assert(events.subrange(from, from + ce.len())[1] == events[from + 1]);
            }
            let s1 = states[from + 1];
            assert(s1 == WalkView { pending: Some(c.name), ..s0 });
            assert(step_rel(states[from + 1], events[from + 1], states[(from + 1) + 1], actions[from + 1]));
            let file = actions[from + 1]->WriteObject_0;
            let e = EntryView { mode: file_mode(), name: c.name, hash: file.hash@ };
            assert(child_entry(c) == Some(e));
            assert(entry_seq(c) == seq![e]);
            let last = s0.frames.last();
            assert(last.entries.push(e) =~= last.entries + seq![e]);
            assert(states[from + 2].frames =~= with_entries(s0, entry_seq(c)).frames);
            assert(writes(actions[from + 1], e.hash));
        },
        WalkAction::Descend => {
            let children = c.node->Dir_children;
            let inner = children_events(children);
            assert(ce =~= seq![EventView::Listed { name: c.name, kind }] + inner.push(
                EventView::ListingDone,
            ));
            let s1 = states[from + 1];
            let opened = FrameView { name: c.name, entries: Seq::empty() };
            assert(s1 == WalkView { frames: s0.frames.push(opened), ..s0 });
            assert(ready(s1));
            let l: int = inner.len() as int;
            assert(ce.len() == l + 2);
            assert(events.subrange(from + 1, from + 1 + l) == inner) by {
                assert forall|i: int| 0 <= i < l implies events.subrange(from + 1, from + 1 + l)[i]
                    == inner[i] by {
                    assert(events.subrange(from, from + ce.len())[1 + i] == ce[1 + i]);
                }
                assert(events.subrange(from + 1, from + 1 + l) =~= inner);
            }
            assert(events[from + 1 + l] == EventView::ListingDone) by {
                assert(events.subrange(from, from + ce.len())[1 + l] == ce[1 + l]);
            }
            lemma_children_run(states, events, actions, from + 1, children);
            let s2 = states[from + 1 + l];
            lemma_with_entries_ready(s1, dir_entries(children));
            assert(Seq::<EntryView>::empty() + dir_entries(children) =~= dir_entries(children));
            assert(s2.frames.last() == FrameView { name: c.name, entries: dir_entries(children) });
            assert(s2.frames.drop_last() =~= s0.frames) by {
                assert(s1.frames.drop_last() =~= s0.frames);
            }
            assert(step_rel(
                states[from + 1 + l],
                events[from + 1 + l],
                states[(from + 1 + l) + 1],
                actions[from + 1 + l],
            ));
            let file = actions[from + 1 + l]->WriteObject_0;
            lemma_closed_frame_id(children, c.name, s0.repo_dir, file);
            let e = EntryView { mode: dir_mode(), name: c.name, hash: dir_id(children) };
            assert(child_entry(c) == Some(e));
            assert(entry_seq(c) == seq![e]);
            let last = s0.frames.last();
            assert(last.entries.push(e) =~= last.entries + seq![e]);
            assert(states[from + 2 + l].frames =~= with_entries(s0, entry_seq(c)).frames);
            assert(writes(actions[from + 1 + l], e.hash));
        },
        _ => {
            assert(ce =~= seq![EventView::Listed { name: c.name, kind }]);
            assert(entry_seq(c) == Seq::<EntryView>::empty());
            lemma_with_entries_empty(s0);
        },
    }
}

/// Walking a listing's children from a ready state adds the listing's
/// entries, in listing order, to the directory being listed.
proof fn lemma_children_run(
    states: Seq<WalkView>,
    events: Seq<EventView>,
    actions: Seq<WalkAction>,
    from: int,
    children: Seq<FsChild>,
)
    requires
        run_steps(states, events, actions, from, from + children_events(children).len()),
        events.subrange(from, from + children_events(children).len()) == children_events(children),
        ready(states[from]),
        children_well_named(children),
    ensures
        states[from + children_events(children).len()] == with_entries(
            states[from],
            dir_entries(children),
        ),
        forall|k: int|
            0 <= k < dir_entries(children).len() ==> written_in(
                actions,
                from,
                from + children_events(children).len(),
                (#[trigger] dir_entries(children)[k]).hash,
            ),
    decreases children, 1int,
{
    if children.len() == 0 {
        lemma_with_entries_empty(states[from]);
    } else {
        let c = children[0];
        let rest = children.drop_first();
        let a = child_events(c);
        let b = children_events(rest);
        assert(children_events(children) == a + b);
        lemma_window_split(events, from, a, b);
        lemma_child_run(states, events, actions, from, c);
        let mid = from + a.len();
        lemma_with_entries_ready(states[from], entry_seq(c));
        lemma_children_run(states, events, actions, mid, rest);
        lemma_with_entries_twice(states[from], entry_seq(c), dir_entries(rest));
        let head = entry_seq(c);
        let end = from + children_events(children).len();
        assert(dir_entries(children) == head + dir_entries(rest));
        assert forall|k: int| 0 <= k < dir_entries(children).len() implies written_in(
            actions,
            from,
            end,
            (#[trigger] dir_entries(children)[k]).hash,
        ) by {
            if k < head.len() {
                assert(dir_entries(children)[k] == head[k]);
                assert(written_in(actions, from, mid, head[k].hash));
                let i = choose|i: int| from <= i < mid && #[trigger] writes(actions[i], head[k].hash);
                assert(writes(actions[i], head[k].hash));
            } else {
                let r = dir_entries(rest);
                assert(dir_entries(children)[k] == r[k - head.len()]);
                assert(written_in(actions, mid, end, r[k - head.len()].hash));
                let i = choose|i: int| mid <= i < end && #[trigger] writes(actions[i], r[k - head.len()].hash);
                assert(writes(actions[i], r[k - head.len()].hash));
            }
        }
    }
}


/// Walking a directory to the end ends in its tree object. A walk started as
/// `WalkState::new` starts it, fed the events of listing `children` (each
/// file's bytes and each subdirectory's walk where the walk asks for them)
/// and then the end of the listing, asks in its last step to write the root
/// tree, whose name is `dir_id(children)`, and is then over; every entry of
/// that tree names an object that an earlier step asked to write, and at
/// every depth each tree is written after the blobs and trees it names
/// (`lemma_walk_post_order`).
pub proof fn lemma_walk_snapshot(
    children: Seq<FsChild>,
    states: Seq<WalkView>,
    events: Seq<EventView>,
    actions: Seq<WalkAction>,
)
    requires
        states.len() == events.len() + 1,
        actions.len() == events.len(),
        states[0].frames == seq![FrameView { name: Seq::empty(), entries: Seq::empty() }],
        states[0].pending is None,
        !states[0].done,
        events == children_events(children).push(EventView::ListingDone),
        forall|i: int|
            0 <= i < events.len() ==> #[trigger] step_rel(
                states[i],
                events[i],
                states[i + 1],
                actions[i],
            ),
        distinct_child_names(children),
        children_well_named(children),
    ensures
        actions.last() matches WalkAction::WriteRoot(file) && file.hash@ == dir_id(children),
        states.last().done,
        forall|k: int|
            0 <= k < dir_entries(children).len() ==> written_in(
                actions,
                0,
                events.len() - 1,
                (#[trigger] dir_entries(children)[k]).hash,
            ),
        forall|j: int|
            0 <= j <= events.len() ==> #[trigger] entries_written_before(states, events, actions, j),
{
    assert(run_steps(states, events, actions, 0, events.len() as int));
    lemma_walk_post_order(states, events, actions, events.len() as int);
    let l: int = children_events(children).len() as int;
    assert(run_steps(states, events, actions, 0, l));
    assert(events.subrange(0, l) =~= children_events(children));
    lemma_children_run(states, events, actions, 0, children);
    let s = states[l];
    lemma_with_entries_ready(states[0], dir_entries(children));
    assert(Seq::<EntryView>::empty() + dir_entries(children) =~= dir_entries(children));
    assert(s.frames.len() == 1);
    assert(s.frames.last() == FrameView { name: Seq::empty(), entries: dir_entries(children) });
    assert(events[l] == EventView::ListingDone);
    assert(step_rel(states[l], events[l], states[l + 1], actions[l]));
    let file = actions[l]->WriteRoot_0;
    lemma_closed_frame_id(children, Seq::empty(), s.repo_dir, file);
}

/// The name of a directory's tree depends on its entries alone, not on the
/// order in which the listing gives them: two listings with distinct names
/// whose entries are the same, in any order, have the same tree name.
pub proof fn lemma_dir_id_order_independent(a: Seq<FsChild>, b: Seq<FsChild>)
    requires
        dir_entries(a).to_multiset() == dir_entries(b).to_multiset(),
        distinct_child_names(a),
    ensures
        dir_id(a) == dir_id(b),
{
    let ea = dir_entries(a);
    let eb = dir_entries(b);
    lemma_name_order_exists(ea);
    lemma_name_order_exists(eb);
    let oa = choose|o: Seq<EntryView>| is_name_order(ea, o);
    let ob = choose|o: Seq<EntryView>| is_name_order(eb, o);
    lemma_dir_entries_distinct(a);
    lemma_tree_order_independent(ea, eb, oa, ob);
}


/// Two listings of the same directory tree, each possibly given in another
/// order, at every level: every child of `a` has a child of the same name
/// and the same content in `b`, and every child of `b` has a child of the
/// same name in `a`.
pub open spec fn same_listing(a: Seq<FsChild>, b: Seq<FsChild>) -> bool
    decreases a,
{
    &&& forall|i: int| 0 <= i < a.len() ==> matched_in(#[trigger] a[i], b)
    &&& forall|j: int| 0 <= j < b.len() ==> #[trigger] has_child_named(a, b[j].name)
}

/// One of the children is named `name`.
pub open spec fn has_child_named(children: Seq<FsChild>, name: Seq<char>) -> bool {
    exists|i: int| 0 <= i < children.len() && (#[trigger] children[i]).name == name
}

/// `b` has a child with the name and the content of `c`.
pub open spec fn matched_in(c: FsChild, b: Seq<FsChild>) -> bool
    decreases c,
{
    exists|j: int| 0 <= j < b.len() && (#[trigger] b[j]).name == c.name && same_node(c.node, b[j].node)
}

/// Two nodes with the same content: files with the same bytes, directories
/// with the same listing up to order, or two other entries.
pub open spec fn same_node(x: FsNode, y: FsNode) -> bool
    decreases x,
{
    match x {
        FsNode::File { content } => y matches FsNode::File { content: other } && other == content,
        FsNode::Dir { children } => y matches FsNode::Dir { children: other } && same_listing(
            children,
            other,
        ),
        FsNode::Other => y is Other,
    }
}

/// Each child of a well-named listing is well named.
proof fn lemma_well_named_at(s: Seq<FsChild>, i: int)
    requires
        children_well_named(s),
        0 <= i < s.len(),
    ensures
        child_well_named(s[i]),
    decreases i,
{
    if i > 0 {
        lemma_well_named_at(s.drop_first(), i - 1);
        assert(s.drop_first()[i - 1] == s[i]);
    }
}

/// Every entry of a listing is the entry of one of its children, and every
/// child's entry is among the listing's entries.
proof fn lemma_dir_members(children: Seq<FsChild>)
    ensures
        forall|k: int|
            0 <= k < dir_entries(children).len() ==> exists|i: int|
                0 <= i < children.len() && child_entry(children[i]) == Some(
                    #[trigger] dir_entries(children)[k],
                ),
        forall|i: int|
            0 <= i < children.len() && (#[trigger] child_entry(children[i])) is Some
                ==> dir_entries(children).contains(child_entry(children[i])->0),
    decreases children.len(),
{
    if children.len() > 0 {
        let rest = children.drop_first();
        lemma_dir_members(rest);
        let head = entry_seq(children[0]);
        let d = dir_entries(children);
        assert(d == head + dir_entries(rest));
        assert forall|k: int| 0 <= k < d.len() implies exists|i: int|
            0 <= i < children.len() && child_entry(children[i]) == Some(#[trigger] d[k]) by {
            if k < head.len() {
                assert(d[k] == head[k]);
                assert(child_entry(children[0]) == Some(head[k]));
            } else {
                assert(d[k] == dir_entries(rest)[k - head.len()]);
                let i = choose|i: int|
                    0 <= i < rest.len() && child_entry(rest[i]) == Some(
                        dir_entries(rest)[k - head.len()],
                    );
                assert(children[i + 1] == rest[i]);
            }
        }
        assert forall|i: int|
            0 <= i < children.len() && (#[trigger] child_entry(children[i])) is Some implies d.contains(
            child_entry(children[i])->0,
        ) by {
            if i == 0 {
                assert(d[0] == head[0]);
            } else {
                assert(children[i] == rest[i - 1]);
                let e = child_entry(rest[i - 1])->0;
                assert(dir_entries(rest).contains(e));
                let k = choose|k: int| 0 <= k < dir_entries(rest).len() && dir_entries(rest)[k] == e;
                assert(d[k + head.len()] == e);
            }
        }
    }
}

/// Two children with the same name and the same content become the same
/// entry.
proof fn lemma_same_child_entry(x: FsChild, y: FsChild)
    requires
        x.name == y.name,
        same_node(x.node, y.node),
        child_well_named(x),
        child_well_named(y),
    ensures
        child_entry(x) == child_entry(y),
    decreases x, 0int,
{
    if let FsNode::Dir { children } = x.node {
        let other = y.node->Dir_children;
        lemma_dir_id_same_listing(children, other);
    }
}

/// An entry of one listing is an entry of another listing of the same tree.
proof fn lemma_entry_forward(a: Seq<FsChild>, b: Seq<FsChild>, x: EntryView)
    requires
        same_listing(a, b),
        children_well_named(a),
        children_well_named(b),
        dir_entries(a).contains(x),
    ensures
        dir_entries(b).contains(x),
    decreases a, 1int,
{
    let ea = dir_entries(a);
    lemma_dir_members(a);
    lemma_dir_members(b);
    let k = choose|k: int| 0 <= k < ea.len() && ea[k] == x;
    assert(exists|i: int| 0 <= i < a.len() && child_entry(a[i]) == Some(ea[k]));
    let i = choose|i: int| 0 <= i < a.len() && child_entry(a[i]) == Some(ea[k]);
    assert(matched_in(a[i], b));
    let j = choose|j: int|
        0 <= j < b.len() && (#[trigger] b[j]).name == a[i].name && same_node(a[i].node, b[j].node);
    lemma_well_named_at(a, i);
    lemma_well_named_at(b, j);
    lemma_same_child_entry(a[i], b[j]);
    assert(child_entry(b[j]) is Some);
}

/// An entry of the other listing of the same tree is an entry of this one.
proof fn lemma_entry_backward(a: Seq<FsChild>, b: Seq<FsChild>, x: EntryView)
    requires
        same_listing(a, b),
        distinct_child_names(b),
        children_well_named(a),
        children_well_named(b),
        dir_entries(b).contains(x),
    ensures
        dir_entries(a).contains(x),
    decreases a, 1int,
{
    let eb = dir_entries(b);
    lemma_dir_members(a);
    lemma_dir_members(b);
    let k = choose|k: int| 0 <= k < eb.len() && eb[k] == x;
    assert(exists|j: int| 0 <= j < b.len() && child_entry(b[j]) == Some(eb[k]));
    let j = choose|j: int| 0 <= j < b.len() && child_entry(b[j]) == Some(eb[k]);
    assert(has_child_named(a, b[j].name));
    let i = choose|i: int| 0 <= i < a.len() && (#[trigger] a[i]).name == b[j].name;
    assert(matched_in(a[i], b));
    let m = choose|m: int|
        0 <= m < b.len() && (#[trigger] b[m]).name == a[i].name && same_node(a[i].node, b[m].node);
    if m != j {
        if m < j {
            assert(b[m].name != b[j].name);
        } else {
            assert(b[j].name != b[m].name);
        }
    }
    lemma_well_named_at(a, i);
    lemma_well_named_at(b, j);
    lemma_same_child_entry(a[i], b[j]);
    assert(child_entry(a[i]) is Some);
}

/// The tree of a directory depends on what the directory holds, not on the
/// order in which any of its listings, at any depth, comes: two listings of
/// the same tree (each with distinct names at every level, as real
/// directories have) give the same entries and the same tree name.
pub proof fn lemma_dir_id_same_listing(a: Seq<FsChild>, b: Seq<FsChild>)
    requires
        same_listing(a, b),
        distinct_child_names(a),
        distinct_child_names(b),
        children_well_named(a),
        children_well_named(b),
    ensures
        dir_entries(a).to_multiset() == dir_entries(b).to_multiset(),
        dir_id(a) == dir_id(b),
    decreases a, 2int,
{
    let ea = dir_entries(a);
    let eb = dir_entries(b);
    lemma_dir_entries_distinct(a);
    lemma_dir_entries_distinct(b);
    assert forall|x: EntryView| ea.to_multiset().count(x) == eb.to_multiset().count(x) by {
        lemma_distinct_names_once(ea, x);
        lemma_distinct_names_once(eb, x);
        if ea.contains(x) {
            lemma_entry_forward(a, b, x);
        }
        if eb.contains(x) {
            lemma_entry_backward(a, b, x);
        }
    }
    assert(ea.to_multiset() =~= eb.to_multiset());
    lemma_dir_id_order_independent(a, b);
}


/// Step `i` of a recorded walk stored the bytes reported for a file as a
/// blob named `hash`.
pub open spec fn blob_written_at(
    states: Seq<WalkView>,
    events: Seq<EventView>,
    actions: Seq<WalkAction>,
    i: int,
    hash: Seq<char>,
) -> bool {
    &&& events[i] matches EventView::FileRead { content }
    &&& actions[i] matches WalkAction::WriteObject(file)
    &&& file.hash@ == hash
    &&& is_stored_object(object_bytes(blob_kind(), content), states[i].repo_dir, file)
}

/// Step `i` of a recorded walk closed a subdirectory into its tree object,
/// named `hash`.
pub open spec fn tree_written_at(
    states: Seq<WalkView>,
    events: Seq<EventView>,
    actions: Seq<WalkAction>,
    i: int,
    hash: Seq<char>,
) -> bool {
    &&& events[i] is ListingDone
    &&& actions[i] matches WalkAction::WriteObject(file)
    &&& file.hash@ == hash
    &&& closes_frame(states[i].frames.last(), states[i].repo_dir, file)
}

/// The object that an entry names was written before step `j`: a `100644`
/// entry the blob of a file's bytes, a `040000` entry the tree of a closed
/// subdirectory.
pub open spec fn entry_written_before(
    states: Seq<WalkView>,
    events: Seq<EventView>,
    actions: Seq<WalkAction>,
    j: int,
    e: EntryView,
) -> bool {
    &&& e.mode == file_mode() ==> exists|i: int|
        0 <= i < j && #[trigger] blob_written_at(states, events, actions, i, e.hash)
    &&& e.mode == dir_mode() ==> exists|i: int|
        0 <= i < j && #[trigger] tree_written_at(states, events, actions, i, e.hash)
    &&& e.mode == file_mode() || e.mode == dir_mode()
}

/// Every entry of every open directory at step `j` names an object written
/// before step `j`.
pub open spec fn entries_written_before(
    states: Seq<WalkView>,
    events: Seq<EventView>,
    actions: Seq<WalkAction>,
    j: int,
) -> bool {
    forall|f: int, k: int|
        0 <= f < states[j].frames.len() && 0 <= k < states[j].frames[f].entries.len()
            ==> entry_written_before(
            states,
            events,
            actions,
            j,
            #[trigger] states[j].frames[f].entries[k],
        )
}

/// An unfinished walk has an open directory.
pub open spec fn has_open_dir(s: WalkView) -> bool {
    !s.done ==> s.frames.len() >= 1
}

proof fn lemma_entry_written_later(
    states: Seq<WalkView>,
    events: Seq<EventView>,
    actions: Seq<WalkAction>,
    j: int,
    e: EntryView,
)
    requires
        entry_written_before(states, events, actions, j, e),
    ensures
        entry_written_before(states, events, actions, j + 1, e),
{
    if e.mode == file_mode() {
        let i = choose|i: int| 0 <= i < j && #[trigger] blob_written_at(states, events, actions, i, e.hash);
        assert(blob_written_at(states, events, actions, i, e.hash));
    }
    if e.mode == dir_mode() {
        let i = choose|i: int| 0 <= i < j && #[trigger] tree_written_at(states, events, actions, i, e.hash);
        assert(tree_written_at(states, events, actions, i, e.hash));
    }
}

/// One step keeps every gathered entry pointing at an object written
/// earlier.
proof fn lemma_step_keeps_written(
    states: Seq<WalkView>,
    events: Seq<EventView>,
    actions: Seq<WalkAction>,
    j: int,
)
    requires
        0 <= j,
        j + 1 < states.len(),
        j < events.len(),
        j < actions.len(),
        step_rel(states[j], events[j], states[j + 1], actions[j]),
        entries_written_before(states, events, actions, j),
        has_open_dir(states[j]),
    ensures
        entries_written_before(states, events, actions, j + 1),
        has_open_dir(states[j + 1]),
{
    let s = states[j];
    let n = states[j + 1];
    assert forall|f: int, k: int|
        0 <= f < s.frames.len() && 0 <= k < s.frames[f].entries.len() implies entry_written_before(
        states,
        events,
        actions,
        j + 1,
        #[trigger] s.frames[f].entries[k],
    ) by {
        lemma_entry_written_later(states, events, actions, j, s.frames[f].entries[k]);
    }
    if n == s {
        return;
    }
    assert(!s.done);
    match events[j] {
        EventView::Listed { name, kind } => {
            if actions[j] is Descend {
                assert forall|f: int, k: int|
                    0 <= f < n.frames.len() && 0 <= k < n.frames[f].entries.len() implies entry_written_before(
                    states,
                    events,
                    actions,
                    j + 1,
                    #[trigger] n.frames[f].entries[k],
                ) by {
                    assert(f < s.frames.len());
                    assert(n.frames[f] == s.frames[f]);
                }
            } else {
                assert(n.frames == s.frames);
            }
        },
        EventView::FileRead { content } => {
            let file = actions[j]->WriteObject_0;
            let e = EntryView { mode: file_mode(), name: s.pending->0, hash: file.hash@ };
            assert(blob_written_at(states, events, actions, j, e.hash));
            assert(n.frames == add_to_last(s.frames, e));
            let last = s.frames.len() - 1;
            assert forall|f: int, k: int|
                0 <= f < n.frames.len() && 0 <= k < n.frames[f].entries.len() implies entry_written_before(
                states,
                events,
                actions,
                j + 1,
                #[trigger] n.frames[f].entries[k],
            ) by {
                if f < last {
                    assert(n.frames[f] == s.frames[f]);
                } else if k < s.frames[f].entries.len() {
                    assert(n.frames[f].entries[k] == s.frames[f].entries[k]);
                } else {
                    assert(n.frames[f].entries[k] == e);
                }
            }
        },
        EventView::ListingDone => {
            if s.frames.len() > 1 {
                let file = actions[j]->WriteObject_0;
                let rest = s.frames.drop_last();
                let e = EntryView { mode: dir_mode(), name: s.frames.last().name, hash: file.hash@ };
                assert(tree_written_at(states, events, actions, j, e.hash));
                assert(n.frames == add_to_last(rest, e));
                let last = rest.len() - 1;
                assert forall|f: int, k: int|
                    0 <= f < n.frames.len() && 0 <= k < n.frames[f].entries.len() implies entry_written_before(
                    states,
                    events,
                    actions,
                    j + 1,
                    #[trigger] n.frames[f].entries[k],
                ) by {
                    assert(rest[f] == s.frames[f]);
                    if f < last {
                        assert(n.frames[f] == s.frames[f]);
                    } else if k < s.frames[f].entries.len() {
                        assert(n.frames[f].entries[k] == s.frames[f].entries[k]);
                    } else {
                        assert(n.frames[f].entries[k] == e);
                    }
                }
            } else {
                assert(n.frames.len() == 0);
            }
        },
    }
}

/// Post-order, at every depth: at every step of a walk started as
/// `WalkState::new` starts it, each entry gathered in an open directory names
/// an object that an earlier step wrote: a `100644` entry the blob of the
/// bytes reported for that file, a `040000` entry the tree of a closed
/// subdirectory. So whenever a directory is closed into its tree (the end of
/// its listing), every object the tree names was written before it.
pub proof fn lemma_walk_post_order(
    states: Seq<WalkView>,
    events: Seq<EventView>,
    actions: Seq<WalkAction>,
    n: int,
)
    requires
        states[0].frames == seq![FrameView { name: Seq::empty(), entries: Seq::empty() }],
        states[0].pending is None,
        !states[0].done,
        run_steps(states, events, actions, 0, n),
    ensures
        forall|j: int| 0 <= j <= n ==> #[trigger] entries_written_before(states, events, actions, j),
    decreases n,
{
    if n == 0 {
        assert(entries_written_before(states, events, actions, 0)) by {
            assert(states[0].frames[0].entries.len() == 0);
        }
    } else {
        assert(run_steps(states, events, actions, 0, n - 1));
        lemma_walk_post_order(states, events, actions, n - 1);
        lemma_open_dir_kept(states, events, actions, n - 1);
        assert(step_rel(states[n - 1], events[n - 1], states[(n - 1) + 1], actions[n - 1]));
        lemma_step_keeps_written(states, events, actions, n - 1);
    }
}

/// Every state of a walk started as `WalkState::new` starts it, while it is
/// unfinished, has an open directory.
proof fn lemma_open_dir_kept(
    states: Seq<WalkView>,
    events: Seq<EventView>,
    actions: Seq<WalkAction>,
    n: int,
)
    requires
        !states[0].done ==> states[0].frames.len() >= 1,
        run_steps(states, events, actions, 0, n),
    ensures
        has_open_dir(states[n]),
    decreases n,
{
    if n > 0 {
        assert(run_steps(states, events, actions, 0, n - 1));
        lemma_open_dir_kept(states, events, actions, n - 1);
        assert(step_rel(states[n - 1], events[n - 1], states[(n - 1) + 1], actions[n - 1]));
    }
}

} // verus!
