//! Tree objects: a directory snapshot as entries `"<mode> <name>\0"` followed
//! by the entry's 20 raw hash bytes, sorted by name in byte order.

use vstd::prelude::*;
use vstd::string::*;
use vstd::utf8::*;
use vstd::multiset::*;

use crate::encoding::{
    ascii_chars, hex_bytes, is_hex_text, lemma_ascii_utf8, push_slice,
};
use crate::object::{is_stored_object, object_bytes, write_object, ObjectError, ObjectFile};
use crate::outside::hex_decode;

verus! {

broadcast use vstd::seq_lib::group_to_multiset_ensures;

/// Errors of tree serialization.
#[derive(Debug)]
pub enum TreeError {
    /// Reading the directory or its files failed.
    Io(std::io::Error),
    /// Preparing an object failed.
    Object(ObjectError),
    /// An entry's hash is not hexadecimal text.
    Hex(hex::FromHexError),
}

/// A single entry (file or directory) within a tree.
#[derive(Debug)]
pub struct TreeEntry {
    /// The file mode (`"100644"` for files, `"040000"` for directories).
    pub mode: String,
    /// The name of the file or directory.
    pub name: String,
    /// The 40-character hexadecimal name of the entry's object.
    pub hash: String,
}

/// The mode of a regular file.
pub open spec fn file_mode() -> Seq<char> {
    seq!['1', '0', '0', '6', '4', '4']
}

/// The mode of a directory (a nested tree).
pub open spec fn dir_mode() -> Seq<char> {
    seq!['0', '4', '0', '0', '0', '0']
}

/// The name of the repository's own directory, which snapshots leave out.
pub open spec fn git_dir_name() -> Seq<char> {
    seq!['.', 'g', 'i', 't']
}

impl TreeEntry {
    /// The entry of a regular file (mode `100644`).
    pub fn file(name: String, hash: String) -> (res: TreeEntry)
        ensures
            res.mode@ == file_mode(),
            res.name == name,
            res.hash == hash,
    {
        let mode = "100644";
        proof {
            reveal_strlit("100644");
            assert(mode@ =~= file_mode());
        }
        TreeEntry { mode: mode.to_owned(), name, hash }
    }

    /// The entry of a subdirectory (mode `040000`).
    pub fn directory(name: String, hash: String) -> (res: TreeEntry)
        ensures
            res.mode@ == dir_mode(),
            res.name == name,
            res.hash == hash,
    {
        let mode = "040000";
        proof {
            reveal_strlit("040000");
            assert(mode@ =~= dir_mode());
        }
        TreeEntry { mode: mode.to_owned(), name, hash }
    }
}

/// Whether a directory entry with this name is left out of snapshots: the
/// `.git` directory is.
pub fn is_skipped_entry(name: &str) -> (res: bool)
    ensures
        res == (name@ == git_dir_name()),
        res <==> name@ == seq!['.', 'g', 'i', 't'],
{
    let n = name.unicode_len();
    if n != 4 {
        return false;
    }
    let res = name.get_char(0) == '.' && name.get_char(1) == 'g' && name.get_char(2) == 'i'
        && name.get_char(3) == 't';
    proof {
        if res {
            assert(name@ =~= git_dir_name());
        } else if name@ == git_dir_name() {
            assert(name@[0] == '.' && name@[1] == 'g' && name@[2] == 'i' && name@[3] == 't');
        }
    }
    res
}

/// The text of an entry.
pub struct EntryView {
    pub mode: Seq<char>,
    pub name: Seq<char>,
    pub hash: Seq<char>,
}

impl View for TreeEntry {
    type V = EntryView;

    open spec fn view(&self) -> EntryView {
        EntryView { mode: self.mode@, name: self.name@, hash: self.hash@ }
    }
}

/// The text of each entry, in order.
pub open spec fn entry_views(entries: Seq<TreeEntry>) -> Seq<EntryView> {
    entries.map_values(|e: TreeEntry| e@)
}

/// Byte-wise lexicographic order (the order of `str`'s `cmp`), strict.
pub open spec fn bytes_lt(a: Seq<u8>, b: Seq<u8>) -> bool
    decreases a.len(),
{
    if a.len() == 0 {
        b.len() > 0
    } else if b.len() == 0 {
        false
    } else if a[0] != b[0] {
        a[0] < b[0]
    } else {
        bytes_lt(a.drop_first(), b.drop_first())
    }
}

/// The sort key of an entry: its name's bytes.
pub open spec fn name_key(e: EntryView) -> Seq<u8> {
    encode_utf8(e.name)
}

/// Entries are in non-decreasing name order.
pub open spec fn sorted_by_name(s: Seq<EntryView>) -> bool {
    forall|i: int, j: int|
        0 <= i < j < s.len() ==> !bytes_lt(name_key(#[trigger] s[j]), name_key(#[trigger] s[i]))
}

/// `order` holds the entries of `entries`, rearranged into name order.
pub open spec fn is_name_order(entries: Seq<EntryView>, order: Seq<EntryView>) -> bool {
    &&& order.to_multiset() == entries.to_multiset()
    &&& sorted_by_name(order)
}

/// One serialized entry: mode, space, name, NUL, then the raw hash bytes.
pub open spec fn entry_bytes(e: EntryView) -> Seq<u8> {
    encode_utf8(e.mode) + seq![32u8] + encode_utf8(e.name) + seq![0u8] + hex_bytes(encode_utf8(e.hash))
}

/// The entries serialized one after another.
pub open spec fn tree_bytes(s: Seq<EntryView>) -> Seq<u8>
    decreases s.len(),
{
    if s.len() == 0 {
        Seq::empty()
    } else {
        tree_bytes(s.drop_last()) + entry_bytes(s.last())
    }
}

/// Every entry's hash is hexadecimal text.
pub open spec fn all_hashes_hex(s: Seq<EntryView>) -> bool {
    forall|i: int| 0 <= i < s.len() ==> is_hex_text(encode_utf8(#[trigger] s[i].hash))
}

/// The bytes of the kind `tree`.
pub open spec fn tree_kind() -> Seq<u8> {
    seq![116u8, 114u8, 101u8, 101u8]
}

/// `file` is the stored tree object with the entries in `order`.
pub open spec fn is_tree_file(order: Seq<EntryView>, repo_dir: Seq<char>, file: ObjectFile) -> bool {
    is_stored_object(object_bytes(tree_kind(), tree_bytes(order)), repo_dir, file)
}

/// Byte order, where one sequence is a prefix of the other: the shorter one
/// comes first, and neither comes before an equal one.
pub proof fn lemma_bytes_lt_prefix(a: Seq<u8>, b: Seq<u8>)
    requires
        a.len() <= b.len(),
        b.take(a.len() as int) == a,
    ensures
        bytes_lt(a, b) <==> a.len() < b.len(),
        !bytes_lt(b, a),
    decreases a.len(),
{
    if a.len() > 0 {
        assert(b[0] == b.take(a.len() as int)[0]);
        assert(b.drop_first().take(a.drop_first().len() as int) =~= a.drop_first()) by {
            assert forall|k: int| 0 <= k < a.len() - 1 implies #[trigger] b.drop_first().take(
                a.drop_first().len() as int,
            )[k] == a.drop_first()[k] by {
                assert(b.take(a.len() as int)[k + 1] == a[k + 1]);
            }
        }
        lemma_bytes_lt_prefix(a.drop_first(), b.drop_first());
    }
}

/// Byte order, where the sequences first differ at position `i`: the one
/// with the smaller byte there, as an unsigned value, comes first.
pub proof fn lemma_bytes_lt_first_difference(a: Seq<u8>, b: Seq<u8>, i: int)
    requires
        0 <= i < a.len(),
        i < b.len(),
        a.take(i) == b.take(i),
        a[i] != b[i],
    ensures
        bytes_lt(a, b) <==> a[i] < b[i],
    decreases i,
{
    if i > 0 {
        assert(a[0] == a.take(i)[0] && b[0] == b.take(i)[0]);
        assert(a.drop_first().take(i - 1) =~= b.drop_first().take(i - 1)) by {
            assert forall|k: int| 0 <= k < i - 1 implies #[trigger] a.drop_first().take(i - 1)[k]
                == b.drop_first().take(i - 1)[k] by {
                assert(a.take(i)[k + 1] == b.take(i)[k + 1]);
                assert(a.take(i)[k + 1] == a[k + 1] && b.take(i)[k + 1] == b[k + 1]);
            }
        }
        lemma_bytes_lt_first_difference(a.drop_first(), b.drop_first(), i - 1);
    }
}

/// A tree's bytes are its entries' bytes back to back, nothing between them:
/// serializing two runs of entries one after the other is serializing each
/// and concatenating.
pub proof fn lemma_tree_bytes_concat(s: Seq<EntryView>, t: Seq<EntryView>)
    ensures
        tree_bytes(s + t) == tree_bytes(s) + tree_bytes(t),
    decreases t.len(),
{
    if t.len() == 0 {
        assert(s + t =~= s);
        assert(tree_bytes(s) + tree_bytes(t) =~= tree_bytes(s));
    } else {
        assert((s + t).drop_last() =~= s + t.drop_last());
        assert((s + t).last() == t.last());
        lemma_tree_bytes_concat(s, t.drop_last());
        assert(tree_bytes(s) + tree_bytes(t.drop_last()) + entry_bytes(t.last()) =~= tree_bytes(s)
            + (tree_bytes(t.drop_last()) + entry_bytes(t.last())));
    }
}

/// One entry is serialized as Git writes it: the mode, a space, the name, a
/// NUL byte, then the raw bytes that the hexadecimal hash spells.
pub proof fn lemma_tree_bytes_single(e: EntryView)
    ensures
        tree_bytes(seq![e]) == encode_utf8(e.mode) + seq![32u8] + encode_utf8(e.name) + seq![0u8]
            + hex_bytes(encode_utf8(e.hash)),
{
    assert(seq![e].drop_last() =~= Seq::<EntryView>::empty());
    assert(seq![e].last() == e);
    assert(tree_bytes(Seq::<EntryView>::empty()) == Seq::<u8>::empty());
    assert(tree_bytes(seq![e]) == tree_bytes(seq![e].drop_last()) + entry_bytes(seq![e].last()));
    assert(Seq::<u8>::empty() + entry_bytes(e) =~= entry_bytes(e));
}

/// `bytes_lt` is transitive.
pub proof fn lemma_bytes_lt_transitive(a: Seq<u8>, b: Seq<u8>, c: Seq<u8>)
    requires
        bytes_lt(a, b),
        bytes_lt(b, c),
    ensures
        bytes_lt(a, c),
    decreases a.len(),
{
    if a.len() > 0 && b.len() > 0 && c.len() > 0 && a[0] == b[0] && b[0] == c[0] {
        lemma_bytes_lt_transitive(a.drop_first(), b.drop_first(), c.drop_first());
    }
}

/// `bytes_lt` is a strict total order: of two different sequences, one is
/// below the other, and never both.
pub proof fn lemma_bytes_lt_total(a: Seq<u8>, b: Seq<u8>)
    ensures
        a != b ==> bytes_lt(a, b) || bytes_lt(b, a),
        !(bytes_lt(a, b) && bytes_lt(b, a)),
        !bytes_lt(a, a),
    decreases a.len(),
{
    if a.len() > 0 && b.len() > 0 && a[0] == b[0] {
        lemma_bytes_lt_total(a.drop_first(), b.drop_first());
        if a != b {
            assert(a =~= seq![a[0]] + a.drop_first());
            assert(b =~= seq![b[0]] + b.drop_first());
        }
    } else if a.len() == 0 && b.len() == 0 {
        assert(a =~= b);
    }
    if a.len() > 0 {
        lemma_bytes_lt_total(a.drop_first(), a.drop_first());
    }
}

/// Whether `a` comes strictly before `b` in byte order.
pub fn bytes_less(a: &[u8], b: &[u8]) -> (res: bool)
    ensures
        res == bytes_lt(a@, b@),
{
    let mut i: usize = 0;
    assert(a@.skip(0) =~= a@ && b@.skip(0) =~= b@);
    while i < a.len() && i < b.len()
        invariant
            i <= a@.len(),
            i <= b@.len(),
            bytes_lt(a@, b@) == bytes_lt(a@.skip(i as int), b@.skip(i as int)),
        decreases a@.len() - i,
    {
        if a[i] != b[i] {
            proof {
                assert(a@.skip(i as int)[0] == a@[i as int]);
                assert(b@.skip(i as int)[0] == b@[i as int]);
            }
            return a[i] < b[i];
        }
        proof {
            assert(a@.skip(i as int).drop_first() =~= a@.skip(i + 1));
            assert(b@.skip(i as int).drop_first() =~= b@.skip(i + 1));
        }
        i = i + 1;
    }
    i < b.len()
}

/// The first position in `sorted` whose name comes strictly after `name`.
fn insertion_point(sorted: &Vec<TreeEntry>, name: &str) -> (res: usize)
    ensures
        res <= sorted@.len(),
        forall|i: int|
            0 <= i < res ==> !bytes_lt(encode_utf8(name@), name_key(#[trigger] sorted@[i]@)),
        res < sorted@.len() ==> bytes_lt(encode_utf8(name@), name_key(sorted@[res as int]@)),
{
    let key = name.as_bytes();
    let mut i: usize = 0;
    while i < sorted.len()
        invariant
            i <= sorted@.len(),
            key@ == encode_utf8(name@),
            forall|j: int|
                0 <= j < i ==> !bytes_lt(encode_utf8(name@), name_key(#[trigger] sorted@[j]@)),
        decreases sorted@.len() - i,
    {
        if bytes_less(key, sorted[i].name.as_str().as_bytes()) {
            return i;
        }
        i = i + 1;
    }
    i
}

/// Putting `x` at a position after every entry it does not precede and
/// before the first one it precedes keeps a name order sorted.
proof fn lemma_insert_sorted(o: Seq<EntryView>, p: int, x: EntryView)
    requires
        sorted_by_name(o),
        0 <= p <= o.len(),
        forall|i: int| 0 <= i < p ==> !bytes_lt(name_key(x), name_key(#[trigger] o[i])),
        p < o.len() ==> bytes_lt(name_key(x), name_key(o[p])),
    ensures
        sorted_by_name(o.insert(p, x)),
{
    let nv = o.insert(p, x);
    assert forall|i: int, j: int| 0 <= i < j < nv.len() implies !bytes_lt(
        name_key(#[trigger] nv[j]),
        name_key(#[trigger] nv[i]),
    ) by {
        if j < p {
            assert(nv[i] == o[i] && nv[j] == o[j]);
        } else if j == p {
            assert(nv[j] == x);
            assert(nv[i] == o[i]);
        } else if i == p {
            assert(nv[i] == x);
            assert(nv[j] == o[j - 1]);
            assert(bytes_lt(name_key(x), name_key(o[p])));
            if bytes_lt(name_key(o[j - 1]), name_key(x)) {
                lemma_bytes_lt_transitive(name_key(o[j - 1]), name_key(x), name_key(o[p]));
                if j - 1 > p {
                    assert(!bytes_lt(name_key(o[j - 1]), name_key(o[p])));
                } else {
                    lemma_bytes_lt_total(name_key(o[p]), name_key(o[p]));
                }
            }
        } else if i < p {
            assert(nv[i] == o[i]);
            assert(nv[j] == o[j - 1]);
        } else {
            assert(nv[i] == o[i - 1]);
            assert(nv[j] == o[j - 1]);
        }
    }
}

/// Where `x` goes in a name order: after the leading entries it does not
/// precede.
pub open spec fn insert_pos(o: Seq<EntryView>, x: EntryView) -> nat
    decreases o.len(),
{
    if o.len() == 0 {
        0
    } else if bytes_lt(name_key(x), name_key(o[0])) {
        0
    } else {
        1 + insert_pos(o.drop_first(), x)
    }
}

proof fn lemma_insert_pos(o: Seq<EntryView>, x: EntryView)
    ensures
        insert_pos(o, x) <= o.len(),
        forall|i: int| 0 <= i < insert_pos(o, x) ==> !bytes_lt(name_key(x), name_key(#[trigger] o[i])),
        insert_pos(o, x) < o.len() ==> bytes_lt(name_key(x), name_key(o[insert_pos(o, x) as int])),
    decreases o.len(),
{
    if o.len() > 0 && !bytes_lt(name_key(x), name_key(o[0])) {
        let d = o.drop_first();
        lemma_insert_pos(d, x);
        assert forall|i: int| 0 <= i < insert_pos(o, x) implies !bytes_lt(name_key(x), name_key(#[trigger] o[i])) by {
            if i > 0 {
                assert(o[i] == d[i - 1]);
            }
        }
        if insert_pos(o, x) < o.len() {
            assert(o[insert_pos(o, x) as int] == d[insert_pos(d, x) as int]);
        }
    }
}

/// Every sequence of entries has a name order.
pub proof fn lemma_name_order_exists(s: Seq<EntryView>)
    ensures
        exists|o: Seq<EntryView>| is_name_order(s, o),
    decreases s.len(),
{
    if s.len() == 0 {
        assert(is_name_order(s, s));
    } else {
        let rest = s.drop_last();
        let x = s.last();
        lemma_name_order_exists(rest);
        let o = choose|o: Seq<EntryView>| is_name_order(rest, o);
        lemma_insert_pos(o, x);
        let p = insert_pos(o, x) as int;
        lemma_insert_sorted(o, p, x);
        let n = o.insert(p, x);
        assert(s =~= rest.push(x));
        assert(n.to_multiset() == o.to_multiset().insert(x));
        assert(is_name_order(s, n));
    }
}

/// Rearranges entries into name order (byte order of the names).
pub fn sort_entries(entries: Vec<TreeEntry>) -> (res: Vec<TreeEntry>)
    ensures
        is_name_order(entry_views(entries@), entry_views(res@)),
        entry_views(res@).to_multiset() == entry_views(entries@).to_multiset(),
        forall|i: int, j: int|
            0 <= i < j < res@.len() ==> !bytes_lt(
                encode_utf8((#[trigger] res@[j]).name@),
                encode_utf8((#[trigger] res@[i]).name@),
            ),
{
    let ghost original = entry_views(entries@);
    let mut input = entries;
    let mut out: Vec<TreeEntry> = Vec::new();
    assert(entry_views(out@) =~= Seq::<EntryView>::empty());
    while input.len() > 0
        invariant
            entry_views(out@).to_multiset().add(entry_views(input@).to_multiset())
                == original.to_multiset(),
            sorted_by_name(entry_views(out@)),
        decreases input@.len(),
    {
        let ghost before_in = input@;
        let ghost before_out = out@;
        let e = match input.pop() {
            Some(e) => e,
            None => { return out; },
        };
        let p = insertion_point(&out, e.name.as_str());
        let ghost ev = e@;
        out.insert(p, e);
        proof {
            let vin = entry_views(before_in);
            let vout = entry_views(before_out);
            assert(entry_views(input@) =~= vin.drop_last());
            assert(vin =~= vin.drop_last().push(ev));
            assert(entry_views(out@) =~= vout.insert(p as int, ev));
            assert(vin.to_multiset() =~= vin.drop_last().to_multiset().insert(ev));
            assert(entry_views(out@).to_multiset() =~= vout.to_multiset().insert(ev));
            lemma_insert_sorted(vout, p as int, ev);
        }
    }
    proof {
        assert(entry_views(input@) =~= Seq::<EntryView>::empty());
        assert(entry_views(input@).to_multiset() =~= Multiset::<EntryView>::empty());
        assert(entry_views(out@).to_multiset().add(Multiset::empty()) =~= entry_views(out@).to_multiset());
        let v = entry_views(out@);
        assert forall|i: int, j: int| 0 <= i < j < out@.len() implies !bytes_lt(
            encode_utf8((#[trigger] out@[j]).name@),
            encode_utf8((#[trigger] out@[i]).name@),
        ) by {
            assert(v[i] == out@[i]@ && v[j] == out@[j]@);
            assert(!bytes_lt(name_key(v[j]), name_key(v[i])));
        }
    }
    out
}


/// Writes the entries, in the given order, as a tree's content.
pub fn serialize_tree(entries: &Vec<TreeEntry>) -> (res: Result<Vec<u8>, TreeError>)
    ensures
        all_hashes_hex(entry_views(entries@)) <==> res is Ok,
        res matches Ok(b) ==> b@ == tree_bytes(entry_views(entries@)),
        res matches Err(e) ==> e is Hex,
{
    let ghost v = entry_views(entries@);
    let mut out: Vec<u8> = Vec::new();
    let mut i: usize = 0;
    assert(v.take(0) =~= Seq::<EntryView>::empty());
    while i < entries.len()
        invariant
            v == entry_views(entries@),
            i <= entries@.len(),
            out@ == tree_bytes(v.take(i as int)),
            forall|j: int| 0 <= j < i ==> is_hex_text(encode_utf8(#[trigger] v[j].hash)),
        decreases entries@.len() - i,
    {
        let e = &entries[i];
        let hash_text = e.hash.as_str().as_bytes();
        let decoded = match hex_decode(hash_text) {
            Ok(d) => d,
            Err(err) => {
                proof {
                    assert(v[i as int] == e@);
                    assert(hash_text@ == encode_utf8(e.hash@));
                    assert(!is_hex_text(encode_utf8(v[i as int].hash)));
                }
                return Err(TreeError::Hex(err));
            },
        };
        let ghost before = out@;
        push_slice(&mut out, e.mode.as_str().as_bytes());
        out.push(32);
        push_slice(&mut out, e.name.as_str().as_bytes());
        out.push(0);
        push_slice(&mut out, decoded.as_slice());
        proof {
            assert(v[i as int] == e@);
            assert(v.take(i + 1).drop_last() =~= v.take(i as int));
            assert(v.take(i + 1).last() == e@);
            assert(out@ =~= before + entry_bytes(e@));
        }
        i = i + 1;
    }
    assert(v.take(entries@.len() as int) =~= v);
    Ok(out)
}

/// Rearranging entries keeps whether all of their hashes are hexadecimal.
proof fn lemma_all_hex_permutation(a: Seq<EntryView>, b: Seq<EntryView>)
    requires
        a.to_multiset() == b.to_multiset(),
        all_hashes_hex(a),
    ensures
        all_hashes_hex(b),
{
    assert forall|i: int| 0 <= i < b.len() implies is_hex_text(encode_utf8(#[trigger] b[i].hash)) by {
        let x = b[i];
        assert(b.contains(x));
        assert(b.to_multiset().count(x) > 0);
        assert(a.contains(x));
        let j = choose|j: int| 0 <= j < a.len() && a[j] == x;
        assert(is_hex_text(encode_utf8(a[j].hash)));
    }
}

/// The tree object for a directory's entries, ready to store: entries are
/// put in name order, serialized, and framed as an object of kind `tree`.
/// Fails exactly where an entry's hash is not hexadecimal text.
pub fn write_tree(entries: Vec<TreeEntry>, repo_dir: &str) -> (res: Result<ObjectFile, TreeError>)
    ensures
        !all_hashes_hex(entry_views(entries@)) ==> res matches Err(TreeError::Hex(_)),
        all_hashes_hex(entry_views(entries@)) ==> res is Ok,
        res matches Ok(file) ==> exists|order: Seq<EntryView>|
            #[trigger] is_name_order(entry_views(entries@), order) && is_tree_file(
                order,
                repo_dir@,
                file,
            ),
{
    let ghost v = entry_views(entries@);
    let sorted = sort_entries(entries);
    let content = match serialize_tree(&sorted) {
        Ok(c) => c,
        Err(e) => {
            proof {
                if all_hashes_hex(v) {
                    lemma_all_hex_permutation(v, entry_views(sorted@));
                }
            }
            return Err(e);
        },
    };
    proof {
        if !all_hashes_hex(v) {
            lemma_all_hex_permutation(entry_views(sorted@), v);
        }
    }
    let kind = "tree";
    proof {
        reveal_strlit("tree");
        assert(kind@ =~= ascii_chars(tree_kind()));
        lemma_ascii_utf8(tree_kind());
    }
    match write_object(kind, content.as_slice(), repo_dir) {
        Ok(file) => {
            proof {
                assert(is_tree_file(entry_views(sorted@), repo_dir@, file));
                assert(is_name_order(v, entry_views(sorted@)));
            }
            Ok(file)
        },
        Err(e) => Err(TreeError::Object(e)),
    }
}


/// No two entries share a name.
pub open spec fn distinct_names(s: Seq<EntryView>) -> bool {
    forall|i: int, j: int|
        0 <= i < j < s.len() ==> (#[trigger] s[i]).name != (#[trigger] s[j]).name
}

/// An element held at two positions occurs at least twice.
proof fn lemma_count_two(s: Seq<EntryView>, i: int, j: int)
    requires
        0 <= i < s.len(),
        0 <= j < s.len(),
        i != j,
        s[i] == s[j],
    ensures
        s.to_multiset().count(s[i]) >= 2,
{
    let r = s.remove(j);
    let k = if i < j { i } else { i - 1 };
    assert(r[k] == s[i]);
    assert(r.contains(s[i]));
    assert(r.to_multiset() == s.to_multiset().remove(s[j]));
    assert(r.to_multiset().count(s[i]) > 0);
}

/// An element that occurs at least twice is held at two positions.
proof fn lemma_two_positions(s: Seq<EntryView>, x: EntryView) -> (res: (int, int))
    requires
        s.to_multiset().count(x) >= 2,
    ensures
        0 <= res.0 < s.len(),
        0 <= res.1 < s.len(),
        res.0 != res.1,
        s[res.0] == x,
        s[res.1] == x,
{
    assert(s.contains(x));
    let p = choose|p: int| 0 <= p < s.len() && s[p] == x;
    let r = s.remove(p);
    assert(r.to_multiset() == s.to_multiset().remove(s[p]));
    assert(r.to_multiset().count(x) > 0);
    assert(r.contains(x));
    let q = choose|q: int| 0 <= q < r.len() && r[q] == x;
    if q < p {
        assert(s[q] == r[q]);
        (p, q)
    } else {
        assert(s[q + 1] == r[q]);
        (p, q + 1)
    }
}

/// Rearranging entries with distinct names keeps the names distinct.
proof fn lemma_distinct_names_transfer(a: Seq<EntryView>, o: Seq<EntryView>)
    requires
        a.to_multiset() == o.to_multiset(),
        distinct_names(a),
    ensures
        distinct_names(o),
{
    assert forall|i: int, j: int| 0 <= i < j < o.len() implies (#[trigger] o[i]).name
        != (#[trigger] o[j]).name by {
        if o[i].name == o[j].name {
            if o[i] == o[j] {
                lemma_count_two(o, i, j);
                let (p, q) = lemma_two_positions(a, o[i]);
                if p < q {
                    assert(a[p].name != a[q].name);
                } else {
                    assert(a[q].name != a[p].name);
                }
            } else {
                assert(o.contains(o[i]) && o.contains(o[j]));
                assert(o.to_multiset().count(o[i]) > 0 && o.to_multiset().count(o[j]) > 0);
                assert(a.contains(o[i]) && a.contains(o[j]));
                let p = choose|p: int| 0 <= p < a.len() && a[p] == o[i];
                let q = choose|q: int| 0 <= q < a.len() && a[q] == o[j];
                if p < q {
                    assert(a[p].name != a[q].name);
                } else {
                    assert(a[q].name != a[p].name);
                }
            }
        }
    }
}

/// Two name orders of the same entries, with distinct names, are equal.
proof fn lemma_sorted_unique(o1: Seq<EntryView>, o2: Seq<EntryView>)
    requires
        o1.to_multiset() == o2.to_multiset(),
        sorted_by_name(o1),
        sorted_by_name(o2),
        distinct_names(o1),
    ensures
        o1 == o2,
    decreases o1.len(),
{
    assert(o1.len() == o1.to_multiset().len());
    assert(o2.len() == o2.to_multiset().len());
    if o1.len() == 0 {
        assert(o1 =~= o2);
        return;
    }
    let x = o1[0];
    let y = o2[0];
    if x != y {
        assert(o1.contains(x));
        assert(o2.to_multiset().count(x) > 0);
        assert(o2.contains(x));
        let k = choose|k: int| 0 <= k < o2.len() && o2[k] == x;
        assert(o2.contains(y));
        assert(o1.to_multiset().count(y) > 0);
        assert(o1.contains(y));
        let k2 = choose|k2: int| 0 <= k2 < o1.len() && o1[k2] == y;
        assert(k > 0 && k2 > 0);
        assert(!bytes_lt(name_key(o2[k]), name_key(o2[0])));
        assert(!bytes_lt(name_key(o1[k2]), name_key(o1[0])));
        lemma_bytes_lt_total(name_key(x), name_key(y));
        encode_utf8_decode_utf8(x.name);
        encode_utf8_decode_utf8(y.name);
        assert(x.name == y.name);
        assert(o1[0].name != o1[k2].name);
    }
    let r1 = o1.drop_first();
    let r2 = o2.drop_first();
    assert(o1.remove(0) =~= r1);
    assert(o2.remove(0) =~= r2);
    assert(r1.to_multiset() == o1.to_multiset().remove(x));
    assert(r2.to_multiset() == o2.to_multiset().remove(y));
    assert forall|i: int, j: int| 0 <= i < j < r1.len() implies !bytes_lt(
        name_key(#[trigger] r1[j]),
        name_key(#[trigger] r1[i]),
    ) by {
        assert(r1[i] == o1[i + 1] && r1[j] == o1[j + 1]);
    }
    assert forall|i: int, j: int| 0 <= i < j < r2.len() implies !bytes_lt(
        name_key(#[trigger] r2[j]),
        name_key(#[trigger] r2[i]),
    ) by {
        assert(r2[i] == o2[i + 1] && r2[j] == o2[j + 1]);
    }
    assert forall|i: int, j: int| 0 <= i < j < r1.len() implies (#[trigger] r1[i]).name
        != (#[trigger] r1[j]).name by {
        assert(r1[i] == o1[i + 1] && r1[j] == o1[j + 1]);
    }
    lemma_sorted_unique(r1, r2);
    assert(o1 =~= o2) by {
        assert forall|i: int| 0 <= i < o1.len() implies o1[i] == o2[i] by {
            if i > 0 {
                assert(o1[i] == r1[i - 1] && o2[i] == r2[i - 1]);
            }
        }
    }
}

/// Entries with distinct names hold each entry at most once.
pub proof fn lemma_distinct_names_once(s: Seq<EntryView>, x: EntryView)
    requires
        distinct_names(s),
    ensures
        s.to_multiset().count(x) <= 1,
{
    if s.to_multiset().count(x) >= 2 {
        let (p, q) = lemma_two_positions(s, x);
        if p < q {
            assert(s[p].name != s[q].name);
        } else {
            assert(s[q].name != s[p].name);
        }
    }
}

/// A directory's tree does not depend on the order in which its entries
/// arrive: for entries with distinct names, every rearrangement has the same
/// name order, hence the same serialized tree.
pub proof fn lemma_tree_order_independent(
    a: Seq<EntryView>,
    b: Seq<EntryView>,
    order_a: Seq<EntryView>,
    order_b: Seq<EntryView>,
)
    requires
        a.to_multiset() == b.to_multiset(),
        distinct_names(a),
        is_name_order(a, order_a),
        is_name_order(b, order_b),
    ensures
        order_a == order_b,
        tree_bytes(order_a) == tree_bytes(order_b),
{
    lemma_distinct_names_transfer(a, order_a);
    lemma_sorted_unique(order_a, order_b);
}


/// Two tree objects written by `write_tree` for the same entries, arriving in
/// any two orders, are the same object (same name, same stored bytes) when
/// the names are distinct.
pub proof fn lemma_write_tree_order_independent(
    a: Seq<EntryView>,
    b: Seq<EntryView>,
    repo_dir: Seq<char>,
    file_a: ObjectFile,
    file_b: ObjectFile,
)
    requires
        a.to_multiset() == b.to_multiset(),
        distinct_names(a),
        exists|o: Seq<EntryView>| #[trigger] is_name_order(a, o) && is_tree_file(o, repo_dir, file_a),
        exists|o: Seq<EntryView>| #[trigger] is_name_order(b, o) && is_tree_file(o, repo_dir, file_b),
    ensures
        file_a.hash@ == file_b.hash@,
        file_a.path@ == file_b.path@,
        file_a.data@ == file_b.data@,
{
    let oa = choose|o: Seq<EntryView>| #[trigger] is_name_order(a, o) && is_tree_file(o, repo_dir, file_a);
    let ob = choose|o: Seq<EntryView>| #[trigger] is_name_order(b, o) && is_tree_file(o, repo_dir, file_b);
    lemma_tree_order_independent(a, b, oa, ob);
}

} // verus!
