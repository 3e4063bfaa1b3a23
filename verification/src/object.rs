//! Git objects: the `"<kind> <size>\0<content>"` framing, SHA-1 content
//! addressing, zlib storage, and the location of an object under
//! `.git/objects`.

use vstd::prelude::*;
use vstd::string::*;
use vstd::utf8::*;

use crate::encoding::{
    all_digits, ascii_chars, ascii_string, decimal, find_byte, first_index, hex_lower, is_ascii_bytes,
    lemma_ascii_utf8, lemma_decimal_parses, lemma_encode_avoids, lemma_first_index,
    parses_as_usize, push_decimal, push_slice, to_hex_lower, usize_value,
};
use crate::outside::{
    parse_usize, sha1, sha1_digest, utf8_str, zlib_compress, zlib_decode, zlib_decompress,
    zlib_encode,
};
use crate::paths::{git_dir_path, git_path, join, join_path};

verus! {

/// Errors of object framing, storage and lookup.
#[derive(Debug)]
pub enum ObjectError {
    /// Reading, writing or (de)compressing the stored bytes failed.
    Io(std::io::Error),
    /// The object header is not valid UTF-8.
    Utf8(std::str::Utf8Error),
    /// The declared size is not an unsigned decimal number.
    ParseInt(std::num::ParseIntError),
    /// The stored object has no NUL byte ending its header.
    MissingNullSeparator,
    /// The header names no object kind. Reading never reports it: the kind
    /// is whatever precedes the header's first space, possibly empty.
    MissingObjectType,
    /// The header has no size after the kind.
    MissingSizeDeclaration,
    /// The declared size differs from the content's length.
    SizeMismatch { expected: usize, actual: usize },
    /// The hash is not 40 bytes long or cannot be split after its second byte.
    InvalidHashLength,
    /// The object's file path has no parent directory (reported by the code
    /// that creates the directory before writing the file).
    InvalidObjectPath,
}

/// The full object `"<kind> <content length>\0<content>"`.
pub open spec fn object_bytes(kind: Seq<u8>, content: Seq<u8>) -> Seq<u8> {
    kind + seq![32u8] + decimal(content.len()) + seq![0u8] + content
}

/// The object's name: the lowercase hexadecimal SHA-1 of the full object.
pub open spec fn object_id(object: Seq<u8>) -> Seq<char> {
    ascii_chars(hex_lower(sha1(object)))
}

/// A character is a lowercase hexadecimal digit.
pub open spec fn is_lower_hex_char(c: char) -> bool {
    ('0' <= c <= '9') || ('a' <= c <= 'f')
}

/// 40 lowercase hexadecimal digits.
pub open spec fn is_object_name(name: Seq<char>) -> bool {
    &&& name.len() == 40
    &&& forall|i: int| 0 <= i < name.len() ==> is_lower_hex_char(#[trigger] name[i])
}

/// A hash that `object_path` accepts: 40 bytes, with a character boundary
/// after the second byte.
pub open spec fn is_path_hash(hash: Seq<char>) -> bool {
    &&& encode_utf8(hash).len() == 40
    &&& is_char_boundary(encode_utf8(hash), 2)
}

/// `<repo_dir>/.git/objects/<first two bytes of hash>/<rest of hash>`.
pub open spec fn object_file_path(repo_dir: Seq<char>, hash: Seq<char>) -> Seq<char> {
    let b = encode_utf8(hash);
    join_path(
        join_path(git_path(repo_dir, seq!['o', 'b', 'j', 'e', 'c', 't', 's']), decode_utf8(b.take(2))),
        decode_utf8(b.skip(2)),
    )
}

/// What the header and content of a decompressed object come to, in the
/// order in which they are checked.
pub enum RawObject {
    /// No NUL byte ends the header.
    MissingNul,
    /// The header is not valid UTF-8.
    BadUtf8Header,
    /// The header has no space, so no size.
    MissingSize,
    /// The size is not accepted by `str::parse::<usize>`.
    BadSize,
    /// The declared size differs from the content's length.
    SizeMismatch { declared: nat, actual: nat },
    /// A well-formed object: its kind and content.
    Parsed { kind: Seq<char>, content: Seq<u8> },
}

/// Reading a decompressed object: the header runs up to the first NUL and
/// must be UTF-8; the kind runs up to the header's first space and the size
/// follows it; the size must parse as a `usize` and equal the content length.
pub open spec fn parse_raw_object(raw: Seq<u8>) -> RawObject {
    let nul = first_index(raw, 0);
    if nul < 0 {
        RawObject::MissingNul
    } else {
        let header = raw.take(nul);
        let content = raw.skip(nul + 1);
        if !valid_utf8(header) {
            RawObject::BadUtf8Header
        } else {
            let sp = first_index(header, 32);
            if sp < 0 {
                RawObject::MissingSize
            } else {
                let size = header.skip(sp + 1);
                if !parses_as_usize(size) {
                    RawObject::BadSize
                } else if usize_value(size) != content.len() {
                    RawObject::SizeMismatch { declared: usize_value(size), actual: content.len() }
                } else {
                    RawObject::Parsed { kind: decode_utf8(header.take(sp)), content }
                }
            }
        }
    }
}

/// What reading stored (compressed) object bytes comes to; `None` where they
/// do not decompress.
pub open spec fn stored_object(stored: Seq<u8>) -> Option<RawObject> {
    match zlib_decompress(stored) {
        Some(raw) => Some(parse_raw_object(raw)),
        None => None,
    }
}

/// `file` stores the full object `object`: its name is the object's SHA-1
/// (40 lowercase hexadecimal digits), its path is where that name lives under
/// `repo_dir`, and its bytes are the zlib-compressed object.
pub open spec fn is_stored_object(object: Seq<u8>, repo_dir: Seq<char>, file: ObjectFile) -> bool {
    &&& file.hash@ == object_id(object)
    &&& is_object_name(file.hash@)
    &&& file.path@ == object_file_path(repo_dir, file.hash@)
    &&& file.data@ == zlib_compress(object)
    &&& zlib_decompress(file.data@) == Some(object)
}

/// An object ready to be stored: its name, the file it goes to, and the
/// compressed bytes to put there.
#[derive(Debug)]
pub struct ObjectFile {
    pub hash: String,
    pub path: String,
    pub data: Vec<u8>,
}

/// Builds the full object `"<kind> <size>\0<content>"`.
pub fn create_object(kind: &str, content: &[u8]) -> (res: Result<Vec<u8>, ObjectError>)
    ensures
        res matches Ok(obj) && obj@ == object_bytes(kind.spec_bytes(), content@),
{
    let mut obj: Vec<u8> = Vec::new();
    push_slice(&mut obj, kind.as_bytes());
    obj.push(32);
    push_decimal(&mut obj, content.len() as u64);
    obj.push(0);
    push_slice(&mut obj, content);
    Ok(obj)
}

/// Lowercase hexadecimal text is ASCII, made of `0-9a-f`, two digits a byte.
proof fn lemma_hex_lower_ascii(bytes: Seq<u8>)
    requires
        bytes.len() == 20,
    ensures
        is_ascii_bytes(hex_lower(bytes)),
        is_object_name(ascii_chars(hex_lower(bytes))),
{
    let h = hex_lower(bytes);
    assert forall|i: int| 0 <= i < h.len() implies #[trigger] h[i] < 128
        && is_lower_hex_char(h[i] as char) by {
        let b = bytes[i / 2];
        assert(b / 16 < 16 && b % 16 < 16) by (nonlinear_arith);
    }
    let c = ascii_chars(h);
    assert forall|i: int| 0 <= i < c.len() implies is_lower_hex_char(#[trigger] c[i]) by {
        assert(c[i] == h[i] as char);
    }
}

/// The lowercase hexadecimal SHA-1 of `object`.
pub fn hash_object(object: &[u8]) -> (res: String)
    ensures
        res@ == object_id(object@),
        is_object_name(res@),
{
    let digest = sha1_digest(object);
    let hex = to_hex_lower(digest.as_slice());
    proof {
        lemma_hex_lower_ascii(digest@);
    }
    ascii_string(hex.as_slice())
}

/// Compresses `object` with zlib.
pub fn compress_object(object: &[u8]) -> (res: Result<Vec<u8>, ObjectError>)
    ensures
        res is Ok,
        res matches Ok(v) ==> v@ == zlib_compress(object@) && zlib_decompress(v@) == Some(object@),
{
    match zlib_encode(object) {
        Ok(v) => Ok(v),
        Err(e) => Err(ObjectError::Io(e)),
    }
}

/// The file that holds the object named `hash`:
/// `<repo_dir>/.git/objects/<first two bytes>/<remaining bytes>`.
pub fn object_path(hash: &str, repo_dir: &str) -> (res: Result<String, ObjectError>)
    ensures
        is_path_hash(hash@) <==> res is Ok,
        res matches Ok(p) ==> p@ == object_file_path(repo_dir@, hash@),
        res matches Err(e) ==> e is InvalidHashLength,
{
    if hash.as_bytes().len() != 40 {
        return Err(ObjectError::InvalidHashLength);
    }
    if !hash.is_char_boundary(2) {
        return Err(ObjectError::InvalidHashLength);
    }
    let (dir, file_name) = hash.split_at(2);
    proof {
        let b = hash.spec_bytes();
        encode_utf8_valid_utf8(hash@);
        valid_utf8_split(b, 2);
        encode_utf8_decode_utf8(dir@);
        encode_utf8_decode_utf8(file_name@);
        assert(dir@ == decode_utf8(b.take(2)));
        assert(file_name@ == decode_utf8(b.skip(2)));
    }
    let objects = "objects";
    proof {
        reveal_strlit("objects");
        assert(objects@ =~= seq!['o', 'b', 'j', 'e', 'c', 't', 's']);
    }
    let base = git_dir_path(repo_dir, objects);
    let with_dir = join(base.as_str(), dir);
    Ok(join(with_dir.as_str(), file_name))
}

/// ASCII text has a character boundary at every position.
proof fn lemma_ascii_boundary(bytes: Seq<u8>, i: int)
    requires
        is_ascii_bytes(bytes),
        0 <= i <= bytes.len(),
    ensures
        valid_utf8(bytes),
        is_char_boundary(bytes, i),
{
    lemma_ascii_utf8(bytes);
    if i == bytes.len() {
        is_char_boundary_start_end_of_seq(bytes);
    } else {
        is_char_boundary_iff_not_is_continuation_byte(bytes, i);
    }
}

/// Prepares the object `"<kind> <size>\0<content>"` for storage: its name
/// (the SHA-1 of the full object), the file under `repo_dir` that holds it,
/// and the zlib-compressed bytes to write there.
pub fn write_object(kind: &str, content: &[u8], repo_dir: &str) -> (res: Result<
    ObjectFile,
    ObjectError,
>)
    ensures
        res matches Ok(file) && is_stored_object(
            object_bytes(kind.spec_bytes(), content@),
            repo_dir@,
            file,
        ),
{
    let object = match create_object(kind, content) {
        Ok(o) => o,
        Err(e) => return Err(e),
    };
    let hash = hash_object(object.as_slice());
    let data = compress_object(object.as_slice())?;
    proof {
        let h = hex_lower(sha1(object@));
        lemma_hex_lower_ascii(sha1(object@));
        lemma_ascii_utf8(h);
        assert(encode_utf8(hash@) == h);
        lemma_ascii_boundary(h, 2);
    }
    let path = match object_path(hash.as_str(), repo_dir) {
        Ok(p) => p,
        Err(e) => return Err(e),
    };
    Ok(ObjectFile { hash, path, data })
}

/// Reads stored object bytes: decompresses them, then checks and splits the
/// header `"<kind> <size>"` from the content.
pub fn read_object(stored: &[u8]) -> (res: Result<(String, Vec<u8>), ObjectError>)
    ensures
        match stored_object(stored@) {
            None => res matches Err(ObjectError::Io(_)),
            Some(RawObject::MissingNul) => res matches Err(ObjectError::MissingNullSeparator),
            Some(RawObject::BadUtf8Header) => res matches Err(ObjectError::Utf8(_)),
            Some(RawObject::MissingSize) => res matches Err(ObjectError::MissingSizeDeclaration),
            Some(RawObject::BadSize) => res matches Err(ObjectError::ParseInt(_)),
            Some(RawObject::SizeMismatch { declared, actual }) => res matches Err(
                ObjectError::SizeMismatch { expected, actual: a },
            ) && expected == declared && a == actual,
            Some(RawObject::Parsed { kind, content }) => res matches Ok((k, c)) && k@ == kind
                && c@ == content,
        },
{
    let raw = match zlib_decode(stored) {
        Ok(v) => v,
        Err(e) => return Err(ObjectError::Io(e)),
    };
    parse_object(raw.as_slice())
}

/// Checks and splits a decompressed object.
pub fn parse_object(raw: &[u8]) -> (res: Result<(String, Vec<u8>), ObjectError>)
    ensures
        match parse_raw_object(raw@) {
            RawObject::MissingNul => res matches Err(ObjectError::MissingNullSeparator),
            RawObject::BadUtf8Header => res matches Err(ObjectError::Utf8(_)),
            RawObject::MissingSize => res matches Err(ObjectError::MissingSizeDeclaration),
            RawObject::BadSize => res matches Err(ObjectError::ParseInt(_)),
            RawObject::SizeMismatch { declared, actual } => res matches Err(
                ObjectError::SizeMismatch { expected, actual: a },
            ) && expected == declared && a == actual,
            RawObject::Parsed { kind, content } => res matches Ok((k, c)) && k@ == kind && c@
                == content,
        },
{
    let nul = match find_byte(raw, 0) {
        Some(i) => i,
        None => return Err(ObjectError::MissingNullSeparator),
    };
    let raw_len = raw.len();
    assert(nul < raw_len);
    let header = &raw[0..nul];
    let content_slice = &raw[nul + 1..raw_len];
    proof {
        assert(header@ == raw@.take(nul as int));
        assert(content_slice@ == raw@.skip(nul + 1));
    }
    match utf8_str(header) {
        Ok(_) => {},
        Err(e) => return Err(ObjectError::Utf8(e)),
    }
    let sp = match find_byte(header, 32) {
        Some(i) => i,
        None => return Err(ObjectError::MissingSizeDeclaration),
    };
    let kind_bytes = &header[0..sp];
    let size_bytes = &header[sp + 1..header.len()];
    proof {
        let h = header@;
        let s = sp as int;
        is_char_boundary_iff_not_is_continuation_byte(h, s);
        valid_utf8_split(h, s);
        assert(kind_bytes@ == h.subrange(0, s));
        let rest = h.subrange(s, h.len() as int);
        assert(rest[0] == 32u8);
        assert(rest.len() > 0);
        assert(valid_first_scalar(rest));
        assert(length_of_first_scalar(rest) == 1);
        assert(pop_first_scalar(rest) =~= size_bytes@);
        assert(size_bytes@ == h.skip(s + 1));
    }
    let kind = match utf8_str(kind_bytes) {
        Ok(k) => k,
        Err(e) => return Err(ObjectError::Utf8(e)),
    };
    let size_text = match utf8_str(size_bytes) {
        Ok(t) => t,
        Err(e) => return Err(ObjectError::Utf8(e)),
    };
    proof {
        decode_utf8_encode_utf8(size_bytes@);
        assert(size_text.spec_bytes() == size_bytes@);
    }
    let declared = match parse_usize(size_text) {
        Ok(n) => n,
        Err(e) => return Err(ObjectError::ParseInt(e)),
    };
    let mut content: Vec<u8> = Vec::new();
    push_slice(&mut content, content_slice);
    if declared != content.len() {
        return Err(ObjectError::SizeMismatch { expected: declared, actual: content.len() });
    }
    Ok((kind.to_owned(), content))
}

/// A kind without spaces or NUL characters, stored with any content, reads
/// back as that kind and content: `parse_raw_object` undoes `object_bytes`.
pub proof fn lemma_object_roundtrip(kind: Seq<char>, content: Seq<u8>)
    requires
        forall|i: int| 0 <= i < kind.len() ==> #[trigger] kind[i] != ' ' && kind[i] != '\0',
        content.len() <= usize::MAX,
    ensures
        parse_raw_object(object_bytes(encode_utf8(kind), content)) == (RawObject::Parsed {
            kind,
            content,
        }),
{
    let k = encode_utf8(kind);
    let d = decimal(content.len());
    let raw = object_bytes(k, content);
    assert forall|i: int| 0 <= i < kind.len() implies #[trigger] kind[i] as u32 != 32u8 as u32 by {
        char_u32_cast(kind[i], kind[i] as u32);
        assert(kind[i] != ' ');
    }
    lemma_encode_avoids(kind, 32u8);
    assert forall|i: int| 0 <= i < kind.len() implies #[trigger] kind[i] as u32 != 0u8 as u32 by {
        char_u32_cast(kind[i], kind[i] as u32);
        assert(kind[i] != '\0');
    }
    lemma_encode_avoids(kind, 0u8);
    lemma_decimal_parses(content.len());
    crate::encoding::lemma_decimal_shape(content.len());
    let nul: int = (k.len() + 1 + d.len()) as int;
    assert(raw[nul] == 0u8);
    assert forall|j: int| 0 <= j < nul implies #[trigger] raw[j] != 0u8 by {
        if j < k.len() {
            assert(raw[j] == k[j]);
        } else if j == k.len() {
            assert(raw[j] == 32u8);
        } else {
            assert(raw[j] == d[j - k.len() - 1]);
            assert(all_digits(d));
        }
    }
    lemma_first_index(raw, 0u8, nul);
    let header = raw.take(nul);
    assert(header =~= k + seq![32u8] + d);
    assert(raw.skip(nul + 1) =~= content);
    assert forall|j: int| 0 <= j < k.len() implies #[trigger] header[j] != 32u8 by {
        assert(header[j] == k[j]);
    }
    lemma_first_index(header, 32u8, k.len() as int);
    assert(header.take(k.len() as int) =~= k);
    assert(header.skip(k.len() as int + 1) =~= d);
    lemma_digits_ascii_utf8(d);
    encode_utf8_valid_utf8(kind);
    assert(valid_utf8(seq![32u8] + d)) by {
        lemma_digits_ascii_utf8(seq![32u8] + d);
    }
    valid_utf8_concat(k, seq![32u8] + d);
    assert(k + (seq![32u8] + d) =~= header);
    encode_utf8_decode_utf8(kind);
}

/// Digits and spaces are ASCII, hence valid UTF-8.
proof fn lemma_digits_ascii_utf8(s: Seq<u8>)
    requires
        forall|i: int| 0 <= i < s.len() ==> #[trigger] s[i] <= 57,
    ensures
        valid_utf8(s),
{
    assert(is_ascii_bytes(s));
    lemma_ascii_utf8(s);
}

/// Reading back what `write_object` stored gives the kind and content that
/// went in, for any kind without spaces or NUL characters.
pub proof fn lemma_read_after_write(kind: Seq<char>, content: Seq<u8>, stored: Seq<u8>)
    requires
        forall|i: int| 0 <= i < kind.len() ==> #[trigger] kind[i] != ' ' && kind[i] != '\0',
        content.len() <= usize::MAX,
        zlib_decompress(stored) == Some(object_bytes(encode_utf8(kind), content)),
    ensures
        stored_object(stored) == Some(RawObject::Parsed { kind, content }),
{
    lemma_object_roundtrip(kind, content);
}


/// Content addressing: storing the same kind and content gives the same
/// object name and the same stored bytes, in any repository; only the path
/// differs with the repository's directory.
pub proof fn lemma_content_addressed(
    object: Seq<u8>,
    repo_a: Seq<char>,
    repo_b: Seq<char>,
    file_a: ObjectFile,
    file_b: ObjectFile,
)
    requires
        is_stored_object(object, repo_a, file_a),
        is_stored_object(object, repo_b, file_b),
    ensures
        file_a.hash@ == file_b.hash@,
        file_a.data@ == file_b.data@,
        repo_a == repo_b ==> file_a.path@ == file_b.path@,
{
}

} // verus!
