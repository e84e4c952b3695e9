use vstd::prelude::*;
use vstd::string::*;

use crate::adapters::{
    calculate_sha_hash, hex_encode, hex_of, sha1_of, zlib_compress, zlib_decompress,
    zlib_deflated, zlib_inflated,
};
use crate::object::{
    encode_object, encode_spec, header_spec, lemma_header_of_encoding, parse_header, BlobObject,
    CommitObject, ObjectError, ObjectType,
};
use crate::tree::{entries_spec, entries_view, tree_spec, EntrySpec, TreeElement, TreeObject};

verus! {

/// What a decoded object holds.
pub enum ObjectModel {
    Blob { length: nat, data: Seq<u8> },
    Tree { length: nat, entries: Seq<EntrySpec> },
    Commit { length: nat, data: Seq<u8> },
}

/// A decoded object of one of the known types.
pub enum Object {
    Blob(BlobObject),
    Tree(TreeObject),
    Commit(CommitObject),
}

impl View for Object {
    type V = ObjectModel;

    open spec fn view(&self) -> ObjectModel {
        match self {
            Object::Blob(b) => ObjectModel::Blob { length: b.length as nat, data: b.data@ },
            Object::Tree(t) => ObjectModel::Tree {
                length: t.length as nat,
                entries: entries_view(t.elements@),
            },
            Object::Commit(c) => ObjectModel::Commit { length: c.length as nat, data: c.data@ },
        }
    }
}

/// A framed object, decoded by the type its header names.
pub open spec fn decode_spec(raw: Seq<u8>) -> Result<ObjectModel, ObjectError> {
    match header_spec(raw) {
        Err(e) => Err(e),
        Ok((t, length, start)) => match t {
            ObjectType::Blob => Ok(ObjectModel::Blob { length, data: raw.skip(start) }),
            ObjectType::Commit => Ok(ObjectModel::Commit { length, data: raw.skip(start) }),
            ObjectType::Tree => match tree_spec(raw.skip(start), length) {
                Err(e) => Err(e),
                Ok(entries) => Ok(ObjectModel::Tree { length, entries }),
            },
        },
    }
}

/// Stored bytes, inflated and then decoded.
pub open spec fn load_spec(stored: Seq<u8>) -> Result<ObjectModel, ObjectError> {
    match zlib_inflated(stored) {
        None => Err(ObjectError::CorruptStream),
        Some(raw) => decode_spec(raw),
    }
}

/// The entries listed for stored bytes, which must hold a tree.
pub open spec fn list_spec(stored: Seq<u8>) -> Result<Seq<EntrySpec>, ObjectError> {
    match load_spec(stored) {
        Err(e) => Err(e),
        Ok(ObjectModel::Tree { entries, .. }) => Ok(entries),
        Ok(_) => Err(ObjectError::TypeMismatch),
    }
}

/// The identifier of an object: the hexadecimal SHA-1 digest of its framed form.
pub open spec fn object_id_spec(t: ObjectType, payload: Seq<u8>) -> Seq<char> {
    hex_of(sha1_of(encode_spec(t, payload)))
}

/// The bytes stored for an object: its framed form, compressed.
pub open spec fn stored_spec(t: ObjectType, payload: Seq<u8>) -> Seq<u8> {
    zlib_deflated(encode_spec(t, payload))
}

/// Decodes a framed object, dispatching on the type its header names.
pub fn decode_object(input: &[u8]) -> (r: Result<Object, ObjectError>)
    ensures
        match r {
            Ok(o) => decode_spec(input@) == Ok::<ObjectModel, ObjectError>(o@),
            Err(e) => decode_spec(input@) == Err::<ObjectModel, ObjectError>(e),
        },
{
    let header = parse_header(input)?;
    match header.object_type {
        ObjectType::Blob => {
            let blob = BlobObject::from_bytes(input)?;
            Ok(Object::Blob(blob))
        },
        ObjectType::Tree => {
            let tree = TreeObject::from_bytes(input)?;
            Ok(Object::Tree(tree))
        },
        ObjectType::Commit => {
            let commit = CommitObject::from_bytes(input)?;
            Ok(Object::Commit(commit))
        },
    }
}

/// Inflates the stored bytes of an object and decodes them.
pub fn load_git_object(stored: &[u8]) -> (r: Result<Object, ObjectError>)
    ensures
        match r {
            Ok(o) => load_spec(stored@) == Ok::<ObjectModel, ObjectError>(o@),
            Err(e) => load_spec(stored@) == Err::<ObjectModel, ObjectError>(e),
        },
{
    match zlib_decompress(stored) {
        None => Err(ObjectError::CorruptStream),
        Some(raw) => decode_object(raw.as_slice()),
    }
}

/// Reads an object back from its stored bytes.
pub fn cat_file(stored: &[u8]) -> (r: Result<Object, ObjectError>)
    ensures
        match r {
            Ok(o) => load_spec(stored@) == Ok::<ObjectModel, ObjectError>(o@),
            Err(e) => load_spec(stored@) == Err::<ObjectModel, ObjectError>(e),
        },
{
    load_git_object(stored)
}

/// Lists the entries of a stored tree in their stored order; any other kind
/// of object is a `TypeMismatch`.
pub fn ls_tree(stored: &[u8]) -> (r: Result<Vec<TreeElement>, ObjectError>)
    ensures
        match r {
            Ok(es) => list_spec(stored@) == Ok::<Seq<EntrySpec>, ObjectError>(entries_view(es@)),
            Err(e) => list_spec(stored@) == Err::<Seq<EntrySpec>, ObjectError>(e),
        },
{
    match load_git_object(stored)? {
        Object::Tree(tree) => Ok(tree.elements),
        _ => Err(ObjectError::TypeMismatch),
    }
}

/// The identifier of an object and, when it is to be written, the bytes to store.
pub struct HashedObject {
    pub id: String,
    pub compressed: Option<Vec<u8>>,
}

/// Frames and hashes an object; when `write` is set, also compresses the
/// framed bytes for storage.
pub fn hash_object(object_type: ObjectType, payload: &[u8], write: bool) -> (r: HashedObject)
    ensures
        r.id@ == object_id_spec(object_type, payload@),
        write ==> (r.compressed matches Some(c) && c@ == stored_spec(object_type, payload@)
            && zlib_inflated(c@) == Some(encode_spec(object_type, payload@))),
        !write ==> r.compressed is None,
{
    let framed = encode_object(object_type, payload);
    let digest = calculate_sha_hash(framed.as_slice());
    let id = hex_encode(digest.as_slice());
    let compressed = if write {
        Some(zlib_compress(framed.as_slice()))
    } else {
        None
    };
    HashedObject { id, compressed }
}

/// How many leading characters of an identifier name its directory.
pub open spec fn fan_out_len(id: Seq<char>) -> int {
    if id.len() < 2 {
        id.len() as int
    } else {
        2
    }
}

/// Splits an identifier into the directory (its first two characters) and
/// the file name (the rest) under which the object is stored.
pub fn object_path(object_id: &str) -> (r: (String, String))
    ensures
        r.0@ == object_id@.take(fan_out_len(object_id@)),
        r.1@ == object_id@.skip(fan_out_len(object_id@)),
{
    let n = object_id.unicode_len();
    let cut: usize = if n < 2 {
        n
    } else {
        2
    };
    let dir = String::from_str(object_id.substring_char(0, cut));
    let file = String::from_str(object_id.substring_char(cut, n));
    (dir, file)
}

/// What an object written with type `t` and payload `p` reads back as:
/// a blob or a commit keeps its payload, a tree lists the entries of its payload.
pub open spec fn written_model(t: ObjectType, p: Seq<u8>) -> Result<ObjectModel, ObjectError> {
    match t {
        ObjectType::Blob => Ok(ObjectModel::Blob { length: p.len(), data: p }),
        ObjectType::Commit => Ok(ObjectModel::Commit { length: p.len(), data: p }),
        ObjectType::Tree => match entries_spec(p) {
            Err(e) => Err(e),
            Ok(entries) => Ok(ObjectModel::Tree { length: p.len(), entries }),
        },
    }
}

/// Decoding the framed form of an object gives back its type, its payload
/// length and its payload.
pub proof fn lemma_decode_encode(t: ObjectType, p: Seq<u8>)
    requires
        p.len() <= usize::MAX,
    ensures
        decode_spec(encode_spec(t, p)) == written_model(t, p),
{
    lemma_header_of_encoding(t, p);
    assert(p.take(p.len() as int) =~= p);
}

/// Round trip: bytes stored for an object (which inflate to its framed form)
/// read back as the same type with the same payload.
pub proof fn lemma_round_trip(t: ObjectType, p: Seq<u8>, stored: Seq<u8>)
    requires
        p.len() <= usize::MAX,
        zlib_inflated(stored) == Some(encode_spec(t, p)),
    ensures
        load_spec(stored) == written_model(t, p),
{
    lemma_decode_encode(t, p);
}

/// Writing is deterministic: the same type and payload always give the same
/// identifier and the same stored bytes.
pub proof fn lemma_write_deterministic(t1: ObjectType, p1: Seq<u8>, t2: ObjectType, p2: Seq<u8>)
    requires
        t1 == t2,
        p1 == p2,
    ensures
        object_id_spec(t1, p1) == object_id_spec(t2, p2),
        stored_spec(t1, p1) == stored_spec(t2, p2),
        encode_spec(t1, p1) == encode_spec(t2, p2),
{
}

/// A blob payload decodes intact, null bytes included: only the first null
/// byte, the one that ends the header, is treated specially.
pub proof fn lemma_blob_payload_intact(p: Seq<u8>)
    requires
        p.len() <= usize::MAX,
    ensures
        decode_spec(encode_spec(ObjectType::Blob, p)) == Ok::<ObjectModel, ObjectError>(
            ObjectModel::Blob { length: p.len(), data: p },
        ),
{
    lemma_decode_encode(ObjectType::Blob, p);
}

/// Listing the entries of anything stored as a blob fails with `TypeMismatch`.
pub proof fn lemma_list_blob_mismatch(p: Seq<u8>, stored: Seq<u8>)
    requires
        p.len() <= usize::MAX,
        zlib_inflated(stored) == Some(encode_spec(ObjectType::Blob, p)),
    ensures
        list_spec(stored) == Err::<Seq<EntrySpec>, ObjectError>(ObjectError::TypeMismatch),
{
    lemma_round_trip(ObjectType::Blob, p, stored);
}

} // verus!
