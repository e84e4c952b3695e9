use vstd::prelude::*;

use vstd::utf8::{decode_utf8, valid_utf8};

use crate::adapters::{utf8_lossy, utf8_lossy_string};
use crate::bytes::{
    all_digits, copy_range, decimal, digits_value, find_byte, first_index, lemma_decimal_digits, lemma_first_index_at, parse_decimal, push_decimal,
};

verus! {

/// The closed set of object kinds the store knows.
#[derive(PartialEq, Eq, Structural, Clone, Copy, Debug)]
pub enum ObjectType {
    Blob,
    Tree,
    Commit,
}

/// Everything that can go wrong while locating, reading or decoding an object.
#[derive(PartialEq, Eq, Structural, Clone, Copy, Debug)]
pub enum ObjectError {
    /// No object is stored under the requested identifier.
    NotFound,
    /// The stored bytes are not a complete zlib stream.
    CorruptStream,
    /// No null terminator, no space in the header, or a non-numeric length.
    MalformedHeader,
    /// The header names a type outside the known set.
    InvalidObjectType,
    /// A tree-only operation was asked of another kind of object.
    TypeMismatch,
    /// A tree payload ends in the middle of a record.
    TruncatedEntry,
    /// A tree record has no space between its mode and its name.
    MalformedEntry,
    /// A mode or a name is not valid UTF-8.
    EncodingError,
}

/// The ASCII name of a type, as it appears in an object header.
pub open spec fn type_tag(t: ObjectType) -> Seq<u8> {
    match t {
        ObjectType::Blob => seq![98u8, 108, 111, 98],
        ObjectType::Tree => seq![116u8, 114, 101, 101],
        ObjectType::Commit => seq![99u8, 111, 109, 109, 105, 116],
    }
}

/// The type that a header token names, if any.
pub open spec fn token_type(tok: Seq<u8>) -> Option<ObjectType> {
    if tok == type_tag(ObjectType::Blob) {
        Some(ObjectType::Blob)
    } else if tok == type_tag(ObjectType::Tree) {
        Some(ObjectType::Tree)
    } else if tok == type_tag(ObjectType::Commit) {
        Some(ObjectType::Commit)
    } else {
        None
    }
}

/// The header of a framed object: its type, its declared payload length,
/// and where its payload starts (just past the first null byte).
pub open spec fn header_spec(raw: Seq<u8>) -> Result<(ObjectType, nat, int), ObjectError> {
    match first_index(raw, 0) {
        None => Err(ObjectError::MalformedHeader),
        Some(z) => {
            let h = raw.take(z);
            match first_index(h, 32) {
                None => Err(ObjectError::MalformedHeader),
                Some(sp) => match token_type(h.take(sp)) {
                    None => Err(ObjectError::InvalidObjectType),
                    Some(t) => {
                        let l = h.skip(sp + 1);
                        if l.len() > 0 && all_digits(l) && digits_value(l) <= usize::MAX {
                            Ok((t, digits_value(l), z + 1))
                        } else {
                            Err(ObjectError::MalformedHeader)
                        }
                    },
                },
            }
        },
    }
}

/// A parsed object header.
pub struct Header {
    pub object_type: ObjectType,
    pub length: usize,
    pub body_start: usize,
}

fn bytes_eq(a: &[u8], b: &[u8]) -> (r: bool)
    ensures
        r == (a@ == b@),
{
    if a.len() != b.len() {
        return false;
    }
    let mut i: usize = 0;
    while i < a.len()
        invariant
            0 <= i <= a@.len(),
            a@.len() == b@.len(),
            forall|j: int| 0 <= j < i ==> a@[j] == b@[j],
        decreases a@.len() - i,
    {
        if a[i] != b[i] {
            return false;
        }
        i = i + 1;
    }
    assert(a@ =~= b@);
    true
}

/// Maps a header's type token to its type; any other token is `InvalidObjectType`.
pub fn bytes_to_object_type(object_type_bytes: &[u8]) -> (r: Result<ObjectType, ObjectError>)
    ensures
        match token_type(object_type_bytes@) {
            Some(t) => r == Ok::<ObjectType, ObjectError>(t),
            None => r == Err::<ObjectType, ObjectError>(ObjectError::InvalidObjectType),
        },
{
    let blob: [u8; 4] = [98u8, 108, 111, 98];
    let tree: [u8; 4] = [116u8, 114, 101, 101];
    let commit: [u8; 6] = [99u8, 111, 109, 109, 105, 116];
    assert(blob@ =~= type_tag(ObjectType::Blob));
    assert(tree@ =~= type_tag(ObjectType::Tree));
    assert(commit@ =~= type_tag(ObjectType::Commit));
    if bytes_eq(object_type_bytes, blob.as_slice()) {
        Ok(ObjectType::Blob)
    } else if bytes_eq(object_type_bytes, tree.as_slice()) {
        Ok(ObjectType::Tree)
    } else if bytes_eq(object_type_bytes, commit.as_slice()) {
        Ok(ObjectType::Commit)
    } else {
        Err(ObjectError::InvalidObjectType)
    }
}

/// Splits off and reads the header of a framed object.
pub fn parse_header(input: &[u8]) -> (r: Result<Header, ObjectError>)
    ensures
        match r {
            Ok(h) => h.body_start <= input@.len() && header_spec(input@) == Ok::<
                (ObjectType, nat, int),
                ObjectError,
            >((h.object_type, h.length as nat, h.body_start as int)),
            Err(e) => header_spec(input@) == Err::<(ObjectType, nat, int), ObjectError>(e),
        },
{
    let z = match find_byte(input, 0) {
        Some(z) => z,
        None => return Err(ObjectError::MalformedHeader),
    };
    let total: usize = input.len();
    assert(z < total);
    let header = &input[0..z];
    assert(header@ =~= input@.take(z as int));
    let sp = match find_byte(header, 32) {
        Some(sp) => sp,
        None => return Err(ObjectError::MalformedHeader),
    };
    let token = &header[0..sp];
    assert(token@ =~= header@.take(sp as int));
    let object_type = bytes_to_object_type(token)?;
    let digits = &header[sp + 1..z];
    assert(digits@ =~= header@.skip(sp + 1));
    match parse_decimal(digits) {
        Some(length) => Ok(Header { object_type, length, body_start: z + 1 }),
        None => Err(ObjectError::MalformedHeader),
    }
}

/// The framed form of an object: `<type> <payload length>\0<payload>`.
pub open spec fn encode_spec(t: ObjectType, payload: Seq<u8>) -> Seq<u8> {
    type_tag(t) + seq![32u8] + decimal(payload.len()) + seq![0u8] + payload
}

/// Frames a payload under its type.
pub fn encode_object(object_type: ObjectType, payload: &[u8]) -> (r: Vec<u8>)
    ensures
        r@ == encode_spec(object_type, payload@),
{
    let mut out: Vec<u8> = Vec::new();
    match object_type {
        ObjectType::Blob => {
            out.push(98u8);
            out.push(108u8);
            out.push(111u8);
            out.push(98u8);
        },
        ObjectType::Tree => {
            out.push(116u8);
            out.push(114u8);
            out.push(101u8);
            out.push(101u8);
        },
        ObjectType::Commit => {
            out.push(99u8);
            out.push(111u8);
            out.push(109u8);
            out.push(109u8);
            out.push(105u8);
            out.push(116u8);
        },
    }
    assert(out@ =~= type_tag(object_type));
    out.push(32u8);
    push_decimal(&mut out, payload.len());
    out.push(0u8);
    let mut i: usize = 0;
    let ghost framed = out@;
    while i < payload.len()
        invariant
            0 <= i <= payload@.len(),
            out@ == framed + payload@.take(i as int),
        decreases payload@.len() - i,
    {
        out.push(payload[i]);
        i = i + 1;
        assert(out@ =~= framed + payload@.take(i as int));
    }
    assert(payload@.take(payload@.len() as int) =~= payload@);
    out
}

/// Where the payload of a framed object starts.
pub open spec fn payload_start(t: ObjectType, payload: Seq<u8>) -> int {
    (type_tag(t).len() + 1 + decimal(payload.len()).len() + 1) as int
}

/// The header of a framed object reads back as the type and the payload's
/// length, and the payload follows it unchanged.
pub proof fn lemma_header_of_encoding(t: ObjectType, payload: Seq<u8>)
    requires
        payload.len() <= usize::MAX,
    ensures
        header_spec(encode_spec(t, payload)) == Ok::<(ObjectType, nat, int), ObjectError>(
            (t, payload.len(), payload_start(t, payload)),
        ),
        encode_spec(t, payload).skip(payload_start(t, payload)) == payload,
{
    let tag = type_tag(t);
    let dec = decimal(payload.len());
    let raw = encode_spec(t, payload);
    lemma_decimal_digits(payload.len());
    let k: int = (tag.len() + 1 + dec.len()) as int;
    assert forall|j: int| 0 <= j < k implies raw[j] != 0 by {
        if j < tag.len() {
            assert(raw[j] == tag[j]);
        } else if j > tag.len() {
            assert(raw[j] == dec[j - tag.len() - 1]);
        }
    }
    assert(raw[k] == 0);
    lemma_first_index_at(raw, 0, 0, k);
    let h = raw.take(k);
    assert(h =~= tag + seq![32u8] + dec);
    assert forall|j: int| 0 <= j < tag.len() implies h[j] != 32 by {
        assert(h[j] == tag[j]);
    }
    lemma_first_index_at(h, 32, 0, tag.len() as int);
    assert(h.take(tag.len() as int) =~= tag);
    assert(h.skip(tag.len() as int + 1) =~= dec);
    assert(type_tag(ObjectType::Blob)[0] != type_tag(ObjectType::Tree)[0]);
    assert(type_tag(ObjectType::Blob)[0] != type_tag(ObjectType::Commit)[0]);
    assert(type_tag(ObjectType::Tree)[0] != type_tag(ObjectType::Commit)[0]);
    assert(raw.skip(k + 1) =~= payload);
}

/// A decoded blob: its declared length and its payload bytes, kept as they are.
pub struct BlobObject {
    pub length: usize,
    pub data: Vec<u8>,
}

/// A commit, carried as its declared length and its raw payload.
pub struct CommitObject {
    pub length: usize,
    pub data: Vec<u8>,
}

/// A framed object read as the given type: its declared length and payload.
pub open spec fn payload_object_spec(raw: Seq<u8>, want: ObjectType) -> Result<
    (nat, Seq<u8>),
    ObjectError,
> {
    match header_spec(raw) {
        Err(e) => Err(e),
        Ok((t, length, start)) => if t != want {
            Err(ObjectError::TypeMismatch)
        } else {
            Ok((length, raw.skip(start)))
        },
    }
}

fn read_payload(input: &[u8], want: ObjectType) -> (r: Result<(usize, Vec<u8>), ObjectError>)
    ensures
        match r {
            Ok((length, data)) => payload_object_spec(input@, want) == Ok::<
                (nat, Seq<u8>),
                ObjectError,
            >((length as nat, data@)),
            Err(e) => payload_object_spec(input@, want) == Err::<(nat, Seq<u8>), ObjectError>(e),
        },
{
    let header = parse_header(input)?;
    if header.object_type != want {
        return Err(ObjectError::TypeMismatch);
    }
    let data = copy_range(input, header.body_start, input.len());
    assert(data@ =~= input@.skip(header.body_start as int));
    Ok((header.length, data))
}

impl BlobObject {
    /// Decodes a framed object that must be a blob. Everything after the
    /// first null byte is the payload, further null bytes included.
    pub fn from_bytes(input: &[u8]) -> (r: Result<BlobObject, ObjectError>)
        ensures
            match r {
                Ok(b) => payload_object_spec(input@, ObjectType::Blob) == Ok::<
                    (nat, Seq<u8>),
                    ObjectError,
                >((b.length as nat, b.data@)),
                Err(e) => payload_object_spec(input@, ObjectType::Blob) == Err::<
                    (nat, Seq<u8>),
                    ObjectError,
                >(e),
            },
    {
        let (length, data) = read_payload(input, ObjectType::Blob)?;
        Ok(BlobObject { length, data })
    }

    /// The payload as text, with invalid UTF-8 sequences replaced.
    pub fn content(&self) -> (r: String)
        ensures
            r@ == utf8_lossy(self.data@),
            valid_utf8(self.data@) ==> r@ == decode_utf8(self.data@),
    {
        utf8_lossy_string(self.data.as_slice())
    }
}

impl CommitObject {
    /// Decodes a framed object that must be a commit.
    pub fn from_bytes(input: &[u8]) -> (r: Result<CommitObject, ObjectError>)
        ensures
            match r {
                Ok(c) => payload_object_spec(input@, ObjectType::Commit) == Ok::<
                    (nat, Seq<u8>),
                    ObjectError,
                >((c.length as nat, c.data@)),
                Err(e) => payload_object_spec(input@, ObjectType::Commit) == Err::<
                    (nat, Seq<u8>),
                    ObjectError,
                >(e),
            },
    {
        let (length, data) = read_payload(input, ObjectType::Commit)?;
        Ok(CommitObject { length, data })
    }
}

} // verus!
