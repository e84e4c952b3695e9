use vstd::prelude::*;
use vstd::utf8::{decode_utf8, valid_utf8};

use crate::adapters::utf8_string;
use crate::bytes::{copy_range, find_byte, first_index, lemma_first_index_at};
use crate::object::{header_spec, parse_header, ObjectError, ObjectType};

verus! {

/// What one tree record says: its mode, its name, and the raw hash it points to.
pub struct EntrySpec {
    pub mode: Seq<char>,
    pub object_type: ObjectType,
    pub hash: Seq<u8>,
    pub name: Seq<char>,
}

/// The first record of `s` (`mode SP name NUL hash[20]`) and how many bytes it spans.
pub open spec fn entry_record_spec(s: Seq<u8>) -> Result<(EntrySpec, int), ObjectError> {
    match first_index(s, 0) {
        None => Err(ObjectError::TruncatedEntry),
        Some(z) => if z + 21 > s.len() {
            Err(ObjectError::TruncatedEntry)
        } else {
            let span = s.take(z);
            match first_index(span, 32) {
                None => Err(ObjectError::MalformedEntry),
                Some(sp) => {
                    let mode = span.take(sp);
                    let name = span.skip(sp + 1);
                    if valid_utf8(mode) && valid_utf8(name) {
                        Ok(
                            (
                                EntrySpec {
                                    mode: decode_utf8(mode),
                                    object_type: ObjectType::Blob,
                                    hash: s.subrange(z + 1, z + 21),
                                    name: decode_utf8(name),
                                },
                                z + 21,
                            ),
                        )
                    } else {
                        Err(ObjectError::EncodingError)
                    }
                },
            }
        },
    }
}

/// Records laid back to back, consumed exactly to the end of `s`.
pub open spec fn entries_spec(s: Seq<u8>) -> Result<Seq<EntrySpec>, ObjectError>
    decreases s.len(),
{
    if s.len() == 0 {
        Ok(Seq::empty())
    } else {
        match entry_record_spec(s) {
            Err(e) => Err(e),
            Ok((e, n)) => if n <= 0 || n > s.len() {
                Err(ObjectError::TruncatedEntry)
            } else {
                match entries_spec(s.skip(n)) {
                    Err(err) => Err(err),
                    Ok(rest) => Ok(seq![e] + rest),
                }
            },
        }
    }
}

/// The entries of a tree payload whose header declared `length` bytes.
pub open spec fn tree_spec(payload: Seq<u8>, length: nat) -> Result<Seq<EntrySpec>, ObjectError> {
    if length > payload.len() {
        Err(ObjectError::TruncatedEntry)
    } else {
        entries_spec(payload.take(length as int))
    }
}

/// A framed object read as a tree: its declared length and its entries.
pub open spec fn tree_object_spec(raw: Seq<u8>) -> Result<(nat, Seq<EntrySpec>), ObjectError> {
    match header_spec(raw) {
        Err(e) => Err(e),
        Ok((t, length, start)) => if t != ObjectType::Tree {
            Err(ObjectError::TypeMismatch)
        } else {
            match tree_spec(raw.skip(start), length) {
                Err(e) => Err(e),
                Ok(es) => Ok((length, es)),
            }
        },
    }
}

/// `known` followed by what `rest` holds, or the error of `rest`.
pub open spec fn then_entries(
    known: Seq<EntrySpec>,
    rest: Result<Seq<EntrySpec>, ObjectError>,
) -> Result<Seq<EntrySpec>, ObjectError> {
    match rest {
        Err(e) => Err(e),
        Ok(r) => Ok(known + r),
    }
}

/// One record of a tree.
pub struct TreeElement {
    pub mode: String,
    pub object_type: ObjectType,
    pub hash: Vec<u8>,
    pub name: String,
}

impl View for TreeElement {
    type V = EntrySpec;

    open spec fn view(&self) -> EntrySpec {
        EntrySpec {
            mode: self.mode@,
            object_type: self.object_type,
            hash: self.hash@,
            name: self.name@,
        }
    }
}

/// The models of a list of records.
pub open spec fn entries_view(es: Seq<TreeElement>) -> Seq<EntrySpec> {
    es.map_values(|e: TreeElement| e@)
}

impl TreeElement {
    /// Reads the record at the start of `input`; returns it with the number of bytes it spans.
    pub fn from_bytes(input: &[u8]) -> (r: Result<(TreeElement, usize), ObjectError>)
        ensures
            match r {
                Ok((e, n)) => 21 <= n <= input@.len() && entry_record_spec(input@) == Ok::<
                    (EntrySpec, int),
                    ObjectError,
                >((e@, n as int)),
                Err(err) => entry_record_spec(input@) == Err::<(EntrySpec, int), ObjectError>(
                    err,
                ),
            },
    {
        let total: usize = input.len();
        let z = match find_byte(input, 0) {
            Some(z) => z,
            None => return Err(ObjectError::TruncatedEntry),
        };
        if total - z < 21 {
            return Err(ObjectError::TruncatedEntry);
        }
        let span = &input[0..z];
        assert(span@ =~= input@.take(z as int));
        let sp = match find_byte(span, 32) {
            Some(sp) => sp,
            None => return Err(ObjectError::MalformedEntry),
        };
        let mode_bytes = copy_range(span, 0, sp);
        let name_bytes = copy_range(span, sp + 1, z);
        assert(mode_bytes@ =~= span@.take(sp as int));
        assert(name_bytes@ =~= span@.skip(sp + 1));
        let mode = match utf8_string(mode_bytes) {
            Some(m) => m,
            None => return Err(ObjectError::EncodingError),
        };
        let name = match utf8_string(name_bytes) {
            Some(n) => n,
            None => return Err(ObjectError::EncodingError),
        };
        let hash = copy_range(input, z + 1, z + 21);
        Ok((TreeElement { mode, object_type: ObjectType::Blob, hash, name }, z + 21))
    }
}

/// A decoded tree: its declared length and its records, in stored order.
pub struct TreeObject {
    pub length: usize,
    pub elements: Vec<TreeElement>,
}

/// Reads the records of `region` from front to back.
fn parse_entries(region: &[u8]) -> (r: Result<Vec<TreeElement>, ObjectError>)
    ensures
        match r {
            Ok(es) => entries_spec(region@) == Ok::<Seq<EntrySpec>, ObjectError>(
                entries_view(es@),
            ),
            Err(e) => entries_spec(region@) == Err::<Seq<EntrySpec>, ObjectError>(e),
        },
{
    let total: usize = region.len();
    let mut elements: Vec<TreeElement> = Vec::new();
    let mut pos: usize = 0;
    assert(region@.skip(0) =~= region@);
    assert(entries_view(elements@) =~= Seq::<EntrySpec>::empty());
    while pos < total
        invariant
            total == region@.len(),
            0 <= pos <= total,
            entries_spec(region@) == then_entries(
                entries_view(elements@),
                entries_spec(region@.skip(pos as int)),
            ),
        decreases total - pos,
    {
        let rest = &region[pos..total];
        assert(rest@ =~= region@.skip(pos as int));
        let (element, n) = match TreeElement::from_bytes(rest) {
            Ok(p) => p,
            Err(e) => return Err(e),
        };
        proof {
            assert(rest@.skip(n as int) =~= region@.skip(pos + n));
        }
        let ghost before = entries_view(elements@);
        elements.push(element);
        proof {
            assert(entries_view(elements@) =~= before + seq![element@]);
            match entries_spec(region@.skip(pos + n)) {
                Ok(tail) => {
                    assert(before + (seq![element@] + tail) =~= (before + seq![element@])
                        + tail);
                },
                Err(_) => {},
            }
        }
        pos = pos + n;
    }
    assert(entries_view(elements@) + Seq::<EntrySpec>::empty() =~= entries_view(elements@));
    Ok(elements)
}

impl TreeObject {
    /// Decodes a framed object that must be a tree.
    pub fn from_bytes(input: &[u8]) -> (r: Result<TreeObject, ObjectError>)
        ensures
            match r {
                Ok(t) => tree_object_spec(input@) == Ok::<(nat, Seq<EntrySpec>), ObjectError>(
                    (t.length as nat, entries_view(t.elements@)),
                ),
                Err(e) => tree_object_spec(input@) == Err::<(nat, Seq<EntrySpec>), ObjectError>(
                    e,
                ),
            },
    {
        let header = parse_header(input)?;
        if header.object_type != ObjectType::Tree {
            return Err(ObjectError::TypeMismatch);
        }
        let total: usize = input.len();
        let body = &input[header.body_start..total];
        assert(body@ =~= input@.skip(header.body_start as int));
        if header.length > body.len() {
            return Err(ObjectError::TruncatedEntry);
        }
        let region = &body[0..header.length];
        assert(region@ =~= body@.take(header.length as int));
        let elements = parse_entries(region)?;
        Ok(TreeObject { length: header.length, elements })
    }

    /// The names of the entries, in stored order.
    pub fn names(&self) -> (r: Vec<String>)
        ensures
            r@.len() == self.elements@.len(),
            forall|i: int| 0 <= i < r@.len() ==> #[trigger] r@[i]@ == self.elements@[i].name@,
    {
        let mut r: Vec<String> = Vec::new();
        let mut i: usize = 0;
        while i < self.elements.len()
            invariant
                0 <= i <= self.elements@.len(),
                r@.len() == i,
                forall|j: int| 0 <= j < i ==> #[trigger] r@[j]@ == self.elements@[j].name@,
            decreases self.elements@.len() - i,
        {
            r.push(self.elements[i].name.clone());
            i = i + 1;
        }
        r
    }
}

/// The bytes of one tree record: `mode SP name NUL hash`.
pub open spec fn record_bytes(mode: Seq<u8>, name: Seq<u8>, hash: Seq<u8>) -> Seq<u8> {
    mode + seq![32u8] + name + seq![0u8] + hash
}

/// A record that reads back as written: a UTF-8 mode with no space or null
/// byte, a UTF-8 name with no null byte, and a 20-byte hash.
pub open spec fn record_ok(mode: Seq<u8>, name: Seq<u8>, hash: Seq<u8>) -> bool {
    &&& valid_utf8(mode)
    &&& valid_utf8(name)
    &&& hash.len() == 20
    &&& forall|i: int| 0 <= i < mode.len() ==> #[trigger] mode[i] != 0 && mode[i] != 32
    &&& forall|i: int| 0 <= i < name.len() ==> #[trigger] name[i] != 0
}

/// A tree payload made of the given records (mode, name, hash), in order.
pub open spec fn tree_payload(rs: Seq<(Seq<u8>, Seq<u8>, Seq<u8>)>) -> Seq<u8>
    decreases rs.len(),
{
    if rs.len() == 0 {
        Seq::empty()
    } else {
        record_bytes(rs[0].0, rs[0].1, rs[0].2) + tree_payload(rs.drop_first())
    }
}

/// The entry that a record (mode, name, hash) stands for.
pub open spec fn record_entry(r: (Seq<u8>, Seq<u8>, Seq<u8>)) -> EntrySpec {
    EntrySpec {
        mode: decode_utf8(r.0),
        object_type: ObjectType::Blob,
        hash: r.2,
        name: decode_utf8(r.1),
    }
}

proof fn lemma_first_record(mode: Seq<u8>, name: Seq<u8>, hash: Seq<u8>, rest: Seq<u8>)
    requires
        record_ok(mode, name, hash),
    ensures
        entry_record_spec(record_bytes(mode, name, hash) + rest) == Ok::<
            (EntrySpec, int),
            ObjectError,
        >((record_entry((mode, name, hash)), record_bytes(mode, name, hash).len() as int)),
        (record_bytes(mode, name, hash) + rest).skip(record_bytes(mode, name, hash).len() as int)
            == rest,
{
    let rec = record_bytes(mode, name, hash);
    let s = rec + rest;
    let z: int = (mode.len() + 1 + name.len()) as int;
    assert forall|j: int| 0 <= j < z implies s[j] != 0 by {
        if j < mode.len() {
            assert(s[j] == mode[j]);
        } else if j > mode.len() {
            assert(s[j] == name[j - mode.len() - 1]);
        }
    }
    assert(s[z] == 0);
    lemma_first_index_at(s, 0, 0, z);
    let span = s.take(z);
    assert(span =~= mode + seq![32u8] + name);
    assert forall|j: int| 0 <= j < mode.len() implies span[j] != 32 by {
        assert(span[j] == mode[j]);
    }
    lemma_first_index_at(span, 32, 0, mode.len() as int);
    assert(span.take(mode.len() as int) =~= mode);
    assert(span.skip(mode.len() as int + 1) =~= name);
    assert(s.subrange(z + 1, z + 21) =~= hash);
    assert(s.skip(rec.len() as int) =~= rest);
}

/// Tree records laid back to back read back as their entries, in the order
/// in which they were laid down: no record is lost, added or reordered.
pub proof fn lemma_tree_records_round_trip(rs: Seq<(Seq<u8>, Seq<u8>, Seq<u8>)>)
    requires
        forall|i: int| 0 <= i < rs.len() ==> record_ok(#[trigger] rs[i].0, rs[i].1, rs[i].2),
    ensures
        entries_spec(tree_payload(rs)) == Ok::<Seq<EntrySpec>, ObjectError>(
            rs.map_values(|r: (Seq<u8>, Seq<u8>, Seq<u8>)| record_entry(r)),
        ),
    decreases rs.len(),
{
    if rs.len() == 0 {
        assert(rs.map_values(|r: (Seq<u8>, Seq<u8>, Seq<u8>)| record_entry(r)) =~= Seq::<
            EntrySpec,
        >::empty());
    } else {
        let tail = rs.drop_first();
        assert forall|i: int| 0 <= i < tail.len() implies record_ok(
            #[trigger] tail[i].0,
            tail[i].1,
            tail[i].2,
        ) by {
            assert(tail[i] == rs[i + 1]);
        }
        assert(record_ok(rs[0].0, rs[0].1, rs[0].2));
        lemma_tree_records_round_trip(tail);
        lemma_first_record(rs[0].0, rs[0].1, rs[0].2, tree_payload(tail));
        let s = tree_payload(rs);
        assert(s.len() > 0);
        assert(rs.map_values(|r: (Seq<u8>, Seq<u8>, Seq<u8>)| record_entry(r)) =~= seq![
            record_entry(rs[0]),
        ] + tail.map_values(|r: (Seq<u8>, Seq<u8>, Seq<u8>)| record_entry(r)));
    }
}

/// A tree whose final record ends before its 20 hash bytes are complete is
/// reported as truncated, whatever well-formed records precede it.
pub proof fn lemma_truncated_final_record(
    rs: Seq<(Seq<u8>, Seq<u8>, Seq<u8>)>,
    mode: Seq<u8>,
    name: Seq<u8>,
    hash: Seq<u8>,
)
    requires
        forall|i: int| 0 <= i < rs.len() ==> record_ok(#[trigger] rs[i].0, rs[i].1, rs[i].2),
        forall|i: int| 0 <= i < mode.len() ==> #[trigger] mode[i] != 0,
        forall|i: int| 0 <= i < name.len() ==> #[trigger] name[i] != 0,
        hash.len() < 20,
    ensures
        entries_spec(tree_payload(rs) + record_bytes(mode, name, hash)) == Err::<
            Seq<EntrySpec>,
            ObjectError,
        >(ObjectError::TruncatedEntry),
    decreases rs.len(),
{
    let last = record_bytes(mode, name, hash);
    if rs.len() == 0 {
        assert(tree_payload(rs) + last =~= last);
        let z: int = (mode.len() + 1 + name.len()) as int;
        assert forall|j: int| 0 <= j < z implies last[j] != 0 by {
            if j < mode.len() {
                assert(last[j] == mode[j]);
            } else if j > mode.len() {
                assert(last[j] == name[j - mode.len() - 1]);
            }
        }
        assert(last[z] == 0);
        lemma_first_index_at(last, 0, 0, z);
    } else {
        let tail = rs.drop_first();
        assert forall|i: int| 0 <= i < tail.len() implies record_ok(
            #[trigger] tail[i].0,
            tail[i].1,
            tail[i].2,
        ) by {
            assert(tail[i] == rs[i + 1]);
        }
        assert(record_ok(rs[0].0, rs[0].1, rs[0].2));
        lemma_truncated_final_record(tail, mode, name, hash);
        let rest = tree_payload(tail) + last;
        lemma_first_record(rs[0].0, rs[0].1, rs[0].2, rest);
        assert(tree_payload(rs) + last =~= record_bytes(rs[0].0, rs[0].1, rs[0].2) + rest);
    }
}

} // verus!
