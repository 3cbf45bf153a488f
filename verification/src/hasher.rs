//! The hashing collaborator.
//!
//! Content digests come from an outside hashing primitive that the
//! library consumes as a black box: all that the contracts use is that
//! the digest is a pure function of the content bytes, captured by the
//! name `digest_of`.

use vstd::prelude::*;
use crate::records::{FileData, Rec, file_views};
use rayon::iter::{IntoParallelRefIterator, ParallelIterator};
use vstd::string::StrSliceExecFns;

verus! {

/// The digest that the hashing collaborator assigns to a byte sequence.
/// The digest is a pure function of the bytes; nothing further is
/// assumed about its text.
pub uninterp spec fn digest_of(bytes: Seq<u8>) -> Seq<char>;

/// Relies on `xxhash_rust::xxh3::xxh3_64`: the digest is computed from
/// the input bytes alone, with a fixed default secret and seed, and is
/// rendered in decimal, so identical bytes give identical digest text in
/// every process and on every machine.
#[verifier::external_body]
pub fn hash(content: &[u8]) -> (r: String)
    ensures
        r@ == digest_of(content@),
{
    xxhash_rust::xxh3::xxh3_64(content).to_string()
}

/// The model of a traversal entry: the path and the raw content bytes.
pub open spec fn entry_views(es: Seq<(String, Vec<u8>)>) -> Seq<(Seq<char>, Seq<u8>)> {
    es.map_values(|e: (String, Vec<u8>)| (e.0@, e.1@))
}

/// The paths of a sequence of entry models.
pub open spec fn entry_paths(es: Seq<(Seq<char>, Seq<u8>)>) -> Seq<Seq<char>> {
    es.map_values(|e: (Seq<char>, Seq<u8>)| e.0)
}

/// No two entries name the same path.
pub open spec fn uniq_entry_paths(es: Seq<(Seq<char>, Seq<u8>)>) -> bool {
    forall|i: int, j: int|
        0 <= i < es.len() && 0 <= j < es.len() && i != j ==> (#[trigger] es[i]).0 != (
        #[trigger] es[j]).0
}

/// The records that hashing a sequence of entries produces, in entry
/// order.
pub open spec fn hashed_views(es: Seq<(Seq<char>, Seq<u8>)>) -> Seq<Rec> {
    es.map_values(|e: (Seq<char>, Seq<u8>)| (e.0, digest_of(e.1)))
}

/// Builds the record for one traversal entry.
pub fn hash_entry(path: String, content: &Vec<u8>) -> (r: FileData)
    ensures
        r@ == (path@, digest_of(content@)),
{
    let digest = hash(content.as_slice());
    FileData { file: path, hash: digest }
}

/// Identical content bytes receive the identical digest, in any call and
/// in any index instance: the digest is a function of the bytes alone.
pub proof fn lemma_hash_stable(b1: Seq<u8>, b2: Seq<u8>)
    requires
        b1 == b2,
    ensures
        digest_of(b1) == digest_of(b2),
{
}

/// The UTF-8 bytes of the records' hashes, concatenated in record order.
/// The aggregate digest of a matched file set is the digest of this
/// concatenation.
pub open spec fn concat_hash_bytes(rs: Seq<Rec>) -> Seq<u8>
    decreases rs.len(),
{
    if rs.len() == 0 {
        Seq::empty()
    } else {
        concat_hash_bytes(rs.drop_last()) + vstd::utf8::encode_utf8(rs.last().1)
    }
}

/// Folds the records' hashes into one aggregate digest.
pub fn hash_records(files: &Vec<FileData>) -> (r: String)
    ensures
        r@ == digest_of(concat_hash_bytes(file_views(files@))),
{
    let mut buf: Vec<u8> = Vec::new();
    let mut i: usize = 0;
    while i < files.len()
        invariant
            i <= files.len(),
            buf@ == concat_hash_bytes(file_views(files@).take(i as int)),
        decreases files.len() - i,
    {
        let mut bytes = files[i].hash.as_str().as_bytes_vec();
        proof {
            let fv = file_views(files@);
            assert(fv.take(i + 1 as int).drop_last() =~= fv.take(i as int));
            assert(fv.take(i + 1 as int).last() == fv[i as int]);
            assert(fv[i as int].1 == files@[i as int].hash@);
        }
        buf.append(&mut bytes);
        i += 1;
    }
    proof {
        assert(file_views(files@).take(files@.len() as int) =~= file_views(files@));
    }
    hash(buf.as_slice())
}

/// Relies on rayon's indexed parallel iterators: mapping a slice in
/// parallel and collecting into a `Vec` keeps length and order, and the
/// closure only calls the verified `hash_entry`.
#[verifier::external_body]
pub(crate) fn par_hash_entries(entries: &Vec<(String, Vec<u8>)>) -> (r: Vec<FileData>)
    ensures
        file_views(r@) == hashed_views(entry_views(entries@)),
{
    entries.par_iter().map(|e| hash_entry(e.0.clone(), &e.1)).collect()
}

} // verus!
