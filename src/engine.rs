//! The chunk store engine: the write plan of a chunk and the assembly of a
//! file's chunks from the entries of an ordered prefix scan.
use vstd::prelude::*;
use vstd::slice::slice_to_vec;
use vstd::utf8::{decode_utf8, encode_utf8, valid_utf8};
use crate::codec::{decode_envelope, encode_envelope, envelope_of, envelope_payload};
use crate::keys::{chunk_key, chunk_key_text, scan_prefix, scan_prefix_text};

verus! {

/// What can go wrong in the engine.
#[derive(PartialEq, Eq, Structural, Clone, Copy, Debug)]
pub enum StoreError {
    /// The payload could not be serialised into its envelope; text always
    /// can, so the write plan never returns it.
    EncodeFailure,
    /// The store refused a put or a flush, or a scan failed.
    StorageFailure,
    /// A stored value is not an envelope.
    MalformedEnvelope,
    /// A stored key is not UTF-8 text.
    DecodeKeyFailure,
}

/// What a read does with an entry that cannot be decoded.
#[derive(PartialEq, Eq, Structural, Clone, Copy, Debug)]
pub enum ScanPolicy {
    /// Leave the entry out and go on.
    SkipCorrupt,
    /// Fail the read with the entry's error.
    AbortOnCorrupt,
}

impl Default for ScanPolicy {
    /// Skipping is the default.
    fn default() -> (r: ScanPolicy)
        ensures
            r == ScanPolicy::SkipCorrupt,
    {
        ScanPolicy::SkipCorrupt
    }
}

/// One chunk of a file: its full storage key and its text-encoded payload.
#[derive(Clone, Debug)]
pub struct ChunkRecord {
    pub key: String,
    pub value: String,
}

impl View for ChunkRecord {
    type V = (Seq<char>, Seq<char>);

    open spec fn view(&self) -> (Seq<char>, Seq<char>) {
        (self.key@, self.value@)
    }
}

/// All the chunks found for a file, in scan order.
#[derive(Clone, Debug)]
pub struct FileChunks {
    pub file_key: String,
    pub chunks: Vec<ChunkRecord>,
}

/// The single put that stores a chunk: key bytes and envelope bytes.
#[derive(Clone, Debug)]
pub struct ChunkWrite {
    pub key: Vec<u8>,
    pub value: Vec<u8>,
}

/// An entry of the store as a scan hands it over.
#[derive(Clone, Debug)]
pub struct ScanEntry {
    pub key: Vec<u8>,
    pub value: Vec<u8>,
}

/// One step of a prefix scan: the next entry, or the store failing.
#[derive(Clone, Debug)]
pub enum ScanStep {
    Entry(ScanEntry),
    Interrupted,
}

/// The bytes of the storage key of a chunk.
pub open spec fn chunk_key_bytes(file_key: Seq<char>, chunk_hash: Seq<char>) -> Seq<u8> {
    encode_utf8(chunk_key_text(file_key, chunk_hash))
}

/// The bytes that the keys of one file's chunks begin with.
pub open spec fn scan_prefix_bytes(file_key: Seq<char>) -> Seq<u8> {
    encode_utf8(scan_prefix_text(file_key))
}

/// The record that a stored entry decodes to, or the entry's error.
pub open spec fn entry_record(key: Seq<u8>, value: Seq<u8>) -> Result<
    (Seq<char>, Seq<char>),
    StoreError,
> {
    if !valid_utf8(key) {
        Err(StoreError::DecodeKeyFailure)
    } else {
        match envelope_payload(value) {
            Some(p) => Ok((decode_utf8(key), p)),
            None => Err(StoreError::MalformedEnvelope),
        }
    }
}

/// The records that a scan yields under a policy, in scan order, or the first
/// error that ends it.
pub open spec fn scan_records(steps: Seq<ScanStep>, policy: ScanPolicy) -> Result<
    Seq<(Seq<char>, Seq<char>)>,
    StoreError,
>
    decreases steps.len(),
{
    if steps.len() == 0 {
        Ok(Seq::empty())
    } else {
        match scan_records(steps.drop_last(), policy) {
            Err(e) => Err(e),
            Ok(rs) => match steps.last() {
                ScanStep::Interrupted => Err(StoreError::StorageFailure),
                ScanStep::Entry(en) => match entry_record(en.key@, en.value@) {
                    Ok(rec) => Ok(rs.push(rec)),
                    Err(e) => if policy == ScanPolicy::SkipCorrupt {
                        Ok(rs)
                    } else {
                        Err(e)
                    },
                },
            },
        }
    }
}

/// The views of a sequence of records.
pub open spec fn record_views(rs: Seq<ChunkRecord>) -> Seq<(Seq<char>, Seq<char>)> {
    rs.map_values(|c: ChunkRecord| c@)
}

/// Relies on String::from_utf8: it succeeds exactly on valid UTF-8, and the
/// string holds the characters that the bytes encode.
#[verifier::external_body]
fn utf8_text(bytes: &Vec<u8>) -> (r: Option<String>)
    ensures
        r is Some <==> valid_utf8(bytes@),
        r is Some ==> r->Some_0@ == decode_utf8(bytes@),
{
    String::from_utf8(bytes.clone()).ok()
}

/// The bytes that a scan for the chunks of a file starts from.
pub fn scan_key_prefix(file_key: &str) -> (r: Vec<u8>)
    ensures
        r@ == scan_prefix_bytes(file_key@),
{
    let p = scan_prefix(file_key);
    slice_to_vec(p.as_str().as_bytes())
}

/// The put that stores `payload` as the chunk `chunk_hash` of `file_key`:
/// the key `file_key:chunk_hash` as bytes, and the payload's envelope. Any
/// text can be wrapped, so this always succeeds.
pub fn plan_write(file_key: &str, chunk_hash: &str, payload: &str) -> (r: Result<
    ChunkWrite,
    StoreError,
>)
    ensures
        r is Ok ==> r->Ok_0.key@ == chunk_key_bytes(file_key@, chunk_hash@),
        r is Ok ==> r->Ok_0.value@ == envelope_of(payload@),
        r is Ok ==> envelope_payload(r->Ok_0.value@) == Some(payload@),
        r is Ok,
{
    let value = encode_envelope(payload);
    let k = chunk_key(file_key, chunk_hash);
    let key = slice_to_vec(k.as_str().as_bytes());
    Ok(ChunkWrite { key, value })
}

/// The outcome of a write once the put and, after a put that succeeded, the
/// flush have run: success only where both did.
pub fn write_outcome(put_ok: bool, flush_ok: bool) -> (r: Result<(), StoreError>)
    ensures
        r is Ok <==> put_ok && flush_ok,
        r is Err ==> r->Err_0 == StoreError::StorageFailure,
{
    if put_ok && flush_ok {
        Ok(())
    } else {
        Err(StoreError::StorageFailure)
    }
}

/// Decodes one stored entry into a chunk record.
pub fn decode_entry(entry: &ScanEntry) -> (r: Result<ChunkRecord, StoreError>)
    ensures
        match entry_record(entry.key@, entry.value@) {
            Ok(rec) => r is Ok && r->Ok_0@ == rec,
            Err(e) => r == Err::<ChunkRecord, StoreError>(e),
        },
{
    let key = match utf8_text(&entry.key) {
        Some(k) => k,
        None => return Err(StoreError::DecodeKeyFailure),
    };
    match decode_envelope(entry.value.as_slice()) {
        Some(value) => Ok(ChunkRecord { key, value }),
        None => Err(StoreError::MalformedEnvelope),
    }
}

/// Once a prefix of a scan has failed, the whole scan fails the same way.
proof fn lemma_scan_error_persists(steps: Seq<ScanStep>, n: int, policy: ScanPolicy)
    requires
        0 <= n <= steps.len(),
        scan_records(steps.take(n), policy) is Err,
    ensures
        scan_records(steps, policy) == scan_records(steps.take(n), policy),
    decreases steps.len(),
{
    if n == steps.len() {
        assert(steps.take(n) =~= steps);
    } else {
        let d = steps.drop_last();
        assert(d.take(n) =~= steps.take(n));
        lemma_scan_error_persists(d, n, policy);
    }
}

/// Assembles the chunks of `file_key` from the steps of its prefix scan, in
/// scan order. Entries that do not decode are skipped or end the read, as the
/// policy says; a scan that the store interrupted fails the read.
pub fn read_all_chunks(file_key: String, steps: &Vec<ScanStep>, policy: ScanPolicy) -> (r: Result<
    FileChunks,
    StoreError,
>)
    ensures
        match scan_records(steps@, policy) {
            Ok(rs) => r is Ok && r->Ok_0.file_key@ == file_key@ && record_views(r->Ok_0.chunks@)
                == rs,
            Err(e) => r == Err::<FileChunks, StoreError>(e),
        },
        steps@.len() == 0 ==> r is Ok && r->Ok_0.chunks@.len() == 0,
{
    let mut chunks: Vec<ChunkRecord> = Vec::new();
    let mut i: usize = 0;
    assert(steps@.take(0) =~= Seq::<ScanStep>::empty());
    assert(record_views(chunks@) =~= Seq::<(Seq<char>, Seq<char>)>::empty());
    while i < steps.len()
        invariant
            i <= steps@.len(),
            scan_records(steps@.take(i as int), policy) == Ok::<
                Seq<(Seq<char>, Seq<char>)>,
                StoreError,
            >(record_views(chunks@)),
        decreases steps.len() - i,
    {
        let ghost before = chunks@;
        assert(steps@.take(i + 1).drop_last() =~= steps@.take(i as int));
        assert(steps@.take(i + 1).last() == steps@[i as int]);
        match &steps[i] {
            ScanStep::Interrupted => {
                proof {
                    lemma_scan_error_persists(steps@, i + 1, policy);
                }
                return Err(StoreError::StorageFailure);
            },
            ScanStep::Entry(entry) => match decode_entry(entry) {
                Ok(rec) => {
                    chunks.push(rec);
                    assert(record_views(chunks@) =~= record_views(before).push(rec@));
                },
                Err(e) => {
                    if policy == ScanPolicy::AbortOnCorrupt {
                        proof {
                            lemma_scan_error_persists(steps@, i + 1, policy);
                        }
                        return Err(e);
                    }
                },
            },
        }
        i = i + 1;
    }
    assert(steps@.take(i as int) =~= steps@);
    Ok(FileChunks { file_key, chunks })
}

} // verus!
