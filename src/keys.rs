//! Storage keys: `file_key:chunk_hash`, and the scan prefix `file_key:`.
use vstd::prelude::*;
use vstd::string::StringExecFns;

verus! {

/// The character that separates a file key from a chunk hash.
pub open spec fn separator() -> char {
    ':'
}

/// The text that every storage key of one file begins with.
pub open spec fn scan_prefix_text(file_key: Seq<char>) -> Seq<char> {
    file_key.push(separator())
}

/// The text of the storage key of one chunk.
pub open spec fn chunk_key_text(file_key: Seq<char>, chunk_hash: Seq<char>) -> Seq<char> {
    scan_prefix_text(file_key) + chunk_hash
}

/// A token that cannot be confused with a key's separator.
pub open spec fn free_of_separator(s: Seq<char>) -> bool {
    !s.contains(separator())
}

/// Builds the scan prefix `file_key:` of a file.
pub fn scan_prefix(file_key: &str) -> (r: String)
    ensures
        r@ == scan_prefix_text(file_key@),
{
    let mut r = String::from_str(file_key);
    let sep = ":";
    proof {
        reveal_strlit(":");
    }
    r.append(sep);
    assert(r@ =~= scan_prefix_text(file_key@));
    r
}

/// Builds the storage key `file_key:chunk_hash` of a chunk.
pub fn chunk_key(file_key: &str, chunk_hash: &str) -> (r: String)
    ensures
        r@ == chunk_key_text(file_key@, chunk_hash@),
{
    let mut r = scan_prefix(file_key);
    r.append(chunk_hash);
    r
}

} // verus!
