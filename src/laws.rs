//! What holds of writes followed by reads, over a model of the store as a map
//! from key bytes to value bytes, and of a scan as an ordered listing of the
//! entries under a prefix.
use vstd::prelude::*;
use vstd::utf8::*;
use crate::codec::envelope_payload;
use crate::engine::{
    StoreError,
    chunk_key_bytes, entry_record, scan_prefix_bytes, scan_records, ScanPolicy, ScanStep,
};
use crate::keys::{chunk_key_text, free_of_separator, scan_prefix_text, separator};

verus! {

/// Strict lexicographic order on byte strings: the order of a scan.
pub open spec fn bytes_before(a: Seq<u8>, b: Seq<u8>) -> bool {
    exists|n: int|
        0 <= n <= a.len() && n <= b.len() && #[trigger] a.subrange(0, n) == b.subrange(0, n) && (
        (n == a.len() && n < b.len()) || (n < a.len() && n < b.len() && a[n] < b[n]))
}

/// The key bytes of a scan step that holds an entry.
pub open spec fn step_key(s: ScanStep) -> Seq<u8> {
    s->Entry_0.key@
}

/// The value bytes of a scan step that holds an entry.
pub open spec fn step_value(s: ScanStep) -> Seq<u8> {
    s->Entry_0.value@
}

/// `steps` lists, without interruption and in ascending key order, exactly
/// the entries of `store` whose key begins with `prefix`.
pub open spec fn is_prefix_scan(
    store: Map<Seq<u8>, Seq<u8>>,
    prefix: Seq<u8>,
    steps: Seq<ScanStep>,
) -> bool {
    &&& forall|i: int| 0 <= i < steps.len() ==> #[trigger] steps[i] is Entry
    &&& forall|i: int|
        0 <= i < steps.len() ==> {
            &&& prefix.is_prefix_of(step_key(#[trigger] steps[i]))
            &&& store.contains_key(step_key(steps[i]))
            &&& store[step_key(steps[i])] == step_value(steps[i])
        }
    &&& forall|i: int, j: int|
        0 <= i < j < steps.len() ==> bytes_before(
            step_key(#[trigger] steps[i]),
            step_key(#[trigger] steps[j]),
        )
    &&& forall|k: Seq<u8>|
        #[trigger] store.contains_key(k) && prefix.is_prefix_of(k) ==> exists|i: int|
            0 <= i < steps.len() && step_key(#[trigger] steps[i]) == k
}

proof fn lemma_before_distinct(a: Seq<u8>, b: Seq<u8>)
    requires
        bytes_before(a, b),
    ensures
        a != b,
{
    let n = choose|n: int|
        0 <= n <= a.len() && n <= b.len() && #[trigger] a.subrange(0, n) == b.subrange(0, n) && (
        (n == a.len() && n < b.len()) || (n < a.len() && n < b.len() && a[n] < b[n]));
}

proof fn lemma_encode_concat(a: Seq<char>, b: Seq<char>)
    ensures
        encode_utf8(a + b) == encode_utf8(a) + encode_utf8(b),
    decreases a.len(),
{
    if a.len() == 0 {
        assert(a + b =~= b);
        assert(encode_utf8(a) + encode_utf8(b) =~= encode_utf8(b));
    } else {
        assert((a + b).drop_first() =~= a.drop_first() + b);
        assert((a + b)[0] == a[0]);
        lemma_encode_concat(a.drop_first(), b);
        assert(encode_utf8(a + b) =~= encode_utf8(a) + encode_utf8(b));
    }
}

/// A key written for a chunk begins with its file's scan prefix, and decodes
/// back to its text.
proof fn lemma_chunk_key_bytes(file_key: Seq<char>, chunk_hash: Seq<char>)
    ensures
        scan_prefix_bytes(file_key).is_prefix_of(chunk_key_bytes(file_key, chunk_hash)),
        valid_utf8(chunk_key_bytes(file_key, chunk_hash)),
        decode_utf8(chunk_key_bytes(file_key, chunk_hash)) == chunk_key_text(file_key, chunk_hash),
{
    lemma_encode_concat(scan_prefix_text(file_key), chunk_hash);
    let p = scan_prefix_bytes(file_key);
    let k = chunk_key_bytes(file_key, chunk_hash);
    assert(k.subrange(0, p.len() as int) =~= p);
    encode_utf8_valid_utf8(chunk_key_text(file_key, chunk_hash));
    encode_utf8_decode_utf8(chunk_key_text(file_key, chunk_hash));
}

/// Where the UTF-8 encoding of `p` begins that of `k`, `p` begins `k`.
proof fn lemma_encoded_prefix(p: Seq<char>, k: Seq<char>)
    requires
        encode_utf8(p).is_prefix_of(encode_utf8(k)),
    ensures
        p.is_prefix_of(k),
    decreases p.len(),
{
    if p.len() > 0 {
        let ep = encode_utf8(p);
        let ek = encode_utf8(k);
        encode_utf8_first_scalar(p);
        char_is_scalar(p[0]);
        assert(encode_scalar(p[0] as u32).len() >= 1);
        if k.len() == 0 {
            assert(ek.len() == 0);
            assert(false);
        }
        encode_utf8_first_scalar(k);
        let w = length_of_first_scalar(ep);
        assert(ep[0] == ek[0]);
        assert(forall|t: int| 0 <= t < w ==> ep[t] == ek[t]) by {
            assert forall|t: int| 0 <= t < w implies ep[t] == ek[t] by {
                assert(ep[t] == ek.subrange(0, ep.len() as int)[t]);
            }
        }
        if w >= 2 {
            assert(ep[1] == ek[1]);
        }
        if w >= 3 {
            assert(ep[2] == ek[2]);
        }
        if w >= 4 {
            assert(ep[3] == ek[3]);
        }
        assert(decode_first_scalar(ep) == decode_first_scalar(ek));
        let u = p[0] as u32;
        char_u32_cast(p[0], u);
        char_u32_cast(k[0], u);
        assert(p[0] == k[0]);
        let s = encode_scalar(p[0] as u32);
        let rp = encode_utf8(p.drop_first());
        let rk = encode_utf8(k.drop_first());
        assert(ep == s + rp);
        assert(ek == s + rk);
        assert(rp =~= ep.subrange(s.len() as int, ep.len() as int));
        assert(rp =~= rk.subrange(0, rp.len() as int));
        lemma_encoded_prefix(p.drop_first(), k.drop_first());
        assert(p =~= seq![p[0]] + p.drop_first());
        assert(k.subrange(0, p.len() as int) =~= seq![k[0]] + k.drop_first().subrange(
            0,
            p.len() - 1,
        ));
    }
}

proof fn lemma_scan_ok_prefix(steps: Seq<ScanStep>, policy: ScanPolicy)
    requires
        steps.len() > 0,
        scan_records(steps, policy) is Ok,
    ensures
        scan_records(steps.drop_last(), policy) is Ok,
{
}

/// With skipping, a scan that the store did not interrupt always succeeds.
proof fn lemma_skip_succeeds(steps: Seq<ScanStep>)
    requires
        forall|i: int| 0 <= i < steps.len() ==> #[trigger] steps[i] is Entry,
    ensures
        scan_records(steps, ScanPolicy::SkipCorrupt) is Ok,
    decreases steps.len(),
{
    if steps.len() > 0 {
        let d = steps.drop_last();
        assert forall|i: int| 0 <= i < d.len() implies #[trigger] d[i] is Entry by {
            assert(d[i] == steps[i]);
        }
        lemma_skip_succeeds(d);
        assert(steps[steps.len() - 1] is Entry);
    }
}

/// Every entry of a successful scan that decodes is among its records.
proof fn lemma_decoded_entry_is_read(steps: Seq<ScanStep>, policy: ScanPolicy, i: int)
    requires
        0 <= i < steps.len(),
        steps[i] is Entry,
        entry_record(step_key(steps[i]), step_value(steps[i])) is Ok,
        scan_records(steps, policy) is Ok,
    ensures
        scan_records(steps, policy)->Ok_0.contains(
            entry_record(step_key(steps[i]), step_value(steps[i]))->Ok_0,
        ),
    decreases steps.len(),
{
    let d = steps.drop_last();
    let rec = entry_record(step_key(steps[i]), step_value(steps[i]))->Ok_0;
    lemma_scan_ok_prefix(steps, policy);
    let rs = scan_records(d, policy)->Ok_0;
    if i == steps.len() - 1 {
        assert(rs.push(rec)[rs.len() as int] == rec);
    } else {
        assert(d[i] == steps[i]);
        lemma_decoded_entry_is_read(d, policy, i);
        let j = choose|j: int| 0 <= j < rs.len() && rs[j] == rec;
        if scan_records(steps, policy)->Ok_0 != rs {
            let last = steps.last()->Entry_0;
            let r2 = entry_record(last.key@, last.value@)->Ok_0;
            assert(rs.push(r2)[j] == rec);
        }
    }
}

/// Every record of a successful scan is what one of its entries decodes to.
proof fn lemma_records_from_entries(steps: Seq<ScanStep>, policy: ScanPolicy)
    requires
        scan_records(steps, policy) is Ok,
    ensures
        forall|j: int|
            0 <= j < scan_records(steps, policy)->Ok_0.len() ==> exists|i: int|
                0 <= i < steps.len() && #[trigger] steps[i] is Entry && entry_record(
                    step_key(steps[i]),
                    step_value(steps[i]),
                ) == Ok::<(Seq<char>, Seq<char>), StoreError>(
                    #[trigger] scan_records(steps, policy)->Ok_0[j],
                ),
    decreases steps.len(),
{
    if steps.len() > 0 {
        let d = steps.drop_last();
        lemma_scan_ok_prefix(steps, policy);
        lemma_records_from_entries(d, policy);
        let rs = scan_records(d, policy)->Ok_0;
        let all = scan_records(steps, policy)->Ok_0;
        assert forall|j: int| 0 <= j < all.len() implies exists|i: int|
            0 <= i < steps.len() && #[trigger] steps[i] is Entry && entry_record(
                step_key(steps[i]),
                step_value(steps[i]),
            ) == Ok::<(Seq<char>, Seq<char>), StoreError>(#[trigger] all[j]) by {
            if j < rs.len() {
                assert(all[j] == rs[j]);
                let i = choose|i: int|
                    0 <= i < d.len() && #[trigger] d[i] is Entry && entry_record(
                        step_key(d[i]),
                        step_value(d[i]),
                    ) == Ok::<(Seq<char>, Seq<char>), StoreError>(#[trigger] rs[j]);
                assert(d[i] == steps[i]);
            } else {
                assert(steps[steps.len() - 1] is Entry);
            }
        }
    }
}

/// Where a scan lists each key once, no two of its records share a key.
proof fn lemma_record_keys_distinct(steps: Seq<ScanStep>, policy: ScanPolicy)
    requires
        scan_records(steps, policy) is Ok,
        forall|i: int| 0 <= i < steps.len() ==> #[trigger] steps[i] is Entry,
        forall|i: int, j: int|
            0 <= i < j < steps.len() ==> step_key(#[trigger] steps[i]) != step_key(
                #[trigger] steps[j],
            ),
    ensures
        forall|j1: int, j2: int|
            0 <= j1 < j2 < scan_records(steps, policy)->Ok_0.len() ==> (#[trigger] scan_records(
                steps,
                policy,
            )->Ok_0[j1]).0 != (#[trigger] scan_records(steps, policy)->Ok_0[j2]).0,
    decreases steps.len(),
{
    if steps.len() > 0 {
        let d = steps.drop_last();
        let n = steps.len() - 1;
        lemma_scan_ok_prefix(steps, policy);
        assert forall|i: int| 0 <= i < d.len() implies #[trigger] d[i] is Entry by {
            assert(d[i] == steps[i]);
        }
        assert forall|i: int, j: int| 0 <= i < j < d.len() implies step_key(#[trigger] d[i])
            != step_key(#[trigger] d[j]) by {
            assert(d[i] == steps[i] && d[j] == steps[j]);
        }
        lemma_record_keys_distinct(d, policy);
        lemma_records_from_entries(d, policy);
        let rs = scan_records(d, policy)->Ok_0;
        let all = scan_records(steps, policy)->Ok_0;
        assert(steps[n] is Entry);
        let lk = step_key(steps[n]);
        let lrec = entry_record(lk, step_value(steps[n]));
        if lrec is Ok && all != rs {
            assert(all == rs.push(lrec->Ok_0));
            assert forall|j1: int, j2: int| 0 <= j1 < j2 < all.len() implies (#[trigger] all[j1]).0
                != (#[trigger] all[j2]).0 by {
                if j2 == rs.len() {
                    assert(all[j1] == rs[j1]);
                    let i = choose|i: int|
                        0 <= i < d.len() && #[trigger] d[i] is Entry && entry_record(
                            step_key(d[i]),
                            step_value(d[i]),
                        ) == Ok::<(Seq<char>, Seq<char>), StoreError>(#[trigger] rs[j1]);
                    assert(d[i] == steps[i]);
                    let ik = step_key(steps[i]);
                    assert(valid_utf8(ik) && valid_utf8(lk));
                    decode_utf8_encode_utf8(ik);
                    decode_utf8_encode_utf8(lk);
                    assert(step_key(steps[i]) != step_key(steps[n]));
                } else {
                    assert(all[j1] == rs[j1] && all[j2] == rs[j2]);
                }
            }
        }
    }
}

proof fn lemma_scan_keys_distinct(
    store: Map<Seq<u8>, Seq<u8>>,
    prefix: Seq<u8>,
    steps: Seq<ScanStep>,
)
    requires
        is_prefix_scan(store, prefix, steps),
    ensures
        forall|i: int, j: int|
            0 <= i < j < steps.len() ==> step_key(#[trigger] steps[i]) != step_key(
                #[trigger] steps[j],
            ),
{
    assert forall|i: int, j: int| 0 <= i < j < steps.len() implies step_key(#[trigger] steps[i])
        != step_key(#[trigger] steps[j]) by {
        lemma_before_distinct(step_key(steps[i]), step_key(steps[j]));
    }
}

/// The entry written for a chunk is listed by a scan of its file, and decodes
/// to the chunk's key text and payload.
proof fn lemma_written_entry_listed(
    store: Map<Seq<u8>, Seq<u8>>,
    file_key: Seq<char>,
    chunk_hash: Seq<char>,
    payload: Seq<char>,
    value: Seq<u8>,
    steps: Seq<ScanStep>,
) -> (i: int)
    requires
        envelope_payload(value) == Some(payload),
        is_prefix_scan(
            store.insert(chunk_key_bytes(file_key, chunk_hash), value),
            scan_prefix_bytes(file_key),
            steps,
        ),
    ensures
        0 <= i < steps.len(),
        steps[i] is Entry,
        step_key(steps[i]) == chunk_key_bytes(file_key, chunk_hash),
        entry_record(step_key(steps[i]), step_value(steps[i])) == Ok::<
            (Seq<char>, Seq<char>),
            StoreError,
        >((chunk_key_text(file_key, chunk_hash), payload)),
{
    let key = chunk_key_bytes(file_key, chunk_hash);
    let m = store.insert(key, value);
    lemma_chunk_key_bytes(file_key, chunk_hash);
    assert(m.contains_key(key));
    let i = choose|i: int| 0 <= i < steps.len() && step_key(#[trigger] steps[i]) == key;
    assert(steps[i] is Entry);
    i
}

/// After a chunk is written, a read of its file that succeeds holds a record
/// with the chunk's key `file_key:chunk_hash` and its payload; a read that
/// skips undecodable entries always succeeds.
pub proof fn law_written_chunk_is_read(
    store: Map<Seq<u8>, Seq<u8>>,
    file_key: Seq<char>,
    chunk_hash: Seq<char>,
    payload: Seq<char>,
    value: Seq<u8>,
    steps: Seq<ScanStep>,
    policy: ScanPolicy,
)
    requires
        envelope_payload(value) == Some(payload),
        is_prefix_scan(
            store.insert(chunk_key_bytes(file_key, chunk_hash), value),
            scan_prefix_bytes(file_key),
            steps,
        ),
    ensures
        policy == ScanPolicy::SkipCorrupt ==> scan_records(steps, policy) is Ok,
        scan_records(steps, policy) is Ok ==> scan_records(steps, policy)->Ok_0.contains(
            (chunk_key_text(file_key, chunk_hash), payload),
        ),
{
    let i = lemma_written_entry_listed(store, file_key, chunk_hash, payload, value, steps);
    if policy == ScanPolicy::SkipCorrupt {
        lemma_skip_succeeds(steps);
    }
    if scan_records(steps, policy) is Ok {
        lemma_decoded_entry_is_read(steps, policy, i);
    }
}

/// Writing one chunk twice leaves one record for its key, holding the second
/// payload.
pub proof fn law_rewrite_keeps_last(
    store: Map<Seq<u8>, Seq<u8>>,
    file_key: Seq<char>,
    chunk_hash: Seq<char>,
    first: Seq<char>,
    first_value: Seq<u8>,
    second: Seq<char>,
    second_value: Seq<u8>,
    steps: Seq<ScanStep>,
    policy: ScanPolicy,
)
    requires
        envelope_payload(first_value) == Some(first),
        envelope_payload(second_value) == Some(second),
        is_prefix_scan(
            store.insert(chunk_key_bytes(file_key, chunk_hash), first_value).insert(
                chunk_key_bytes(file_key, chunk_hash),
                second_value,
            ),
            scan_prefix_bytes(file_key),
            steps,
        ),
    ensures
        scan_records(steps, policy) is Ok ==> {
            let rs = scan_records(steps, policy)->Ok_0;
            &&& rs.contains((chunk_key_text(file_key, chunk_hash), second))
            &&& forall|j1: int, j2: int|
                0 <= j1 < rs.len() && 0 <= j2 < rs.len() && (#[trigger] rs[j1]).0 == chunk_key_text(
                    file_key,
                    chunk_hash,
                ) && (#[trigger] rs[j2]).0 == chunk_key_text(file_key, chunk_hash) ==> j1 == j2
        },
{
    let key = chunk_key_bytes(file_key, chunk_hash);
    assert(store.insert(key, first_value).insert(key, second_value) =~= store.insert(
        key,
        second_value,
    ));
    law_written_chunk_is_read(store, file_key, chunk_hash, second, second_value, steps, policy);
    if scan_records(steps, policy) is Ok {
        lemma_scan_keys_distinct(
            store.insert(key, second_value),
            scan_prefix_bytes(file_key),
            steps,
        );
        lemma_record_keys_distinct(steps, policy);
    }
}

/// A read of a file with no stored chunks succeeds with no records.
pub proof fn law_no_chunks_reads_empty(
    store: Map<Seq<u8>, Seq<u8>>,
    file_key: Seq<char>,
    steps: Seq<ScanStep>,
    policy: ScanPolicy,
)
    requires
        forall|k: Seq<u8>| #[trigger]
            store.contains_key(k) ==> !scan_prefix_bytes(file_key).is_prefix_of(k),
        is_prefix_scan(store, scan_prefix_bytes(file_key), steps),
    ensures
        scan_records(steps, policy) == Ok::<Seq<(Seq<char>, Seq<char>)>, StoreError>(
            Seq::empty(),
        ),
{
    if steps.len() > 0 {
        assert(steps[0] is Entry);
        assert(store.contains_key(step_key(steps[0])));
    }
}

/// A read of a file returns only keys under its own prefix `file_key:`; so,
/// where file keys hold no separator, never a chunk of another file, even of
/// one whose key begins with this one.
pub proof fn law_read_keeps_to_its_file(
    store: Map<Seq<u8>, Seq<u8>>,
    file_key: Seq<char>,
    steps: Seq<ScanStep>,
    policy: ScanPolicy,
)
    requires
        is_prefix_scan(store, scan_prefix_bytes(file_key), steps),
    ensures
        scan_records(steps, policy) is Ok ==> forall|j: int|
            0 <= j < scan_records(steps, policy)->Ok_0.len() ==> scan_prefix_text(
                file_key,
            ).is_prefix_of(#[trigger] scan_records(steps, policy)->Ok_0[j].0),
        scan_records(steps, policy) is Ok ==> forall|j: int, other: Seq<char>, chunk_hash: Seq<char>|
            0 <= j < scan_records(steps, policy)->Ok_0.len() && free_of_separator(file_key)
                && free_of_separator(other) && other != file_key ==> #[trigger] scan_records(
                steps,
                policy,
            )->Ok_0[j].0 != #[trigger] chunk_key_text(other, chunk_hash),
{
    if scan_records(steps, policy) is Ok {
        let rs = scan_records(steps, policy)->Ok_0;
        lemma_records_from_entries(steps, policy);
        assert forall|j: int| 0 <= j < rs.len() implies scan_prefix_text(file_key).is_prefix_of(
            #[trigger] rs[j].0,
        ) by {
            let i = choose|i: int|
                0 <= i < steps.len() && #[trigger] steps[i] is Entry && entry_record(
                    step_key(steps[i]),
                    step_value(steps[i]),
                ) == Ok::<(Seq<char>, Seq<char>), StoreError>(#[trigger] rs[j]);
            let k = step_key(steps[i]);
            decode_utf8_encode_utf8(k);
            lemma_encoded_prefix(scan_prefix_text(file_key), decode_utf8(k));
        }
        assert forall|j: int, other: Seq<char>, chunk_hash: Seq<char>|
            0 <= j < rs.len() && free_of_separator(file_key) && free_of_separator(other) && other
                != file_key implies #[trigger] rs[j].0 != #[trigger] chunk_key_text(
            other,
            chunk_hash,
        ) by {
            let t = rs[j].0;
            let p = scan_prefix_text(file_key);
            if t == chunk_key_text(other, chunk_hash) {
                assert(p.is_prefix_of(t));
                assert(forall|x: int| 0 <= x < p.len() ==> p[x] == #[trigger] t[x]) by {
                    assert forall|x: int| 0 <= x < p.len() implies p[x] == #[trigger] t[x] by {
                        assert(t.subrange(0, p.len() as int)[x] == t[x]);
                    }
                }
                assert(t[other.len() as int] == separator());
                assert(p[file_key.len() as int] == separator());
                assert(t[file_key.len() as int] == separator());
                if other.len() < file_key.len() {
                    let x = other.len() as int;
                    assert(p[x] == file_key[x]);
                    assert(file_key[x] == separator());
                    assert(file_key.contains(separator()));
                } else if file_key.len() < other.len() {
                    let x = file_key.len() as int;
                    assert(t[x] == other[x]);
                    assert(other[x] == separator());
                    assert(other.contains(separator()));
                } else {
                    assert(other =~= file_key) by {
                        assert forall|x: int| 0 <= x < other.len() implies other[x] == file_key[x] by {
                            assert(other[x] == t[x]);
                            assert(file_key[x] == p[x]);
                        }
                    }
                }
            }
        }
    }
}

} // verus!
