//! Properties that hold across several calls of the store.
use crate::cas::{integrity_of, is_sha256_descriptor};
use crate::error::StoreError;
use crate::key::{id_key, lemma_id_key_value};
use crate::record::Frame;
use crate::store::{grows_by, holds_frame};
use crate::store::Store;
use vstd::prelude::*;

verus! {

/// Equal payloads get equal hashes: two frames that `put` returned for the
/// same bytes carry the same hash.
pub proof fn lemma_same_bytes_same_hash(f1: Frame, f2: Frame, b1: Seq<u8>, b2: Seq<u8>)
    requires
        f1.hash@ == integrity_of(b1),
        f2.hash@ == integrity_of(b2),
        b1 == b2,
    ensures
        f1.hash@ == f2.hash@,
{
}

/// Reading back by the hash that `put` gave for `b` is never refused as
/// malformed, and what it returns has the integrity descriptor of `b`:
/// the same bytes, as far as SHA-256 tells byte strings apart. Here `f` is
/// what `put` returned for `b`, and `r` what `cat` returned for `f.hash`.
pub proof fn lemma_cat_of_put_hash(b: Seq<u8>, f: Frame, r: Result<Vec<u8>, StoreError>)
    requires
        f.hash@ == integrity_of(b),
        is_sha256_descriptor(f.hash@),
        is_sha256_descriptor(f.hash@) ==> r != Err::<Vec<u8>, StoreError>(StoreError::Parse),
        is_sha256_descriptor(f.hash@) ==> (r matches Ok(d) ==> integrity_of(d@) == f.hash@),
    ensures
        r != Err::<Vec<u8>, StoreError>(StoreError::Parse),
        r matches Ok(d) ==> integrity_of(d@) == integrity_of(b),
{
}

/// Ids of sequential puts strictly increase: where `states[k]` is the store
/// before the `k`-th put and `states[k + 1]` after it, and `ids[k]` the id
/// that put returned, the ids rise in call order.
pub proof fn lemma_sequential_ids_increase(states: Seq<Store>, ids: Seq<u128>)
    requires
        states.len() == ids.len() + 1,
        forall|k: int|
            0 <= k < ids.len() ==> (#[trigger] states[k + 1]).last_issued() == Some(ids[k]),
        forall|k: int|
            0 <= k < ids.len() ==> ((#[trigger] states[k]).last_issued() matches Some(l)
                ==> ids[k] > l),
    ensures
        forall|a: int, b: int| 0 <= a < b < ids.len() ==> ids[a] < ids[b],
    decreases ids.len(),
{
    if ids.len() > 0 {
        let n = ids.len() - 1;
        let s = states.drop_last();
        let t = ids.drop_last();
        assert forall|k: int| 0 <= k < t.len() implies (#[trigger] s[k + 1]).last_issued() == Some(
            t[k],
        ) by {
            assert(states[k + 1].last_issued() == Some(ids[k]));
        }
        assert forall|k: int| 0 <= k < t.len() implies ((#[trigger] s[k]).last_issued() matches Some(l)
            ==> t[k] > l) by {
            assert(states[k].last_issued() matches Some(l) ==> ids[k] > l);
        }
        lemma_sequential_ids_increase(s, t);
        assert(states[n + 1].last_issued() == Some(ids[n]));
        assert(states[n].last_issued() matches Some(l) ==> ids[n] > l);
        if n > 0 {
            let k = n - 1;
            assert(states[k + 1].last_issued() == Some(ids[k]));
        }
        assert forall|a: int, b: int| 0 <= a < b < ids.len() implies ids[a] < ids[b] by {
            if b < n {
                assert(t[a] < t[b]);
            } else if a < n - 1 {
                assert(t[a] < t[n - 1]);
            }
        }
    }
}

/// Some record of `frames` has the id `id`.
pub open spec fn has_id(frames: Seq<Frame>, id: u128) -> bool {
    exists|i: int| 0 <= i < frames.len() && frames[i].id == id
}

/// A store that started empty and then took the records `puts` lists
/// exactly those records: every id that `list` returns (`listed`) is the id
/// of one of them, and every one of them is listed.
pub proof fn lemma_list_after_puts(index: Map<Seq<u8>, Seq<u8>>, puts: Seq<Frame>, listed: Seq<Frame>)
    requires
        grows_by(Map::empty(), index, puts),
        forall|j: int| 0 <= j < listed.len() ==> holds_frame(index, #[trigger] listed[j]),
        forall|k: Seq<u8>| #[trigger] index.contains_key(k) ==> exists|j: int|
            0 <= j < listed.len() && id_key(listed[j].id) == k,
    ensures
        forall|j: int| 0 <= j < listed.len() ==> has_id(puts, #[trigger] listed[j].id),
        forall|i: int| 0 <= i < puts.len() ==> has_id(listed, #[trigger] puts[i].id),
{
    assert forall|j: int| 0 <= j < listed.len() implies has_id(puts, #[trigger] listed[j].id) by {
        let k = id_key(listed[j].id);
        assert(holds_frame(index, listed[j]));
        assert(index.contains_key(k));
        assert(!Map::<Seq<u8>, Seq<u8>>::empty().contains_key(k));
        let i = choose|i: int| 0 <= i < puts.len() && id_key(puts[i].id) == k;
        lemma_id_key_value(puts[i].id);
        lemma_id_key_value(listed[j].id);
        assert(puts[i].id == listed[j].id);
    }
    assert forall|i: int| 0 <= i < puts.len() implies has_id(listed, #[trigger] puts[i].id) by {
        assert(holds_frame(index, puts[i]));
        let k = id_key(puts[i].id);
        assert(index.contains_key(k));
        let j = choose|j: int| 0 <= j < listed.len() && id_key(listed[j].id) == k;
        lemma_id_key_value(puts[i].id);
        lemma_id_key_value(listed[j].id);
        assert(listed[j].id == puts[i].id);
    }
}

} // verus!
