use vstd::prelude::*;

use crate::store::PasteData;
use crate::store::TTL_MS;
use crate::store::spec_get;
use crate::store::spec_insert_result;
use crate::store::spec_swept;

verus! {

/// Every entry of `m` is still unexpired at time `now`.
pub open spec fn all_unexpired(m: Map<Seq<char>, PasteData>, now: u64) -> bool {
    forall|k: Seq<char>| #[trigger] m.contains_key(k) ==> m[k].expires_at > now
}

/// One step of a chain of insertions, described by its effect on the key
/// sets: the minted key was free and is the only key added.
pub open spec fn dom_step(
    maps: Seq<Map<Seq<char>, PasteData>>,
    keys: Seq<Seq<char>>,
    i: int,
) -> bool {
    &&& !maps[i].dom().contains(keys[i])
    &&& maps[i + 1].dom() == maps[i].dom().insert(keys[i])
}

/// Law: when nothing in the store has expired at the time of an insertion,
/// the insertion adds exactly its minted key — no entry is lost and none is
/// duplicated.
pub proof fn lemma_insert_no_expiry(
    pre: Map<Seq<char>, PasteData>,
    key: Seq<char>,
    content: Seq<char>,
    now: u64,
    post: Map<Seq<char>, PasteData>,
)
    requires
        spec_insert_result(pre, key, content, now, post),
        all_unexpired(pre, now),
    ensures
        !pre.dom().contains(key),
        post.dom() == pre.dom().insert(key),
{
    assert(post.dom() =~= pre.dom().insert(key)) by {
        assert forall|k: Seq<char>| #[trigger] post.dom().contains(k) implies pre.dom().insert(
            key,
        ).contains(k) by {
            if k != key {
                assert(pre.contains_key(k));
            }
        }
        assert forall|k: Seq<char>| pre.dom().insert(key).contains(k) implies #[trigger] post.dom().contains(
            k,
        ) by {
            if k != key {
                assert(pre.contains_key(k));
                assert(pre[k].expires_at > now);
            }
        }
    }
}

proof fn lemma_chain_dom_grows(
    maps: Seq<Map<Seq<char>, PasteData>>,
    keys: Seq<Seq<char>>,
    i: int,
    j: int,
)
    requires
        maps.len() == keys.len() + 1,
        forall|a: int| 0 <= a < keys.len() ==> #[trigger] dom_step(maps, keys, a),
        0 <= i <= j <= keys.len(),
    ensures
        maps[i].dom().subset_of(maps[j].dom()),
    decreases j - i,
{
    if i < j {
        assert(dom_step(maps, keys, i));
        lemma_chain_dom_grows(maps, keys, i + 1, j);
        assert forall|k: Seq<char>| #[trigger] maps[i].dom().contains(k) implies maps[j].dom().contains(
            k,
        ) by {
            assert(maps[i + 1].dom().contains(k));
        }
    }
}

proof fn lemma_chain_dom_len(maps: Seq<Map<Seq<char>, PasteData>>, keys: Seq<Seq<char>>, j: int)
    requires
        maps.len() == keys.len() + 1,
        maps[0].dom().finite(),
        forall|a: int| 0 <= a < keys.len() ==> #[trigger] dom_step(maps, keys, a),
        0 <= j <= keys.len(),
    ensures
        maps[j].dom().finite(),
        maps[j].dom().len() == maps[0].dom().len() + j,
    decreases j,
{
    broadcast use vstd::set::axiom_set_insert_len;
    broadcast use vstd::set::axiom_set_insert_finite;

    if j > 0 {
        lemma_chain_dom_len(maps, keys, j - 1);
        assert(dom_step(maps, keys, j - 1));
    }
}

/// Law: a sequence of insertions into the store yields pairwise distinct
/// keys, and grows the store by exactly one entry each, as long as no stored
/// entry expires while the sequence runs. Under the store's single exclusive
/// critical section per operation, concurrent insertions interleave into
/// exactly such a sequence. `maps` holds the store contents around each of
/// the `keys.len()` insertions, `contents` and `times` what each inserted
/// and when.
pub proof fn lemma_inserts_distinct(
    maps: Seq<Map<Seq<char>, PasteData>>,
    keys: Seq<Seq<char>>,
    contents: Seq<Seq<char>>,
    times: Seq<u64>,
)
    requires
        maps.len() == keys.len() + 1,
        contents.len() == keys.len(),
        times.len() == keys.len(),
        maps[0].dom().finite(),
        forall|i: int|
            0 <= i < keys.len() ==> spec_insert_result(
                maps[i],
                #[trigger] keys[i],
                contents[i],
                times[i],
                maps[i + 1],
            ),
        forall|i: int| 0 <= i < keys.len() ==> #[trigger] all_unexpired(maps[i], times[i]),
    ensures
        forall|i: int, j: int| 0 <= i < j < keys.len() ==> keys[i] != keys[j],
        maps.last().dom().finite(),
        maps.last().dom().len() == maps[0].dom().len() + keys.len(),
{
    assert forall|a: int| 0 <= a < keys.len() implies #[trigger] dom_step(maps, keys, a) by {
        lemma_insert_no_expiry(maps[a], keys[a], contents[a], times[a], maps[a + 1]);
    }
    assert forall|i: int, j: int| 0 <= i < j < keys.len() implies keys[i] != keys[j] by {
        assert(dom_step(maps, keys, i));
        assert(dom_step(maps, keys, j));
        lemma_chain_dom_grows(maps, keys, i + 1, j);
        assert(maps[i + 1].dom().contains(keys[i]));
        assert(!maps[j].dom().contains(keys[j]));
    }
    lemma_chain_dom_len(maps, keys, keys.len() as int);
    assert(maps.last() == maps[keys.len() as int]);
}

/// Law: a paste inserted at time `now` is returned by a lookup at any time
/// strictly before `now + TTL_MS`, with exactly the stored content and
/// timestamps, and is absent from any lookup at or after that moment.
pub proof fn lemma_expiry_window(
    pre: Map<Seq<char>, PasteData>,
    key: Seq<char>,
    content: Seq<char>,
    now: u64,
    post: Map<Seq<char>, PasteData>,
    t: u64,
)
    requires
        spec_insert_result(pre, key, content, now, post),
        now + TTL_MS <= u64::MAX,
    ensures
        t < now + TTL_MS ==> spec_get(post, key, t) == Some(
            PasteData { content: content, created_at: now, expires_at: (now + TTL_MS) as u64 },
        ),
        t >= now + TTL_MS ==> spec_get(post, key, t) is None,
{
}

/// Law: sweeping is idempotent — a second sweep at the same time removes
/// nothing more and changes nothing.
pub proof fn lemma_sweep_idempotent(
    pre: Map<Seq<char>, PasteData>,
    now: u64,
    mid: Map<Seq<char>, PasteData>,
    post: Map<Seq<char>, PasteData>,
)
    requires
        spec_swept(pre, now, mid),
        spec_swept(mid, now, post),
    ensures
        post == mid,
{
    assert(post =~= mid) by {
        assert forall|k: Seq<char>| #[trigger] mid.contains_key(k) implies post.contains_key(k)
            && post[k] == mid[k] by {
            assert(mid[k] == pre[k]);
            assert(pre[k].expires_at > now);
        }
    }
}

/// Law: a lookup is pure — its result is a function of the store contents,
/// the key and the time alone, so repeated lookups of an unexpired key at
/// the same time return identical content; and a lookup never changes the
/// store, which `get_paste` states by taking the store immutably.
pub proof fn lemma_get_pure(
    m: Map<Seq<char>, PasteData>,
    key: Seq<char>,
    now: u64,
    r1: Option<PasteData>,
    r2: Option<PasteData>,
)
    requires
        r1 == spec_get(m, key, now),
        r2 == spec_get(m, key, now),
    ensures
        r1 == r2,
{
}

} // verus!
