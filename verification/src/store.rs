use vstd::prelude::*;

use crate::decimal::dec_str;
use crate::decimal::lemma_dec_str_injective;
use crate::decimal::push_decimal;
use crate::text::str_eq;
use crate::wordlist::WordList;
use crate::wordlist::is_generated_key;
use crate::wordlist::is_key_of;
use crate::wordlist::is_numbered_key_of;

verus! {

/// Time-to-live of every paste, in milliseconds: 24 hours.
pub const TTL_MS: u64 = 24 * 60 * 60 * 1000;

/// One stored blob, with the monotonic timestamps (in milliseconds)
/// at which it was created and at which it expires.
pub struct Paste {
    pub content: String,
    pub created_at: u64,
    pub expires_at: u64,
}

/// The mathematical value of a `Paste`: its character content and its
/// two timestamps.
pub struct PasteData {
    pub content: Seq<char>,
    pub created_at: u64,
    pub expires_at: u64,
}

impl View for Paste {
    type V = PasteData;

    open spec fn view(&self) -> PasteData {
        PasteData { content: self.content@, created_at: self.created_at, expires_at: self.expires_at }
    }
}

impl PasteData {
    /// A paste always expires strictly after it was created.
    pub open spec fn wf(self) -> bool {
        self.expires_at > self.created_at
    }
}

struct Entry {
    key: String,
    paste: Paste,
}

impl Clone for Entry {
    fn clone(&self) -> (r: Self)
        ensures
            r == *self,
    {
        Entry {
            key: self.key.clone(),
            paste: Paste {
                content: self.paste.content.clone(),
                created_at: self.paste.created_at,
                expires_at: self.paste.expires_at,
            },
        }
    }
}

spec fn keys_distinct(s: Seq<Entry>) -> bool {
    forall|i: int, j: int| 0 <= i < j < s.len() ==> s[i].key@ != s[j].key@
}

spec fn entries_map(s: Seq<Entry>) -> Map<Seq<char>, PasteData>
    decreases s.len(),
{
    if s.len() == 0 {
        Map::empty()
    } else {
        entries_map(s.drop_last()).insert(s.last().key@, s.last().paste@)
    }
}

proof fn lemma_map_contains(s: Seq<Entry>)
    ensures
        entries_map(s).dom().finite(),
        forall|k: Seq<char>|
            entries_map(s).contains_key(k) <==> exists|i: int|
                0 <= i < s.len() && (#[trigger] s[i]).key@ == k,
    decreases s.len(),
{
    if s.len() > 0 {
        lemma_map_contains(s.drop_last());
        assert forall|k: Seq<char>| entries_map(s).contains_key(k) implies exists|i: int|
            0 <= i < s.len() && (#[trigger] s[i]).key@ == k by {
            if k == s.last().key@ {
                assert(s[s.len() - 1].key@ == k);
            } else {
                let i = choose|i: int|
                    0 <= i < s.drop_last().len() && (#[trigger] s.drop_last()[i]).key@ == k;
                assert(s[i].key@ == k);
            }
        }
        assert forall|k: Seq<char>|
            (exists|i: int| 0 <= i < s.len() && (#[trigger] s[i]).key@ == k) implies entries_map(
            s,
        ).contains_key(k) by {
            let i = choose|i: int| 0 <= i < s.len() && (#[trigger] s[i]).key@ == k;
            if i < s.len() - 1 {
                assert(s.drop_last()[i].key@ == k);
            }
        }
    }
}

proof fn lemma_map_index(s: Seq<Entry>, i: int)
    requires
        keys_distinct(s),
        0 <= i < s.len(),
    ensures
        entries_map(s).contains_key(s[i].key@),
        entries_map(s)[s[i].key@] == s[i].paste@,
    decreases s.len(),
{
    if i < s.len() - 1 {
        assert(keys_distinct(s.drop_last())) by {
            assert forall|a: int, b: int|
                0 <= a < b < s.drop_last().len() implies s.drop_last()[a].key@
                != s.drop_last()[b].key@ by {
                assert(s[a].key@ != s[b].key@);
            }
        }
        lemma_map_index(s.drop_last(), i);
        assert(s.last().key@ != s[i].key@);
        assert(s.drop_last()[i] == s[i]);
    }
}

proof fn lemma_map_len(s: Seq<Entry>)
    requires
        keys_distinct(s),
    ensures
        entries_map(s).dom().finite(),
        entries_map(s).dom().len() == s.len(),
    decreases s.len(),
{
    broadcast use vstd::set::axiom_set_insert_len;

    if s.len() > 0 {
        assert(keys_distinct(s.drop_last())) by {
            assert forall|a: int, b: int|
                0 <= a < b < s.drop_last().len() implies s.drop_last()[a].key@
                != s.drop_last()[b].key@ by {
                assert(s[a].key@ != s[b].key@);
            }
        }
        lemma_map_len(s.drop_last());
        lemma_map_contains(s.drop_last());
        assert(!entries_map(s.drop_last()).contains_key(s.last().key@)) by {
            if exists|i: int| 0 <= i < s.drop_last().len() && (#[trigger] s.drop_last()[i]).key@
                == s.last().key@ {
                let i = choose|i: int|
                    0 <= i < s.drop_last().len() && (#[trigger] s.drop_last()[i]).key@
                        == s.last().key@;
                assert(s[i].key@ == s[s.len() - 1].key@);
            }
        }
    }
}

proof fn lemma_map_len_le(s: Seq<Entry>)
    ensures
        entries_map(s).dom().finite(),
        entries_map(s).dom().len() <= s.len(),
    decreases s.len(),
{
    broadcast use vstd::set::axiom_set_insert_len;

    if s.len() > 0 {
        lemma_map_len_le(s.drop_last());
    }
}

proof fn lemma_concat_cancel_left(p: Seq<char>, x: Seq<char>, y: Seq<char>)
    requires
        p + x == p + y,
    ensures
        x == y,
{
    assert((p + x).len() == p.len() + x.len());
    assert((p + y).len() == p.len() + y.len());
    assert(x.len() == y.len());
    assert forall|i: int| 0 <= i < x.len() implies x[i] == y[i] by {
        assert((p + x)[p.len() + i] == x[i]);
        assert((p + y)[p.len() + i] == y[i]);
    }
    assert(x =~= y);
}

proof fn lemma_pigeonhole(dom: Set<Seq<char>>, f: spec_fn(int) -> Seq<char>, n: int)
    requires
        dom.finite(),
        n >= 0,
        forall|a: int| 0 <= a <= n ==> dom.contains(#[trigger] f(a)),
        forall|a: int, b: int| 0 <= a < b <= n ==> #[trigger] f(a) != #[trigger] f(b),
    ensures
        dom.len() > n,
    decreases n,
{
    broadcast use vstd::set::axiom_set_remove_len;
    broadcast use vstd::set::axiom_set_remove_finite;
    broadcast use vstd::set::axiom_set_contains_len;

    if n == 0 {
        assert(dom.contains(f(0)));
    } else {
        let d2 = dom.remove(f(n));
        assert forall|a: int| 0 <= a <= n - 1 implies d2.contains(#[trigger] f(a)) by {
            assert(f(a) != f(n));
        }
        lemma_pigeonhole(d2, f, n - 1);
    }
}

spec fn is_live_from(orig: Seq<Entry>, bound: int, now: u64, e: Entry) -> bool {
    exists|j: int| 0 <= j < bound && e == #[trigger] orig[j] && orig[j].paste.expires_at > now
}

/// How a sweep at time `now` relates the store contents before (`pre`) and
/// after (`post`): exactly the unexpired entries remain, unchanged.
pub open spec fn spec_swept(
    pre: Map<Seq<char>, PasteData>,
    now: u64,
    post: Map<Seq<char>, PasteData>,
) -> bool {
    &&& forall|k: Seq<char>|
        #[trigger] post.contains_key(k) <==> (pre.contains_key(k) && pre[k].expires_at > now)
    &&& forall|k: Seq<char>| #[trigger] post.contains_key(k) ==> post[k] == pre[k]
}

/// What a lookup of `key` at time `now` returns on store contents `m`:
/// the paste if the key is present and unexpired, nothing otherwise.
pub open spec fn spec_get(m: Map<Seq<char>, PasteData>, key: Seq<char>, now: u64) -> Option<
    PasteData,
> {
    if m.contains_key(key) && now < m[key].expires_at {
        Some(m[key])
    } else {
        None
    }
}

/// How an insertion of `content` at time `now` under the fresh key `key`
/// relates the store contents before (`pre`) and after (`post`): the key was
/// free, it now holds the new paste with a full time-to-live, and every other
/// entry survives exactly when it had not yet expired, unchanged — insertion
/// sweeps as a side effect.
pub open spec fn spec_insert_result(
    pre: Map<Seq<char>, PasteData>,
    key: Seq<char>,
    content: Seq<char>,
    now: u64,
    post: Map<Seq<char>, PasteData>,
) -> bool {
    &&& !pre.contains_key(key)
    &&& post.contains_key(key)
    &&& post[key] == (PasteData {
        content: content,
        created_at: now,
        expires_at: (now + TTL_MS) as u64,
    })
    &&& forall|k: Seq<char>|
        k != key ==> (#[trigger] post.contains_key(k) <==> (pre.contains_key(k)
            && pre[k].expires_at > now))
    &&& forall|k: Seq<char>| k != key && #[trigger] post.contains_key(k) ==> post[k] == pre[k]
}

/// An in-process map from generated key to paste, with time supplied by the
/// caller on every operation.
pub struct PasteStore {
    entries: Vec<Entry>,
}

impl View for PasteStore {
    type V = Map<Seq<char>, PasteData>;

    closed spec fn view(&self) -> Map<Seq<char>, PasteData> {
        entries_map(self.entries@)
    }
}

impl PasteStore {
    /// Internal invariant: the stored keys are pairwise distinct, and every
    /// paste expires strictly after its creation.
    pub closed spec fn wf(&self) -> bool {
        &&& keys_distinct(self.entries@)
        &&& forall|i: int| 0 <= i < self.entries@.len() ==> (#[trigger] self.entries@[i]).paste@.wf()
    }

    /// The store starts out empty.
    pub fn new() -> (s: PasteStore)
        ensures
            s.wf(),
            s@ == Map::<Seq<char>, PasteData>::empty(),
    {
        PasteStore { entries: Vec::new() }
    }

    /// Every key of the store maps to a well-formed paste, and there are
    /// finitely many of them.
    pub proof fn lemma_wf_view(&self)
        requires
            self.wf(),
        ensures
            self@.dom().finite(),
            forall|k: Seq<char>| self@.contains_key(k) ==> (#[trigger] self@[k]).wf(),
    {
        lemma_map_contains(self.entries@);
        assert forall|k: Seq<char>| self@.contains_key(k) implies (#[trigger] self@[k]).wf() by {
            let i = choose|i: int|
                0 <= i < self.entries@.len() && (#[trigger] self.entries@[i]).key@ == k;
            lemma_map_index(self.entries@, i);
        }
    }

    /// Whether `key` is currently present, expired or not.
    #[verifier::loop_isolation(false)]
    pub fn contains_key(&self, key: &str) -> (r: bool)
        ensures
            r == self@.contains_key(key@),
    {
        proof {
            lemma_map_contains(self.entries@);
        }
        let mut i: usize = 0;
        while i < self.entries.len()
            invariant
                i <= self.entries@.len(),
                forall|j: int| 0 <= j < i ==> (#[trigger] self.entries@[j]).key@ != key@,
            decreases self.entries@.len() - i,
        {
            if str_eq(self.entries[i].key.as_str(), key) {
                assert(self.entries@[i as int].key@ == key@);
                return true;
            }
            i += 1;
        }
        false
    }

    /// Looks `id` up: a copy of the paste if it is present and has not yet
    /// expired at `now`, and nothing both when the key is absent and when it
    /// has expired — the two are indistinguishable to the caller. The store
    /// is not changed by a read.
    #[verifier::loop_isolation(false)]
    pub fn get_paste(&self, id: &str, now: u64) -> (r: Option<Paste>)
        requires
            self.wf(),
        ensures
            (r is Some) == (self@.contains_key(id@) && now < self@[id@].expires_at),
            (r matches Some(p) ==> Some(p@) == spec_get(self@, id@, now)),
    {
        proof {
            lemma_map_contains(self.entries@);
        }
        let mut i: usize = 0;
        while i < self.entries.len()
            invariant
                i <= self.entries@.len(),
                forall|j: int| 0 <= j < i ==> (#[trigger] self.entries@[j]).key@ != id@,
            decreases self.entries@.len() - i,
        {
            if str_eq(self.entries[i].key.as_str(), id) {
                proof {
                    lemma_map_index(self.entries@, i as int);
                }
                let e = &self.entries[i];
                if now < e.paste.expires_at {
                    return Some(
                        Paste {
                            content: e.paste.content.clone(),
                            created_at: e.paste.created_at,
                            expires_at: e.paste.expires_at,
                        },
                    );
                } else {
                    return None;
                }
            }
            i += 1;
        }
        None
    }

    /// Removes every entry that has expired at `now` — and nothing else.
    /// Calling it again at the same time removes nothing more.
    #[verifier::loop_isolation(false)]
    pub fn cleanup_expired_pastes(&mut self, now: u64)
        requires
            old(self).wf(),
        ensures
            final(self).wf(),
            spec_swept(old(self)@, now, final(self)@),
    {
        let ghost orig = self.entries@;
        let mut kept: Vec<Entry> = Vec::new();
        let mut i: usize = 0;
        while i < self.entries.len()
            invariant
                i <= orig.len(),
                self.entries@ == orig,
                keys_distinct(kept@),
                forall|l: int|
                    0 <= l < kept@.len() ==> is_live_from(orig, i as int, now, #[trigger] kept@[l]),
                forall|j: int|
                    0 <= j < i && (#[trigger] orig[j]).paste.expires_at > now ==> kept@.contains(
                        orig[j],
                    ),
            decreases orig.len() - i,
        {
            let e = &self.entries[i];
            if e.paste.expires_at > now {
                let ghost prev_kept = kept@;
                kept.push(e.clone());
                proof {
                    assert(kept@.last() == orig[i as int]);
                    assert(is_live_from(orig, i as int + 1, now, kept@[kept@.len() - 1]));
                    assert forall|l: int|
                        0 <= l < kept@.len() implies is_live_from(
                        orig,
                        i as int + 1,
                        now,
                        #[trigger] kept@[l],
                    ) by {
                        if l < kept@.len() - 1 {
                            assert(kept@[l] == prev_kept[l]);
                            assert(is_live_from(orig, i as int, now, prev_kept[l]));
                        }
                    }
                    assert(keys_distinct(kept@)) by {
                        assert forall|a: int, b: int|
                            0 <= a < b < kept@.len() implies kept@[a].key@ != kept@[b].key@ by {
                            if b == kept@.len() - 1 {
                                assert(is_live_from(orig, i as int, now, kept@[a]));
                                let j = choose|j: int|
                                    0 <= j < i && kept@[a] == #[trigger] orig[j]
                                        && orig[j].paste.expires_at > now;
                                assert(orig[j].key@ != orig[i as int].key@);
                            }
                        }
                    }
                    assert forall|j: int|
                        0 <= j < i + 1 && (#[trigger] orig[j]).paste.expires_at
                        > now implies kept@.contains(orig[j]) by {
                        if j < i {
                            let l = choose|l: int|
                                0 <= l < prev_kept.len() && prev_kept[l] == orig[j];
                            assert(kept@[l] == orig[j]);
                        } else {
                            assert(kept@[kept@.len() - 1] == orig[j]);
                        }
                    }
                }
            } else {
                proof {
                    assert forall|j: int|
                        0 <= j < i + 1 && (#[trigger] orig[j]).paste.expires_at
                        > now implies kept@.contains(orig[j]) by {
                        assert(j < i);
                    }
                }
            }
            i += 1;
        }
        self.entries = kept;
        proof {
            lemma_map_contains(orig);
            lemma_map_contains(self.entries@);
            assert forall|k: Seq<char>| self@.contains_key(k) implies (old(self)@.contains_key(k)
                && old(self)@[k].expires_at > now && self@[k] == old(self)@[k]) by {
                let l = choose|l: int|
                    0 <= l < self.entries@.len() && (#[trigger] self.entries@[l]).key@ == k;
                lemma_map_index(self.entries@, l);
                assert(is_live_from(orig, orig.len() as int, now, self.entries@[l]));
                let j = choose|j: int|
                    0 <= j < orig.len() && self.entries@[l] == #[trigger] orig[j]
                        && orig[j].paste.expires_at > now;
                lemma_map_index(orig, j);
            }
            assert forall|k: Seq<char>|
                old(self)@.contains_key(k) && old(self)@[k].expires_at > now implies self@.contains_key(
                k,
            ) by {
                let j = choose|j: int| 0 <= j < orig.len() && (#[trigger] orig[j]).key@ == k;
                lemma_map_index(orig, j);
                assert(kept@.contains(orig[j]));
                let l = choose|l: int| 0 <= l < kept@.len() && kept@[l] == orig[j];
                assert(self.entries@[l].key@ == k);
            }
            assert forall|l: int|
                0 <= l < self.entries@.len() implies (#[trigger] self.entries@[l]).paste@.wf() by {
                assert(is_live_from(orig, orig.len() as int, now, self.entries@[l]));
                let j = choose|j: int|
                    0 <= j < orig.len() && self.entries@[l] == #[trigger] orig[j]
                        && orig[j].paste.expires_at > now;
                assert(orig[j].paste@.wf());
            }
        }
    }

    /// Stores `content` under a freshly minted unique key, stamps it with
    /// `created_at = now` and a full time-to-live, and sweeps expired
    /// entries as a side effect. Returns the key; insertion never fails.
    pub fn insert(&mut self, wordlist: &WordList, content: String, now: u64) -> (key: String)
        requires
            old(self).wf(),
            wordlist@.len() > 0,
            now + TTL_MS <= u64::MAX,
        ensures
            final(self).wf(),
            spec_insert_result(old(self)@, key@, content@, now, final(self)@),
            is_generated_key(wordlist@, key@),
            old(self)@ == Map::<Seq<char>, PasteData>::empty() ==> is_key_of(wordlist@, key@),
    {
        let key = self.generate_unique_id(wordlist);
        let paste = Paste { content: content, created_at: now, expires_at: now + TTL_MS };
        let ghost pd = paste@;
        let ghost pre = self.entries@;
        let ghost pre_map = self@;
        let entry_key = key.clone();
        self.entries.push(Entry { key: entry_key, paste: paste });
        proof {
            lemma_map_contains(pre);
            assert(self.entries@.drop_last() =~= pre);
            assert(self@ == pre_map.insert(key@, pd));
            assert(keys_distinct(self.entries@)) by {
                assert forall|a: int, b: int|
                    0 <= a < b < self.entries@.len() implies self.entries@[a].key@
                    != self.entries@[b].key@ by {
                    if b == self.entries@.len() - 1 {
                        assert(self.entries@[a] == pre[a]);
                        assert(!pre_map.contains_key(key@));
                    } else {
                        assert(self.entries@[a] == pre[a]);
                        assert(self.entries@[b] == pre[b]);
                    }
                }
            }
            assert forall|l: int|
                0 <= l < self.entries@.len() implies (#[trigger] self.entries@[l]).paste@.wf() by {
                if l < self.entries@.len() - 1 {
                    assert(self.entries@[l] == pre[l]);
                }
            }
            assert(self.wf());
        }
        let ghost mid_map = self@;
        self.cleanup_expired_pastes(now);
        proof {
            assert(spec_insert_result(pre_map, key@, content@, now, self@)) by {
                assert(mid_map.contains_key(key@));
                assert(mid_map[key@] == pd);
                assert(mid_map[key@].expires_at > now);
                assert(self@.contains_key(key@));
                assert(self@[key@] == pd);
                assert forall|k: Seq<char>|
                    k != key@ implies (#[trigger] self@.contains_key(k) <==> (
                pre_map.contains_key(k) && pre_map[k].expires_at > now)) by {
                    assert(mid_map.contains_key(k) == pre_map.contains_key(k));
                    if mid_map.contains_key(k) {
                        assert(mid_map[k] == pre_map[k]);
                    }
                }
                assert forall|k: Seq<char>|
                    k != key@ && #[trigger] self@.contains_key(k) implies self@[k]
                    == pre_map[k] by {
                    assert(self@[k] == mid_map[k]);
                    assert(mid_map[k] == pre_map[k]);
                }
            }
        }
        key
    }

    /// Mints a key that is not yet present in the store, from two random
    /// words of the list joined with `.`. A bounded number of random draws is
    /// tried first; if every draw collides, a decimal counter is appended as
    /// a documented safety valve that widens the key space — among
    /// `store len + 1` distinct candidates one must be free, so minting, and
    /// with it insertion, never fails. Against an empty store nothing can
    /// collide, so the key is then always of the plain two-word form.
    #[verifier::loop_isolation(false)]
    pub fn generate_unique_id(&self, wordlist: &WordList) -> (id: String)
        requires
            wordlist@.len() > 0,
        ensures
            !self@.contains_key(id@),
            is_generated_key(wordlist@, id@),
            self@ == Map::<Seq<char>, PasteData>::empty() ==> is_key_of(wordlist@, id@),
    {
        let mut attempts: usize = 0;
        while attempts < 32
            invariant
                attempts > 0 ==> self@ != Map::<Seq<char>, PasteData>::empty(),
            decreases 32 - attempts,
        {
            let w1 = wordlist.sample();
            let w2 = wordlist.sample();
            let mut id = w1.clone();
            id.append(".");
            id.append(w2.as_str());
            proof {
                reveal_strlit(".");
                assert("."@ =~= seq!['.']);
            }
            if !self.contains_key(id.as_str()) {
                proof {
                    let i = choose|i: int| 0 <= i < wordlist@.len() && w1@ == wordlist@[i];
                    let j = choose|j: int| 0 <= j < wordlist@.len() && w2@ == wordlist@[j];
                    assert(id@ == wordlist@[i] + seq!['.'] + wordlist@[j]);
                }
                return id;
            }
            proof {
                assert(self@.contains_key(id@));
                assert(self@ != Map::<Seq<char>, PasteData>::empty()) by {
                    assert(!Map::<Seq<char>, PasteData>::empty().contains_key(id@));
                }
            }
            attempts += 1;
        }
        let w1 = wordlist.sample();
        let w2 = wordlist.sample();
        let ghost wi = choose|i: int| 0 <= i < wordlist@.len() && w1@ == wordlist@[i];
        let ghost wj = choose|j: int| 0 <= j < wordlist@.len() && w2@ == wordlist@[j];
        let mut base = w1.clone();
        base.append(".");
        base.append(w2.as_str());
        base.append(".");
        let ghost base_seq = w1@ + seq!['.'] + w2@ + seq!['.'];
        proof {
            reveal_strlit(".");
            assert("."@ =~= seq!['.']);
            assert(base@ == base_seq);
        }
        let m = self.entries.len();
        let mut k: usize = 0;
        while k < m
            invariant
                k <= m,
                forall|a: int| 0 <= a < k ==> self@.contains_key(base_seq + dec_str(a)),
            decreases m - k,
        {
            let mut cand = base.clone();
            push_decimal(&mut cand, k as u64);
            proof {
                assert(cand@ == base_seq + dec_str(k as int));
            }
            if !self.contains_key(cand.as_str()) {
                proof {
                    assert(cand@ == wordlist@[wi] + seq!['.'] + wordlist@[wj] + seq!['.']
                        + dec_str(k as int));
                }
                return cand;
            }
            k += 1;
        }
        let mut cand = base;
        push_decimal(&mut cand, m as u64);
        proof {
            assert(cand@ == base_seq + dec_str(m as int));
        }
        if !self.contains_key(cand.as_str()) {
            proof {
                assert(cand@ == wordlist@[wi] + seq!['.'] + wordlist@[wj] + seq!['.'] + dec_str(
                    m as int,
                ));
            }
            return cand;
        }
        proof {
            lemma_map_len_le(self.entries@);
            assert forall|a: int, b: int|
                0 <= a < b <= m as int implies base_seq + dec_str(a) != base_seq + dec_str(
                b,
            ) by {
                if base_seq + dec_str(a) == base_seq + dec_str(b) {
                    lemma_concat_cancel_left(base_seq, dec_str(a), dec_str(b));
                    lemma_dec_str_injective(a, b);
                }
            }
            lemma_pigeonhole(self@.dom(), |a: int| base_seq + dec_str(a), m as int);
            assert(false);
        }
        vstd::pervasive::unreached()
    }

    /// How many entries are physically present, expired or not.
    pub fn len(&self) -> (n: usize)
        requires
            self.wf(),
        ensures
            n == self@.dom().len(),
    {
        proof {
            lemma_map_len(self.entries@);
        }
        self.entries.len()
    }
}

} // verus!
