use pastebin::store::PasteStore;
use pastebin::store::TTL_MS;
use pastebin::wordlist::WordList;

fn words(list: &[&str]) -> WordList {
    let owned: Vec<String> = list.iter().map(|w| w.to_string()).collect();
    WordList::new(owned).expect("word list must not be empty")
}

#[test]
fn end_to_end_scenario() {
    let wl = words(&["alpha", "beta"]);
    let mut store = PasteStore::new();
    let key = store.insert(&wl, "hello".to_string(), 0);
    assert!(
        key == "alpha.alpha" || key == "alpha.beta" || key == "beta.alpha" || key == "beta.beta",
        "unexpected key {}",
        key
    );
    let got = store.get_paste(&key, 0).expect("fresh paste must be present");
    assert_eq!(got.content, "hello");
    assert!(store.get_paste(&key, TTL_MS).is_none());
    assert!(store.get_paste("nonexistent.key", 0).is_none());
    assert!(store.get_paste("nonexistent.key", TTL_MS).is_none());
}

#[test]
fn expiry_boundary() {
    let wl = words(&["word"]);
    let mut store = PasteStore::new();
    let key = store.insert(&wl, "data".to_string(), 5);
    assert!(store.get_paste(&key, 5).is_some());
    assert!(store.get_paste(&key, 5 + TTL_MS - 1).is_some());
    assert!(store.get_paste(&key, 5 + TTL_MS).is_none());
    assert!(store.get_paste(&key, 5 + TTL_MS + 1).is_none());
}

#[test]
fn paste_timestamps() {
    let wl = words(&["word"]);
    let mut store = PasteStore::new();
    let key = store.insert(&wl, "data".to_string(), 42);
    let got = store.get_paste(&key, 43).expect("unexpired paste must be present");
    assert_eq!(got.created_at, 42);
    assert_eq!(got.expires_at, 42 + TTL_MS);
}

#[test]
fn sweep_removes_expired_and_keeps_live() {
    let wl = words(&["alpha", "beta", "gamma"]);
    let mut store = PasteStore::new();
    let early = store.insert(&wl, "early".to_string(), 0);
    let late = store.insert(&wl, "late".to_string(), 10);
    assert_eq!(store.len(), 2);
    store.cleanup_expired_pastes(TTL_MS);
    assert_eq!(store.len(), 1);
    assert!(store.get_paste(&early, TTL_MS).is_none());
    let kept = store.get_paste(&late, TTL_MS).expect("unexpired entry must survive the sweep");
    assert_eq!(kept.content, "late");
}

#[test]
fn sweep_is_idempotent() {
    let wl = words(&["alpha", "beta"]);
    let mut store = PasteStore::new();
    store.insert(&wl, "one".to_string(), 0);
    store.insert(&wl, "two".to_string(), 0);
    store.cleanup_expired_pastes(TTL_MS + 7);
    assert_eq!(store.len(), 0);
    store.cleanup_expired_pastes(TTL_MS + 7);
    assert_eq!(store.len(), 0);
}

#[test]
fn sweep_on_empty_store() {
    let mut store = PasteStore::new();
    store.cleanup_expired_pastes(0);
    store.cleanup_expired_pastes(u64::MAX);
    assert_eq!(store.len(), 0);
}

#[test]
fn read_is_pure() {
    let wl = words(&["word"]);
    let mut store = PasteStore::new();
    let key = store.insert(&wl, "constant".to_string(), 0);
    let before = store.len();
    let first = store.get_paste(&key, 100).expect("present");
    let second = store.get_paste(&key, 100).expect("present");
    assert_eq!(first.content, second.content);
    assert_eq!(first.created_at, second.created_at);
    assert_eq!(first.expires_at, second.expires_at);
    assert_eq!(store.len(), before);
    store.get_paste("missing.key", 100);
    assert_eq!(store.len(), before);
}

#[test]
fn inserted_keys_are_pairwise_distinct() {
    // Two words give only four two-word keys, so this also drives the
    // counter-suffix fallback of the generator.
    let wl = words(&["a", "b"]);
    let mut store = PasteStore::new();
    let mut keys: Vec<String> = Vec::new();
    for i in 0..10 {
        keys.push(store.insert(&wl, format!("paste {}", i), 0));
    }
    assert_eq!(store.len(), 10);
    for i in 0..keys.len() {
        for j in 0..keys.len() {
            if i != j {
                assert_ne!(keys[i], keys[j]);
            }
        }
    }
    for (i, key) in keys.iter().enumerate() {
        let got = store.get_paste(key, 1).expect("every inserted paste must be present");
        assert_eq!(got.content, format!("paste {}", i));
    }
}

#[test]
fn insert_sweeps_expired_entries() {
    let wl = words(&["alpha", "beta"]);
    let mut store = PasteStore::new();
    let old_key = store.insert(&wl, "old".to_string(), 0);
    let new_key = store.insert(&wl, "new".to_string(), TTL_MS);
    assert_eq!(store.len(), 1);
    assert!(store.get_paste(&old_key, TTL_MS).is_none());
    assert_eq!(store.get_paste(&new_key, TTL_MS).expect("fresh").content, "new");
}

#[test]
fn empty_wordlist_is_rejected() {
    assert!(WordList::new(Vec::new()).is_err());
    assert!(WordList::new(vec!["word".to_string()]).is_ok());
}

#[test]
fn wordlist_len() {
    let wl = words(&["alpha", "beta", "gamma"]);
    assert_eq!(wl.len(), 3);
}

#[test]
fn sample_returns_a_member() {
    let wl = words(&["alpha", "beta"]);
    for _ in 0..20 {
        let w = wl.sample();
        assert!(w.as_str() == "alpha" || w.as_str() == "beta");
    }
}
