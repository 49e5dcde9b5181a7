use agenthub_runtime::memory::{MemoryEntry, MemoryManager, MemoryTier, estimate_memory_tokens};

#[test]
fn none_returns_empty() {
    let mgr = MemoryManager::new();
    assert!(mgr.select_and_trim(MemoryTier::NoMemory, 1000).is_empty());
}

#[test]
fn full_respects_budget() {
    let mut mgr = MemoryManager::new();
    mgr.add(MemoryEntry {
        key: "k".into(),
        value: "x".repeat(2000),
        tier: MemoryTier::Full,
    });
    let result = mgr.select_and_trim(MemoryTier::Full, 100);
    assert!(result.len() <= 400);
}

#[test]
fn compressed_uses_quarter_budget() {
    let mut mgr = MemoryManager::new();
    mgr.add(MemoryEntry {
        key: "k".into(),
        value: "x".repeat(2000),
        tier: MemoryTier::CompressedSummary,
    });
    let result = mgr.select_and_trim(MemoryTier::CompressedSummary, 400);
    assert!(result.len() <= 400);
}

#[test]
fn whole_entries_then_a_cut_entry() {
    let mut mgr = MemoryManager::new();
    mgr.add(MemoryEntry { key: "a".into(), value: "1".into(), tier: MemoryTier::Full });
    mgr.add(MemoryEntry { key: "bb".into(), value: "22".into(), tier: MemoryTier::Full });
    mgr.add(MemoryEntry { key: "c".into(), value: "3".into(), tier: MemoryTier::Full });
    // Full tier, 2 tokens: 8 bytes. "a:1\n" fits (4), "bb:22\n" (6) does not: 4 bytes of it follow.
    assert_eq!(mgr.select_and_trim(MemoryTier::Full, 2), "a:1\nbb:2");
    // Delta tier halves the budget: 4 tokens -> 2 -> 8 bytes.
    assert_eq!(mgr.select_and_trim(MemoryTier::Delta, 4), "a:1\nbb:2");
    // Enough room for everything.
    assert_eq!(mgr.select_and_trim(MemoryTier::Full, 100), "a:1\nbb:22\nc:3\n");
    // A zero budget gives nothing.
    assert_eq!(mgr.select_and_trim(MemoryTier::Full, 0), "");
    // A quarter of 3 tokens is 0 tokens.
    assert_eq!(mgr.select_and_trim(MemoryTier::CompressedSummary, 3), "");
}

#[test]
fn cut_never_splits_a_character() {
    let mut mgr = MemoryManager::new();
    mgr.add(MemoryEntry { key: "k".into(), value: "ééé".into(), tier: MemoryTier::Full });
    // 4 bytes of room: "k:" is 2 bytes, then "é" is 2 bytes; the next "é" would split.
    let r = mgr.select_and_trim(MemoryTier::Full, 1);
    assert_eq!(r, "k:é");
    // A cut inside the first character keeps only what precedes it.
    let mut m2 = MemoryManager::new();
    m2.add(MemoryEntry { key: "kk".into(), value: "é".into(), tier: MemoryTier::Full });
    assert_eq!(m2.select_and_trim(MemoryTier::Full, 1), "kk:");
}

#[test]
fn memory_token_estimate() {
    assert_eq!(estimate_memory_tokens(""), 0);
    assert_eq!(estimate_memory_tokens("abcdefg"), 1);
    assert_eq!(estimate_memory_tokens("abcdefgh"), 2);
    assert_eq!(estimate_memory_tokens("éé"), 1);
}

#[test]
fn entries_keep_insertion_order() {
    let mut mgr = MemoryManager::new();
    mgr.add(MemoryEntry { key: "first".into(), value: "1".into(), tier: MemoryTier::Delta });
    mgr.add(MemoryEntry { key: "second".into(), value: "2".into(), tier: MemoryTier::Full });
    let e = mgr.entries();
    assert_eq!(e.len(), 2);
    assert_eq!(e[0].key, "first");
    assert_eq!(e[1].key, "second");
}
