//! Tier-based selection of memory entries under a token budget.

use vstd::prelude::*;
use vstd::utf8::{encode_utf8, is_char_boundary};
use crate::json::append_text;
use crate::token_optimizer::tokens_of;

verus! {

#[derive(Debug, Clone, Copy, PartialEq, Eq, Structural)]
/// How much of a call's memory budget may be spent: nothing, a quarter, a half, or all of it.
pub enum MemoryTier {
    NoMemory,
    CompressedSummary,
    Delta,
    Full,
}

impl Default for MemoryTier {
    fn default() -> (r: Self)
        ensures
            r == MemoryTier::NoMemory,
    {
        MemoryTier::NoMemory
    }
}

pub struct MemoryEntry {
    pub key: String,
    pub value: String,
    pub tier: MemoryTier,
}

pub struct MemoryManager {
    entries: Vec<MemoryEntry>,
}

pub proof fn lemma_encode_concat(a: Seq<char>, b: Seq<char>)
    ensures
        encode_utf8(a + b) == encode_utf8(a) + encode_utf8(b),
    decreases a.len(),
{
    if a.len() == 0 {
        assert(a + b =~= b);
        assert(encode_utf8(a) =~= Seq::<u8>::empty());
        assert(encode_utf8(a) + encode_utf8(b) =~= encode_utf8(b));
    } else {
        assert((a + b).drop_first() =~= a.drop_first() + b);
        lemma_encode_concat(a.drop_first(), b);
        assert((a + b)[0] == a[0]);
        assert(encode_utf8(a + b) =~= encode_utf8(a) + encode_utf8(b));
    }
}

/// The largest character boundary of `bytes` that is at most `k`.
pub open spec fn boundary_floor(bytes: Seq<u8>, k: int) -> int
    decreases k,
{
    if k <= 0 {
        0
    } else if is_char_boundary(bytes, k) {
        k
    } else {
        boundary_floor(bytes, k - 1)
    }
}

/// Where a text is cut to fit in `max` bytes without splitting a character.
pub open spec fn cut_point(bytes: Seq<u8>, max: int) -> int {
    if bytes.len() <= max {
        bytes.len() as int
    } else {
        boundary_floor(bytes, max)
    }
}

proof fn lemma_boundary_floor(bytes: Seq<u8>, k: int)
    ensures
        0 <= boundary_floor(bytes, k),
        k >= 0 ==> boundary_floor(bytes, k) <= k,
    decreases k,
{
    if k > 0 && !is_char_boundary(bytes, k) {
        lemma_boundary_floor(bytes, k - 1);
    }
}

/// Length of a text in UTF-8 bytes.
pub fn byte_len(s: &str) -> (r: usize)
    ensures
        r == encode_utf8(s@).len(),
{
    s.as_bytes().len()
}

/// The longest prefix of `s` that fits in `max_bytes` bytes and ends on a
/// character boundary.
pub fn safe_truncate(s: &str, max_bytes: usize) -> (r: &str)
    ensures
        encode_utf8(r@) == encode_utf8(s@).subrange(0, cut_point(encode_utf8(s@), max_bytes as int)),
{
    broadcast use vstd::utf8::encode_utf8_valid_utf8;
    if byte_len(s) <= max_bytes {
        proof {
            assert(encode_utf8(s@).subrange(0, encode_utf8(s@).len() as int) =~= encode_utf8(s@));
        }
        return s;
    }
    let mut end: usize = max_bytes;
    while end > 0 && !s.is_char_boundary(end)
        invariant
            end <= max_bytes,
            boundary_floor(encode_utf8(s@), end as int) == boundary_floor(encode_utf8(s@), max_bytes as int),
        decreases end,
    {
        end -= 1;
    }
    proof {
        lemma_boundary_floor(encode_utf8(s@), max_bytes as int);
    }
    let (head, _) = s.split_at(end);
    head
}

/// A memory entry as it is written into the selected text: `key:value` and a newline.
pub open spec fn segment_text(e: MemoryEntry) -> Seq<char> {
    e.key@ + ":"@ + e.value@ + "\n"@
}

/// The bytes of the selection, from entry `i` on, after `acc`: whole
/// entries while they fit in `max` bytes, then what fits of the next one.
pub open spec fn fill(entries: Seq<MemoryEntry>, max: int, acc: Seq<u8>, i: int) -> Seq<u8>
    decreases entries.len() - i,
{
    if i >= entries.len() || i < 0 {
        acc
    } else {
        let seg = encode_utf8(segment_text(entries[i]));
        if acc.len() + seg.len() > max {
            if max - acc.len() > 0 {
                acc + seg.subrange(0, cut_point(seg, max - acc.len()))
            } else {
                acc
            }
        } else {
            fill(entries, max, acc + seg, i + 1)
        }
    }
}

/// The token budget that a tier may spend out of `budget`.
pub open spec fn tier_budget(tier: MemoryTier, budget: u32) -> int {
    match tier {
        MemoryTier::NoMemory => 0,
        MemoryTier::CompressedSummary => budget as int / 4,
        MemoryTier::Delta => budget as int / 2,
        MemoryTier::Full => budget as int,
    }
}

/// The UTF-8 bytes of the memory text selected for a tier and budget.
pub open spec fn selected_bytes(entries: Seq<MemoryEntry>, tier: MemoryTier, budget: u32) -> Seq<u8> {
    if tier == MemoryTier::NoMemory || budget == 0 {
        Seq::empty()
    } else {
        fill(entries, tier_budget(tier, budget) * 4, Seq::empty(), 0)
    }
}

impl MemoryManager {
    pub closed spec fn entries_view(&self) -> Seq<MemoryEntry> {
        self.entries@
    }

    pub fn new() -> (r: Self)
        ensures
            r.entries_view() == Seq::<MemoryEntry>::empty(),
    {
        MemoryManager { entries: Vec::new() }
    }

    pub fn add(&mut self, entry: MemoryEntry)
        ensures
            final(self).entries_view() == old(self).entries_view().push(entry),
    {
        self.entries.push(entry);
    }

    /// The memory text for a tier: entries as `key:value` lines, in the
    /// order they were added, within `budget / {4, 2, 1}` tokens of four
    /// bytes each; a partial last entry is cut on a character boundary.
    pub fn select_and_trim(&self, tier: MemoryTier, budget_tokens: u32) -> (r: String)
        ensures
            encode_utf8(r@) == selected_bytes(self.entries_view(), tier, budget_tokens),
    {
        if tier == MemoryTier::NoMemory || budget_tokens == 0 {
            let r = String::new();
            proof {
                assert(encode_utf8(r@) =~= Seq::<u8>::empty());
            }
            return r;
        }
        let effective_budget: u32 = match tier {
            MemoryTier::NoMemory => 0,
            MemoryTier::CompressedSummary => budget_tokens / 4,
            MemoryTier::Delta => budget_tokens / 2,
            MemoryTier::Full => budget_tokens,
        };
        let max_chars: u64 = (effective_budget as u64) * 4;
        let ghost entries = self.entries@;
        let ghost max = max_chars as int;
        let mut result = String::new();
        proof {
            assert(encode_utf8(result@) =~= Seq::<u8>::empty());
        }
        let mut i: usize = 0;
        while i < self.entries.len()
            invariant
                entries == self.entries@,
                max == max_chars as int,
                max == tier_budget(tier, budget_tokens) * 4,
                i <= entries.len(),
                encode_utf8(result@).len() <= max,
                fill(entries, max, encode_utf8(result@), i as int) == selected_bytes(entries, tier, budget_tokens),
            decreases self.entries.len() - i,
        {
            let entry = &self.entries[i];
            let mut segment = String::new();
            append_text(&mut segment, entry.key.as_str());
            append_text(&mut segment, ":");
            append_text(&mut segment, entry.value.as_str());
            append_text(&mut segment, "\n");
            proof {
                assert(segment@ =~= segment_text(entries[i as int]));
            }
            let res_len: usize = byte_len(result.as_str());
            let seg_len: usize = byte_len(segment.as_str());
            if seg_len as u64 > max_chars - res_len as u64 {
                let remaining: u64 = max_chars - res_len as u64;
                if remaining > 0 {
                    let safe = safe_truncate(segment.as_str(), remaining as usize);
                    let ghost before = result@;
                    append_text(&mut result, safe);
                    proof {
                        lemma_encode_concat(before, safe@);
                    }
                }
                return result;
            }
            let ghost before = result@;
            append_text(&mut result, segment.as_str());
            proof {
                lemma_encode_concat(before, segment@);
            }
            i += 1;
        }
        result
    }

    pub fn entries(&self) -> (r: &[MemoryEntry])
        ensures
            r@ == self.entries_view(),
    {
        self.entries.as_slice()
    }
}

/// Token estimate of a memory text: a quarter of its length in bytes.
pub fn estimate_memory_tokens(text: &str) -> (r: u32)
    ensures
        r == tokens_of(text@),
{
    crate::token_optimizer::estimate_tokens(text)
}

} // verus!
