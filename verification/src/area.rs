//! A memory area: one continuous range of virtual memory with uniform
//! flags, one mapping backend, and a table of the frames it owns.
use vstd::prelude::*;

use crate::addr::spec_is_aligned_4k;
use crate::addr::AddrRange;
use crate::addr::PAGE_SIZE_4K;
use crate::backend::frame_keys_sorted;
use crate::backend::has_key;
use crate::backend::key_index;
use crate::backend::val_at;
use crate::backend::MappingBackend;
use crate::MappingError;
use crate::MappingResult;

verus! {

/// In a key-sorted frame list, the entry at position `i` is the one found
/// for its key.
pub proof fn lemma_val_at_index<V>(s: Seq<(usize, V)>, i: int)
    requires
        frame_keys_sorted(s),
        0 <= i < s.len(),
    ensures
        has_key(s, s[i].0),
        key_index(s, s[i].0) == i,
        val_at(s, s[i].0) == s[i].1,
{
    assert(has_key(s, s[i].0));
    let j = key_index(s, s[i].0);
    assert(0 <= j < s.len() && s[j].0 == s[i].0);
    if j < i {
        assert(s[j].0 < s[i].0);
    } else if j > i {
        assert(s[i].0 < s[j].0);
    }
}

/// In a key-sorted frame list, a held key names exactly one entry.
pub proof fn lemma_key_index<V>(s: Seq<(usize, V)>, k: usize)
    requires
        frame_keys_sorted(s),
        has_key(s, k),
    ensures
        0 <= key_index(s, k) < s.len(),
        s[key_index(s, k)].0 == k,
        s[key_index(s, k)].1 == val_at(s, k),
{
    let j = key_index(s, k);
    assert(0 <= j < s.len() && s[j].0 == k);
}

/// Returns the position of the first entry whose key is at least `k`.
fn key_lower_bound<V>(s: &Vec<(usize, V)>, k: usize) -> (idx: usize)
    requires
        frame_keys_sorted(s@),
    ensures
        idx <= s@.len(),
        forall|i: int| 0 <= i < idx ==> (#[trigger] s@[i]).0 < k,
        forall|i: int| idx <= i < s@.len() ==> (#[trigger] s@[i]).0 >= k,
{
    let mut idx: usize = 0;
    loop
        invariant
            idx <= s@.len(),
            frame_keys_sorted(s@),
            forall|i: int| 0 <= i < idx ==> (#[trigger] s@[i]).0 < k,
        decreases s@.len() - idx,
    {
        if idx == s.len() {
            return idx;
        }
        if s[idx].0 >= k {
            assert forall|i: int| idx <= i < s@.len() implies (#[trigger] s@[i]).0 >= k by {
                if i > idx {
                    assert(s@[idx as int].0 < s@[i].0);
                }
            }
            return idx;
        }
        idx += 1;
    }
}

/// Inserts `(key, val)` into a key-sorted frame list, replacing and
/// returning the previous entry for `key` if there is one.
fn upsert_frame<V>(v: &mut Vec<(usize, V)>, key: usize, val: V) -> (r: Option<V>)
    requires
        frame_keys_sorted(old(v)@),
    ensures
        frame_keys_sorted(final(v)@),
        forall|va: usize| #![trigger has_key(final(v)@, va)]
            has_key(final(v)@, va) <==> has_key(old(v)@, va) || va == key,
        has_key(final(v)@, key) && val_at(final(v)@, key) == val,
        forall|va: usize| #![trigger val_at(final(v)@, va)]
            va != key && has_key(old(v)@, va) ==> val_at(final(v)@, va) == val_at(old(v)@, va),
        has_key(old(v)@, key) ==> r == Some(val_at(old(v)@, key)) && final(v)@.len() == old(
            v,
        )@.len(),
        !has_key(old(v)@, key) ==> r is None && final(v)@.len() == old(v)@.len() + 1,
        forall|va: usize| #![trigger has_key(old(v)@, va)]
            has_key(old(v)@, va) ==> has_key(final(v)@, va),
{
    let ghost v0 = v@;
    let idx = key_lower_bound(v, key);
    if idx < v.len() && v[idx].0 == key {
        let mut pair = (key, val);
        core::mem::swap(&mut v[idx], &mut pair);
        proof {
            lemma_val_at_index(v0, idx as int);
            assert(v@ == v0.update(idx as int, (key, val)));
            assert forall|va: usize| #![trigger has_key(v@, va)]
                has_key(v@, va) <==> has_key(v0, va) || va == key by {
                assert(v@[idx as int].0 == key);
                if has_key(v@, va) {
                    let i = key_index(v@, va);
                    if i != idx {
                        assert(v0[i].0 == va);
                    }
                }
                if has_key(v0, va) {
                    let i = key_index(v0, va);
                    if i != idx {
                        assert(v@[i].0 == va);
                    } else {
                        assert(va == key);
                    }
                }
            }
            lemma_val_at_index(v@, idx as int);
            assert forall|va: usize| #![trigger val_at(v@, va)]
                va != key && has_key(v0, va) implies val_at(v@, va) == val_at(v0, va) by {
                let i = key_index(v0, va);
                lemma_key_index(v0, va);
                assert(i != idx);
                assert(v@[i].0 == va && v@[i].1 == v0[i].1);
                lemma_val_at_index(v@, i);
            }
        }
        Some(pair.1)
    } else {
        v.insert(idx, (key, val));
        proof {
            assert(v@ == v0.insert(idx as int, (key, val)));
            assert(!has_key(v0, key)) by {
                if has_key(v0, key) {
                    let i = key_index(v0, key);
                    assert(v0[i].0 == key);
                    assert(i >= idx);
                    if i > idx {
                        assert(v0[idx as int].0 < v0[i].0);
                        assert(v0[idx as int].0 >= key);
                    }
                }
            }
            assert(frame_keys_sorted(v@)) by {
                assert forall|i: int, j: int| 0 <= i < j < v@.len() implies v@[i].0 < v@[j].0 by {
                    if j < idx {
                        assert(v@[i] == v0[i] && v@[j] == v0[j]);
                    } else if i > idx {
                        assert(v@[i] == v0[i - 1] && v@[j] == v0[j - 1]);
                    } else if i == idx {
                        assert(v@[j] == v0[j - 1] && v0[j - 1].0 >= key);
                        assert(v0[j - 1].0 != key);
                    } else if j == idx {
                        assert(v@[i] == v0[i] && v0[i].0 < key);
                    } else {
                        // i < idx < j
                        assert(v@[i] == v0[i] && v0[i].0 < key);
                        assert(v@[j] == v0[j - 1] && v0[j - 1].0 >= key);
                        assert(v0[j - 1].0 != key);
                    }
                }
            }
            assert forall|va: usize| #![trigger has_key(v@, va)]
                has_key(v@, va) <==> has_key(v0, va) || va == key by {
                assert(v@[idx as int].0 == key);
                if has_key(v@, va) {
                    let i = key_index(v@, va);
                    if i < idx {
                        assert(v0[i].0 == va);
                    } else if i > idx {
                        assert(v0[i - 1].0 == va);
                    }
                }
                if has_key(v0, va) {
                    let i = key_index(v0, va);
                    if i < idx {
                        assert(v@[i].0 == va);
                    } else {
                        assert(v@[i + 1].0 == va);
                    }
                }
            }
            lemma_val_at_index(v@, idx as int);
            assert forall|va: usize| #![trigger val_at(v@, va)]
                va != key && has_key(v0, va) implies val_at(v@, va) == val_at(v0, va) by {
                let i = key_index(v0, va);
                lemma_key_index(v0, va);
                if i < idx {
                    assert(v@[i].0 == va && v@[i].1 == v0[i].1);
                    lemma_val_at_index(v@, i);
                } else {
                    assert(v@[i + 1].0 == va && v@[i + 1].1 == v0[i].1);
                    lemma_val_at_index(v@, i + 1);
                }
            }
        }
        None
    }
}

/// Merges a key-sorted frame list into another; entries of `src` replace
/// entries of `dst` with the same key, and replaced values are dropped.
fn merge_frames<V>(dst: &mut Vec<(usize, V)>, src: Vec<(usize, V)>)
    requires
        frame_keys_sorted(old(dst)@),
        frame_keys_sorted(src@),
    ensures
        frame_keys_sorted(final(dst)@),
        forall|va: usize| #![trigger has_key(final(dst)@, va)]
            has_key(final(dst)@, va) <==> has_key(old(dst)@, va) || has_key(src@, va),
        forall|va: usize| #![trigger has_key(src@, va)]
            has_key(src@, va) ==> val_at(final(dst)@, va) == val_at(src@, va),
        forall|va: usize| #![trigger val_at(final(dst)@, va)]
            has_key(old(dst)@, va) && !has_key(src@, va) ==> val_at(final(dst)@, va) == val_at(
                old(dst)@,
                va,
            ),
{
    let ghost src0 = src@;
    let ghost dst0 = old(dst)@;
    let mut src = src;
    proof {
        assert(src0.subrange(0, src0.len() as int) =~= src0);
    }
    while src.len() > 0
        invariant
            frame_keys_sorted(dst@),
            frame_keys_sorted(src0),
            exists|i: int| 0 <= i <= src0.len() && src@ == src0.subrange(i, src0.len() as int),
            forall|va: usize| #![trigger has_key(dst@, va)]
                has_key(dst@, va) <==> has_key(dst0, va) || (has_key(src0, va) && !has_key(
                    src@,
                    va,
                )),
            forall|va: usize| #![trigger has_key(src0, va)]
                has_key(src0, va) && !has_key(src@, va) ==> val_at(dst@, va) == val_at(src0, va),
            forall|va: usize| #![trigger val_at(dst@, va)]
                has_key(dst0, va) && !has_key(src0, va) ==> val_at(dst@, va) == val_at(dst0, va),
        decreases src@.len(),
    {
        let ghost src_pre = src@;
        let ghost i = choose|i: int|
            0 <= i <= src0.len() && src_pre == src0.subrange(i, src0.len() as int);
        let p = src.remove(0);
        proof {
            assert(src_pre == src0.subrange(i, src0.len() as int));
            assert(src@ =~= src0.subrange(i + 1, src0.len() as int));
            assert(p == src0[i]);
            lemma_val_at_index(src0, i);
            // keys remaining in src are strictly greater than p.0
            assert forall|va: usize| has_key(src@, va) implies va > p.0 && has_key(
                src_pre,
                va,
            ) by {
                let j = key_index(src@, va);
                assert(src@[j] == src0[i + 1 + j]);
                assert(src0[i].0 < src0[i + 1 + j].0);
                assert(src_pre[j + 1].0 == va);
            }
            assert forall|va: usize| has_key(src_pre, va) implies has_key(src0, va) && (va == p.0
                || has_key(src@, va)) by {
                let j = key_index(src_pre, va);
                assert(src_pre[j] == src0[i + j]);
                if j > 0 {
                    assert(src@[j - 1].0 == va);
                }
            }
        }
        let ghost dst_pre = dst@;
        upsert_frame(dst, p.0, p.1);
        proof {
            assert forall|va: usize| #![trigger has_key(dst@, va)]
                has_key(dst@, va) <==> has_key(dst0, va) || (has_key(src0, va) && !has_key(
                    src@,
                    va,
                )) by {
                if va == p.0 {
                    assert(has_key(src0, va) && !has_key(src@, va));
                    assert(has_key(dst@, va));
                }
            }
        }
    }
}

/// Removes from a key-sorted frame list every entry whose key lies in
/// `[lo, hi)`; the removed values are dropped.
fn remove_frame_range<V>(v: &mut Vec<(usize, V)>, lo: usize, hi: usize)
    requires
        frame_keys_sorted(old(v)@),
    ensures
        frame_keys_sorted(final(v)@),
        forall|va: usize| #![trigger has_key(final(v)@, va)]
            has_key(final(v)@, va) <==> has_key(old(v)@, va) && !(lo <= va < hi),
        forall|va: usize| #![trigger val_at(final(v)@, va)]
            has_key(old(v)@, va) && !(lo <= va < hi) ==> val_at(final(v)@, va) == val_at(
                old(v)@,
                va,
            ),
{
    let ghost v0 = v@;
    let lo_idx = key_lower_bound(v, lo);
    let mut tail = v.split_off(lo_idx);
    let hi_idx = key_lower_bound(&tail, hi);
    let mut keep = tail.split_off(hi_idx);
    v.append(&mut keep);
    proof {
        let a = v0.subrange(0, lo_idx as int);
        let b = v0.subrange(lo_idx + hi_idx, v0.len() as int);
        assert(tail@ == v0.subrange(lo_idx as int, v0.len() as int).subrange(0, hi_idx as int));
        assert(v@ == a + b);
        assert forall|i: int, j: int| 0 <= i < j < v@.len() implies v@[i].0 < v@[j].0 by {
            if i < a.len() && j >= a.len() {
                assert(v@[i] == v0[i]);
                assert(v@[j] == v0[j - a.len() + lo_idx + hi_idx]);
            } else if i >= a.len() {
                assert(v@[i] == v0[i - a.len() + lo_idx + hi_idx]);
                assert(v@[j] == v0[j - a.len() + lo_idx + hi_idx]);
            }
        }
        assert forall|va: usize| #![trigger has_key(v@, va)]
            has_key(v@, va) <==> has_key(v0, va) && !(lo <= va < hi) by {
            if has_key(v@, va) {
                let i = key_index(v@, va);
                if i < a.len() {
                    assert(v@[i] == v0[i]);
                    assert(v0[i].0 < lo);
                    lemma_val_at_index(v0, i);
                } else {
                    assert(v@[i] == v0[i - a.len() + lo_idx + hi_idx]);
                    let oi = i - a.len() + lo_idx + hi_idx;
                    assert(v0.subrange(lo_idx as int, v0.len() as int)[oi - lo_idx].0 >= hi);
                    lemma_val_at_index(v0, oi);
                }
            }
            if has_key(v0, va) && !(lo <= va < hi) {
                let i = key_index(v0, va);
                if va < lo {
                    assert(i < lo_idx) by {
                        if i >= lo_idx {
                            assert(v0[i].0 >= lo);
                        }
                    }
                    assert(v@[i].0 == va);
                } else {
                    // va >= hi
                    assert(i >= lo_idx + hi_idx) by {
                        if i < lo_idx {
                            assert(v0[i].0 < lo);
                        } else if i < lo_idx + hi_idx {
                            assert(v0.subrange(lo_idx as int, v0.len() as int).subrange(
                                0,
                                hi_idx as int,
                            )[i - lo_idx].0 < hi);
                        }
                    }
                    assert(v@[i - lo_idx - hi_idx + a.len()].0 == va);
                }
            }
        }
        assert forall|va: usize| #![trigger val_at(v@, va)]
            has_key(v0, va) && !(lo <= va < hi) implies val_at(v@, va) == val_at(v0, va) by {
            lemma_key_index(v0, va);
            let i = key_index(v0, va);
            if va < lo {
                assert(i < lo_idx) by {
                    if i >= lo_idx {
                        assert(v0[i].0 >= lo);
                    }
                }
                assert(v@[i] == v0[i]);
                lemma_val_at_index(v@, i);
            } else {
                assert(i >= lo_idx + hi_idx) by {
                    if i < lo_idx {
                        assert(v0[i].0 < lo);
                    } else if i < lo_idx + hi_idx {
                        assert(v0.subrange(lo_idx as int, v0.len() as int).subrange(
                            0,
                            hi_idx as int,
                        )[i - lo_idx].0 < hi);
                    }
                }
                assert(v@[i - lo_idx - hi_idx + a.len()] == v0[i]);
                lemma_val_at_index(v@, i - lo_idx - hi_idx + a.len());
            }
        }
    }
}

/// Keeps in a key-sorted frame list only the entries whose key lies in
/// `[lo, hi)`; the removed values are dropped.
fn keep_frame_range<V>(v: &mut Vec<(usize, V)>, lo: usize, hi: usize)
    requires
        frame_keys_sorted(old(v)@),
    ensures
        frame_keys_sorted(final(v)@),
        forall|va: usize| #![trigger has_key(final(v)@, va)]
            has_key(final(v)@, va) <==> has_key(old(v)@, va) && lo <= va < hi,
        forall|va: usize| #![trigger val_at(final(v)@, va)]
            has_key(old(v)@, va) && lo <= va < hi ==> val_at(final(v)@, va) == val_at(
                old(v)@,
                va,
            ),
{
    let ghost v0 = v@;
    let lo_idx = key_lower_bound(v, lo);
    let mut mid = v.split_off(lo_idx);
    let hi_idx = key_lower_bound(&mid, hi);
    mid.truncate(hi_idx);
    core::mem::swap(v, &mut mid);
    proof {
        let whole = v0.subrange(lo_idx as int, v0.len() as int);
        assert(v@ == whole.subrange(0, hi_idx as int));
        assert forall|i: int, j: int| 0 <= i < j < v@.len() implies v@[i].0 < v@[j].0 by {
            assert(v@[i] == v0[lo_idx + i] && v@[j] == v0[lo_idx + j]);
        }
        assert forall|va: usize| #![trigger has_key(v@, va)]
            has_key(v@, va) <==> has_key(v0, va) && lo <= va < hi by {
            if has_key(v@, va) {
                let i = key_index(v@, va);
                assert(v@[i] == v0[lo_idx + i]);
                assert(whole[i].0 < hi);
                lemma_val_at_index(v0, lo_idx + i);
            }
            if has_key(v0, va) && lo <= va < hi {
                let i = key_index(v0, va);
                assert(i >= lo_idx) by {
                    if i < lo_idx {
                        assert(v0[i].0 < lo);
                    }
                }
                assert(i - lo_idx < hi_idx) by {
                    if i - lo_idx >= hi_idx {
                        assert(whole[i - lo_idx].0 >= hi);
                    }
                }
                assert(v@[i - lo_idx].0 == va);
            }
        }
        assert forall|va: usize| #![trigger val_at(v@, va)]
            has_key(v0, va) && lo <= va < hi implies val_at(v@, va) == val_at(v0, va) by {
            lemma_key_index(v0, va);
            let i = key_index(v0, va);
            assert(i >= lo_idx) by {
                if i < lo_idx {
                    assert(v0[i].0 < lo);
                }
            }
            assert(i - lo_idx < hi_idx) by {
                if i - lo_idx >= hi_idx {
                    assert(whole[i - lo_idx].0 >= hi);
                }
            }
            assert(v@[i - lo_idx] == v0[i]);
            lemma_val_at_index(v@, i - lo_idx);
        }
    }
}

/// A snapshot of one area's bounds and memory usage.
#[derive(Debug, Clone, Copy, PartialEq, Eq, Structural)]
pub struct AreaStat {
    /// The start address of the area.
    pub start: usize,
    /// The end address of the area.
    pub end: usize,
    /// The size of the area's range, in bytes.
    pub size: usize,
    /// Resident memory: the bytes of the frames held by the area.
    pub rss: usize,
    /// Swapped-out memory, in bytes.
    pub swap: usize,
}

/// A memory area represents a continuous range of virtual memory with the
/// same flags.
///
/// The target physical memory frames are determined by [`MappingBackend`] and
/// may not be contiguous. The area owns a table of frame references keyed by
/// 4K-aligned virtual addresses inside its range; dropping an entry releases
/// the frame once the last reference to it dies.
pub struct MemoryArea<B: MappingBackend> {
    va_range: AddrRange,
    frames: Vec<(usize, B::FrameTrackerRef)>,
    flags: B::Flags,
    backend: B,
}

impl<B: MappingBackend> MemoryArea<B> {
    /// The virtual address range of the area.
    pub closed spec fn spec_va_range(self) -> AddrRange {
        self.va_range
    }

    /// The start address of the area.
    pub open spec fn spec_start(self) -> usize {
        self.spec_va_range().start
    }

    /// The end address of the area.
    pub open spec fn spec_end(self) -> usize {
        self.spec_va_range().end
    }

    /// The flags of the area.
    pub closed spec fn spec_flags(self) -> B::Flags {
        self.flags
    }

    /// The backend of the area.
    pub closed spec fn spec_backend(self) -> B {
        self.backend
    }

    /// The frame table of the area, as a key-sorted list of entries.
    pub closed spec fn frames_seq(self) -> Seq<(usize, B::FrameTrackerRef)> {
        self.frames@
    }

    /// Whether the area holds a frame for virtual address `va`.
    pub open spec fn has_frame(self, va: usize) -> bool {
        has_key(self.frames_seq(), va)
    }

    /// The frame reference the area holds for virtual address `va`.
    pub open spec fn frame_val(self, va: usize) -> B::FrameTrackerRef {
        val_at(self.frames_seq(), va)
    }

    /// Well-formedness: the range is ordered, and the frame table is sorted
    /// by key with every key 4K-aligned and inside the range.
    pub open spec fn wf(self) -> bool {
        &&& self.spec_va_range().wf()
        &&& frame_keys_sorted(self.frames_seq())
        &&& forall|i: int|
            0 <= i < self.frames_seq().len() ==> spec_is_aligned_4k(
                #[trigger] self.frames_seq()[i].0,
            ) && self.spec_va_range().spec_contains(self.frames_seq()[i].0)
    }

    /// Whether `self` keeps the range, flags and backend of `other`.
    pub open spec fn same_shape(self, other: MemoryArea<B>) -> bool {
        &&& self.spec_va_range() == other.spec_va_range()
        &&& self.spec_flags() == other.spec_flags()
        &&& self.spec_backend() == other.spec_backend()
    }

    /// Creates a new memory area covering `[start, start + size)`, with the
    /// given frame table (or an empty one), flags and backend. The page
    /// table is not touched.
    pub fn new(
        start: usize,
        size: usize,
        frame_alloced: Option<Vec<(usize, B::FrameTrackerRef)>>,
        flags: B::Flags,
        backend: B,
    ) -> (r: MemoryArea<B>)
        requires
            start + size <= usize::MAX,
            frame_alloced matches Some(f) ==> frame_keys_sorted(f@) && forall|i: int|
                0 <= i < f@.len() ==> spec_is_aligned_4k(#[trigger] f@[i].0) && start <= f@[i].0
                    < start + size,
        ensures
            r.spec_start() == start,
            r.spec_end() == start + size,
            r.spec_flags() == flags,
            r.spec_backend() == backend,
            frame_alloced matches Some(f) ==> r.frames_seq() == f@,
            frame_alloced is None ==> r.frames_seq().len() == 0,
            r.wf(),
    {
        let frames = match frame_alloced {
            Some(f) => f,
            None => Vec::new(),
        };
        MemoryArea { va_range: AddrRange::from_start_size(start, size), frames, flags, backend }
    }

    /// Creates a new anonymous-mapping memory area; behaves as [`Self::new`].
    pub fn new_mmap(
        start: usize,
        size: usize,
        frame_alloced: Option<Vec<(usize, B::FrameTrackerRef)>>,
        flags: B::Flags,
        backend: B,
    ) -> (r: MemoryArea<B>)
        requires
            start + size <= usize::MAX,
            frame_alloced matches Some(f) ==> frame_keys_sorted(f@) && forall|i: int|
                0 <= i < f@.len() ==> spec_is_aligned_4k(#[trigger] f@[i].0) && start <= f@[i].0
                    < start + size,
        ensures
            r.spec_start() == start,
            r.spec_end() == start + size,
            r.spec_flags() == flags,
            r.spec_backend() == backend,
            frame_alloced matches Some(f) ==> r.frames_seq() == f@,
            frame_alloced is None ==> r.frames_seq().len() == 0,
            r.wf(),
    {
        MemoryArea::new(start, size, frame_alloced, flags, backend)
    }

    /// Returns a copy of the area that carries `flags` instead of the
    /// original flags. The frame references are cloned, so the copy shares
    /// the frames with `self`.
    pub fn clone_(&self, flags: B::Flags) -> (r: MemoryArea<B>)
        requires
            self.wf(),
        ensures
            r.spec_va_range() == self.spec_va_range(),
            r.spec_flags() == flags,
            r.frames_seq().len() == self.frames_seq().len(),
            forall|i: int|
                0 <= i < r.frames_seq().len() ==> #[trigger] r.frames_seq()[i].0
                    == self.frames_seq()[i].0,
            forall|i: int|
                0 <= i < r.frames_seq().len() ==> vstd::pervasive::cloned::<B::FrameTrackerRef>(
                    self.frames_seq()[i].1,
                    (#[trigger] r.frames_seq()[i]).1,
                ),
            vstd::pervasive::cloned::<B>(self.spec_backend(), r.spec_backend()),
            r.wf(),
    {
        let mut frames: Vec<(usize, B::FrameTrackerRef)> = Vec::new();
        let n = self.frames.len();
        let mut i: usize = 0;
        while i < n
            invariant
                n == self.frames@.len(),
                i <= n,
                frames@.len() == i,
                forall|j: int| 0 <= j < i ==> #[trigger] frames@[j].0 == self.frames@[j].0,
                forall|j: int|
                    0 <= j < i ==> vstd::pervasive::cloned::<B::FrameTrackerRef>(
                        self.frames@[j].1,
                        (#[trigger] frames@[j]).1,
                    ),
            decreases n - i,
        {
            let va = self.frames[i].0;
            let fr = self.frames[i].1.clone();
            frames.push((va, fr));
            i += 1;
        }
        MemoryArea {
            va_range: self.va_range,
            frames,
            flags,
            backend: self.backend.clone(),
        }
    }

    /// Returns the virtual address range.
    pub fn va_range(&self) -> (r: AddrRange)
        ensures
            r == self.spec_va_range(),
    {
        self.va_range
    }

    /// Returns the memory flags, e.g., the permission bits.
    pub fn flags(&self) -> (r: B::Flags)
        ensures
            r == self.spec_flags(),
    {
        self.flags
    }

    /// Returns the start address of the memory area.
    pub fn start(&self) -> (r: usize)
        ensures
            r == self.spec_start(),
    {
        self.va_range.start
    }

    /// Returns the end address of the memory area.
    pub fn end(&self) -> (r: usize)
        ensures
            r == self.spec_end(),
    {
        self.va_range.end
    }

    /// Returns the size of the memory area.
    pub fn size(&self) -> (r: usize)
        requires
            self.wf(),
        ensures
            r == self.spec_end() - self.spec_start(),
    {
        self.va_range.size()
    }

    /// Returns the mapping backend of the memory area.
    pub fn backend(&self) -> (r: &B)
        ensures
            *r == self.spec_backend(),
    {
        &self.backend
    }

    /// Returns the number of frames held by the area.
    pub fn frames_count(&self) -> (r: usize)
        ensures
            r == self.frames_seq().len(),
    {
        self.frames.len()
    }

    /// Returns the bounds and memory usage of the area. Resident memory is
    /// the held frame count times the 4K page size; the product must fit in
    /// an address.
    pub fn stat(&self) -> (r: AreaStat)
        requires
            self.wf(),
            self.frames_seq().len() * PAGE_SIZE_4K <= usize::MAX,
        ensures
            r.start == self.spec_start(),
            r.end == self.spec_end(),
            r.size == self.spec_end() - self.spec_start(),
            r.rss == self.frames_seq().len() * PAGE_SIZE_4K,
            r.swap == 0,
    {
        AreaStat {
            start: self.start(),
            end: self.end(),
            size: self.size(),
            rss: self.frames_count() * PAGE_SIZE_4K,
            swap: 0,
        }
    }

    /// Changes the flags.
    pub(crate) fn set_flags(&mut self, new_flags: B::Flags)
        ensures
            final(self).spec_va_range() == old(self).spec_va_range(),
            final(self).spec_flags() == new_flags,
            final(self).spec_backend() == old(self).spec_backend(),
            final(self).frames_seq() == old(self).frames_seq(),
            forall|va: usize| #![trigger final(self).has_frame(va)]
                final(self).has_frame(va) <==> old(self).has_frame(va),
            forall|va: usize| #![trigger final(self).frame_val(va)]
                final(self).frame_val(va) == old(self).frame_val(va),
    {
        self.flags = new_flags;
    }

    /// Unmaps the whole memory area in the page table. On success the frame
    /// table is emptied, dropping the frame references the area held.
    pub fn unmap_area(&mut self, page_table: &mut B::PageTable) -> (r: MappingResult)
        requires
            old(self).wf(),
        ensures
            final(self).wf(),
            final(self).same_shape(*old(self)),
            r is Err ==> r == Err::<(), MappingError>(MappingError::BadState) && *final(self)
                == *old(self),
            r is Ok ==> final(self).frames_seq().len() == 0,
    {
        // The backend must not release the frames; the frame table drop below
        // releases the area's references.
        let ok = self.backend.unmap(self.va_range.start, self.size(), page_table);
        if !ok {
            return Err(MappingError::BadState);
        }
        self.frames.clear();
        Ok(())
    }

    /// Changes the flags of the whole area's mapping in the page table. The
    /// stored flags are not changed; the caller updates them. A backend
    /// failure surfaces as `BadState`; the area itself is never changed.
    pub fn protect_area(
        &mut self,
        new_flags: B::Flags,
        page_table: &mut B::PageTable,
    ) -> (r: MappingResult)
        requires
            old(self).wf(),
        ensures
            *final(self) == *old(self),
            r is Err ==> r == Err::<(), MappingError>(MappingError::BadState),
    {
        let size = self.size();
        let ok = self.backend.protect(self.va_range.start, size, new_flags, page_table);
        if !ok {
            return Err(MappingError::BadState);
        }
        Ok(())
    }

    /// Maps the whole memory area in the page table, with the given flags or
    /// the area's own. The frames the backend reports as newly installed are
    /// added to the frame table, replacing entries with the same key.
    pub fn map_area(&mut self, page_table: &mut B::PageTable, flags: Option<B::Flags>) -> (r:
        MappingResult)
        requires
            old(self).wf(),
        ensures
            final(self).wf(),
            final(self).same_shape(*old(self)),
            r is Err ==> r == Err::<(), MappingError>(MappingError::BadState) && *final(self)
                == *old(self),
            r is Ok ==> forall|va: usize| #![trigger old(self).has_frame(va)]
                old(self).has_frame(va) ==> final(self).has_frame(va),
            r is Ok ==> forall|va: usize| #![trigger final(self).has_frame(va)]
                final(self).has_frame(va) ==> old(self).has_frame(va) || (spec_is_aligned_4k(va)
                    && old(self).spec_va_range().spec_contains(va)),
    {
        let flag = match flags {
            Some(f) => f,
            None => self.flags,
        };
        let size = self.size();
        match self.backend.map(self.va_range.start, size, flag, page_table) {
            Ok(new_frames) => {
                let ghost frames0 = self.frames@;
                let ghost newf = new_frames@;
                merge_frames(&mut self.frames, new_frames);
                proof {
                    assert forall|i: int| 0 <= i < self.frames@.len() implies spec_is_aligned_4k(
                        (#[trigger] self.frames@[i]).0,
                    ) && self.va_range.spec_contains(self.frames@[i].0) by {
                        let va = self.frames@[i].0;
                        assert(has_key(self.frames@, va));
                        if has_key(frames0, va) {
                            lemma_key_index(frames0, va);
                        } else {
                            lemma_key_index(newf, va);
                        }
                    }
                }
                Ok(())
            },
            Err(_) => Err(MappingError::BadState),
        }
    }

    /// Unmaps `[start, start + size)` in the page table via the backend and,
    /// on success, drops the frame references whose key lies in that range.
    pub fn unmap_frames(
        &mut self,
        start: usize,
        size: usize,
        page_table: &mut B::PageTable,
    ) -> (r: MappingResult)
        requires
            old(self).wf(),
            start + size <= usize::MAX,
        ensures
            final(self).wf(),
            final(self).same_shape(*old(self)),
            r is Err ==> r == Err::<(), MappingError>(MappingError::BadState) && *final(self)
                == *old(self),
            r is Ok ==> forall|va: usize| #![trigger final(self).has_frame(va)]
                final(self).has_frame(va) <==> old(self).has_frame(va) && !(start <= va < start
                    + size),
            r is Ok ==> forall|va: usize| #![trigger final(self).frame_val(va)]
                old(self).has_frame(va) && !(start <= va < start + size) ==> final(self).frame_val(va) == old(self).frame_val(va),
    {
        if !self.backend.unmap(start, size, page_table) {
            return Err(MappingError::BadState);
        }
        let ghost frames0 = self.frames@;
        remove_frame_range(&mut self.frames, start, start + size);
        proof {
            assert forall|i: int| 0 <= i < self.frames@.len() implies spec_is_aligned_4k(
                (#[trigger] self.frames@[i]).0,
            ) && self.va_range.spec_contains(self.frames@[i].0) by {
                assert(has_key(self.frames@, self.frames@[i].0));
                lemma_key_index(frames0, self.frames@[i].0);
            }
        }
        Ok(())
    }

    /// Shrinks the memory area at the left side to `new_size` bytes: the
    /// cut-off prefix is unmapped, the start address moves up, and frames
    /// outside the new range are dropped.
    pub fn shrink_left(&mut self, new_size: usize, page_table: &mut B::PageTable) -> (r:
        MappingResult)
        requires
            old(self).wf(),
            0 < new_size < old(self).spec_end() - old(self).spec_start(),
        ensures
            final(self).wf(),
            final(self).spec_flags() == old(self).spec_flags(),
            final(self).spec_backend() == old(self).spec_backend(),
            r is Err ==> r == Err::<(), MappingError>(MappingError::BadState) && *final(self)
                == *old(self),
            r is Ok ==> final(self).spec_start() == old(self).spec_end() - new_size && final(self).spec_end() == old(self).spec_end(),
            r is Ok ==> forall|va: usize| #![trigger final(self).has_frame(va)]
                final(self).has_frame(va) <==> old(self).has_frame(va) && old(self).spec_end()
                    - new_size <= va,
            r is Ok ==> forall|va: usize| #![trigger final(self).frame_val(va)]
                old(self).has_frame(va) && old(self).spec_end() - new_size <= va ==> final(self).frame_val(va) == old(self).frame_val(va),
    {
        let old_size = self.size();
        let unmap_size = old_size - new_size;
        if !self.backend.unmap(self.va_range.start, unmap_size, page_table) {
            return Err(MappingError::BadState);
        }
        self.va_range.start = self.va_range.start + unmap_size;
        let ghost frames0 = self.frames@;
        keep_frame_range(&mut self.frames, self.va_range.start, self.va_range.end);
        proof {
            assert forall|i: int| 0 <= i < self.frames@.len() implies spec_is_aligned_4k(
                (#[trigger] self.frames@[i]).0,
            ) && self.va_range.spec_contains(self.frames@[i].0) by {
                assert(has_key(self.frames@, self.frames@[i].0));
                lemma_key_index(frames0, self.frames@[i].0);
            }
        }
        Ok(())
    }

    /// Shrinks the memory area at the right side to `new_size` bytes: the
    /// cut-off suffix is unmapped, the end address moves down, and frames
    /// outside the new range are dropped.
    pub fn shrink_right(&mut self, new_size: usize, page_table: &mut B::PageTable) -> (r:
        MappingResult)
        requires
            old(self).wf(),
            0 < new_size < old(self).spec_end() - old(self).spec_start(),
        ensures
            final(self).wf(),
            final(self).spec_flags() == old(self).spec_flags(),
            final(self).spec_backend() == old(self).spec_backend(),
            r is Err ==> r == Err::<(), MappingError>(MappingError::BadState) && *final(self)
                == *old(self),
            r is Ok ==> final(self).spec_start() == old(self).spec_start() && final(self).spec_end() == old(self).spec_start() + new_size,
            r is Ok ==> forall|va: usize| #![trigger final(self).has_frame(va)]
                final(self).has_frame(va) <==> old(self).has_frame(va) && va < old(self).spec_start() + new_size,
            r is Ok ==> forall|va: usize| #![trigger final(self).frame_val(va)]
                old(self).has_frame(va) && va < old(self).spec_start() + new_size ==> final(self).frame_val(va) == old(self).frame_val(va),
    {
        let old_size = self.size();
        let unmap_size = old_size - new_size;
        let unmap_start = self.va_range.start + new_size;
        if !self.backend.unmap(unmap_start, unmap_size, page_table) {
            return Err(MappingError::BadState);
        }
        self.va_range.end = unmap_start;
        let ghost frames0 = self.frames@;
        keep_frame_range(&mut self.frames, self.va_range.start, self.va_range.end);
        proof {
            assert forall|i: int| 0 <= i < self.frames@.len() implies spec_is_aligned_4k(
                (#[trigger] self.frames@[i]).0,
            ) && self.va_range.spec_contains(self.frames@[i].0) by {
                assert(has_key(self.frames@, self.frames@[i].0));
                lemma_key_index(frames0, self.frames@[i].0);
            }
        }
        Ok(())
    }

    /// Grows the memory area at the left side to `new_size` bytes: the added
    /// prefix is mapped with the area's flags and the returned frames join
    /// the frame table. The caller must ensure the new range does not
    /// overlap other areas.
    pub fn extend_left(&mut self, new_size: usize, page_table: &mut B::PageTable) -> (r:
        MappingResult)
        requires
            old(self).wf(),
            new_size > old(self).spec_end() - old(self).spec_start(),
            new_size <= old(self).spec_end(),
        ensures
            final(self).wf(),
            final(self).spec_flags() == old(self).spec_flags(),
            final(self).spec_backend() == old(self).spec_backend(),
            r is Err ==> r == Err::<(), MappingError>(MappingError::BadState) && *final(self)
                == *old(self),
            r is Ok ==> final(self).spec_start() == old(self).spec_end() - new_size && final(self).spec_end() == old(self).spec_end(),
            r is Ok ==> forall|va: usize| #![trigger old(self).has_frame(va)]
                old(self).has_frame(va) ==> final(self).has_frame(va) && final(self).frame_val(
                    va,
                ) == old(self).frame_val(va),
            r is Ok ==> forall|va: usize| #![trigger final(self).has_frame(va)]
                final(self).has_frame(va) ==> old(self).has_frame(va) || (spec_is_aligned_4k(va)
                    && old(self).spec_end() - new_size <= va < old(self).spec_start()),
    {
        let old_size = self.size();
        let map_size = new_size - old_size;
        let map_start = self.va_range.end - new_size;
        match self.backend.map(map_start, map_size, self.flags, page_table) {
            Ok(new_frames) => {
                let ghost frames0 = self.frames@;
                let ghost newf = new_frames@;
                merge_frames(&mut self.frames, new_frames);
                self.va_range.start = map_start;
                proof {
                    assert forall|va: usize| #![trigger has_key(frames0, va)]
                        has_key(frames0, va) implies !has_key(newf, va) by {
                        if has_key(newf, va) {
                            lemma_key_index(newf, va);
                            lemma_key_index(frames0, va);
                        }
                    }
                    assert forall|i: int| 0 <= i < self.frames@.len() implies spec_is_aligned_4k(
                        (#[trigger] self.frames@[i]).0,
                    ) && self.va_range.spec_contains(self.frames@[i].0) by {
                        let va = self.frames@[i].0;
                        assert(has_key(self.frames@, va));
                        if has_key(frames0, va) {
                            lemma_key_index(frames0, va);
                        } else {
                            lemma_key_index(newf, va);
                        }
                    }
                }
                Ok(())
            },
            Err(_) => Err(MappingError::BadState),
        }
    }

    /// Grows the memory area at the right side to `new_size` bytes: the
    /// added suffix is mapped with the area's flags and the returned frames
    /// join the frame table. The caller must ensure the new range does not
    /// overlap other areas.
    pub fn extend_right(&mut self, new_size: usize, page_table: &mut B::PageTable) -> (r:
        MappingResult)
        requires
            old(self).wf(),
            new_size > old(self).spec_end() - old(self).spec_start(),
            old(self).spec_start() + new_size <= usize::MAX,
        ensures
            final(self).wf(),
            final(self).spec_flags() == old(self).spec_flags(),
            final(self).spec_backend() == old(self).spec_backend(),
            r is Err ==> r == Err::<(), MappingError>(MappingError::BadState) && *final(self)
                == *old(self),
            r is Ok ==> final(self).spec_start() == old(self).spec_start() && final(self).spec_end() == old(self).spec_start() + new_size,
            r is Ok ==> forall|va: usize| #![trigger old(self).has_frame(va)]
                old(self).has_frame(va) ==> final(self).has_frame(va) && final(self).frame_val(
                    va,
                ) == old(self).frame_val(va),
            r is Ok ==> forall|va: usize| #![trigger final(self).has_frame(va)]
                final(self).has_frame(va) ==> old(self).has_frame(va) || (spec_is_aligned_4k(va)
                    && old(self).spec_end() <= va < old(self).spec_start() + new_size),
    {
        let old_size = self.size();
        let map_size = new_size - old_size;
        let map_start = self.va_range.end;
        match self.backend.map(map_start, map_size, self.flags, page_table) {
            Ok(new_frames) => {
                let ghost frames0 = self.frames@;
                let ghost newf = new_frames@;
                merge_frames(&mut self.frames, new_frames);
                self.va_range.end = self.va_range.start + new_size;
                proof {
                    assert forall|va: usize| #![trigger has_key(frames0, va)]
                        has_key(frames0, va) implies !has_key(newf, va) by {
                        if has_key(newf, va) {
                            lemma_key_index(newf, va);
                            lemma_key_index(frames0, va);
                        }
                    }
                    assert forall|i: int| 0 <= i < self.frames@.len() implies spec_is_aligned_4k(
                        (#[trigger] self.frames@[i]).0,
                    ) && self.va_range.spec_contains(self.frames@[i].0) by {
                        let va = self.frames@[i].0;
                        assert(has_key(self.frames@, va));
                        if has_key(frames0, va) {
                            lemma_key_index(frames0, va);
                        } else {
                            lemma_key_index(newf, va);
                        }
                    }
                }
                Ok(())
            },
            Err(_) => Err(MappingError::BadState),
        }
    }

    /// Splits the memory area at the given position.
    ///
    /// The original memory area is shrunk to the left part `[start, pos)`,
    /// and the right part `[pos, end)` is returned, carrying the same flags,
    /// a clone of the backend, and the frames at or above `pos`.
    ///
    /// Returns `None`, leaving the area unchanged, if `pos` is not strictly
    /// inside the area.
    pub fn split(&mut self, pos: usize) -> (r: Option<MemoryArea<B>>)
        requires
            old(self).wf(),
        ensures
            (old(self).spec_start() < pos < old(self).spec_end()) <==> r is Some,
            r is None ==> *final(self) == *old(self),
            r matches Some(n) ==> final(self).spec_start() == old(self).spec_start() && final(self).spec_end() == pos && n.spec_start() == pos && n.spec_end() == old(self).spec_end(),
            r matches Some(n) ==> final(self).spec_flags() == old(self).spec_flags()
                && n.spec_flags() == old(self).spec_flags() && final(self).spec_backend() == old(self).spec_backend() && vstd::pervasive::cloned::<B>(
                old(self).spec_backend(),
                n.spec_backend(),
            ),
            r matches Some(n) ==> final(self).wf() && n.wf(),
            r matches Some(n) ==> (forall|va: usize| #![trigger final(self).has_frame(va)]
                final(self).has_frame(va) <==> old(self).has_frame(va) && va < pos),
            r matches Some(n) ==> (forall|va: usize| #![trigger n.has_frame(va)]
                n.has_frame(va) <==> old(self).has_frame(va) && va >= pos),
            r matches Some(n) ==> (forall|va: usize| #![trigger final(self).frame_val(va)]
                old(self).has_frame(va) && va < pos ==> final(self).frame_val(va) == old(self).frame_val(va)),
            r matches Some(n) ==> (forall|va: usize| #![trigger n.frame_val(va)]
                old(self).has_frame(va) && va >= pos ==> n.frame_val(va) == old(self).frame_val(
                    va,
                )),
    {
        if self.va_range.start < pos && pos < self.va_range.end {
            let ghost frames0 = self.frames@;
            let idx = key_lower_bound(&self.frames, pos);
            let right_frames = self.frames.split_off(idx);
            let new_area = MemoryArea {
                va_range: AddrRange { start: pos, end: self.va_range.end },
                frames: right_frames,
                flags: self.flags,
                backend: self.backend.clone(),
            };
            self.va_range.end = pos;
            proof {
                lemma_split_frames(frames0, self.frames@, new_area.frames@, idx as int, pos);
            }
            Some(new_area)
        } else {
            None
        }
    }

    /// Inserts a frame for the 4K-aligned address `vaddr`, which must lie in
    /// the area's range. Returns, and hands ownership of, the previously
    /// held frame reference for that address, if any.
    pub fn insert_frame(&mut self, vaddr: usize, frame: B::FrameTrackerRef) -> (r: Option<
        B::FrameTrackerRef,
    >)
        requires
            old(self).wf(),
            spec_is_aligned_4k(vaddr),
            old(self).spec_va_range().spec_contains(vaddr),
        ensures
            final(self).wf(),
            final(self).same_shape(*old(self)),
            old(self).has_frame(vaddr) ==> r == Some(old(self).frame_val(vaddr)) && final(self).frames_seq().len() == old(self).frames_seq().len(),
            !old(self).has_frame(vaddr) ==> r is None && final(self).frames_seq().len() == old(self).frames_seq().len() + 1,
            forall|va: usize| #![trigger final(self).has_frame(va)]
                final(self).has_frame(va) <==> old(self).has_frame(va) || va == vaddr,
            final(self).frame_val(vaddr) == frame,
            forall|va: usize| #![trigger final(self).frame_val(va)]
                va != vaddr && old(self).has_frame(va) ==> final(self).frame_val(va) == old(self).frame_val(va),
    {
        let ghost frames0 = self.frames@;
        let r = upsert_frame(&mut self.frames, vaddr, frame);
        proof {
            assert forall|i: int| 0 <= i < self.frames@.len() implies spec_is_aligned_4k(
                (#[trigger] self.frames@[i]).0,
            ) && self.va_range.spec_contains(self.frames@[i].0) by {
                assert(has_key(self.frames@, self.frames@[i].0));
                if self.frames@[i].0 != vaddr {
                    lemma_key_index(frames0, self.frames@[i].0);
                }
            }
        }
        r
    }

    /// Looks up the frame held for the 4K-aligned address `vaddr` and
    /// returns a clone of its reference, if one is held.
    pub fn find_frame(&self, vaddr: usize) -> (r: Option<B::FrameTrackerRef>)
        requires
            self.wf(),
            spec_is_aligned_4k(vaddr),
        ensures
            r is Some <==> self.has_frame(vaddr),
            r matches Some(f) ==> vstd::pervasive::cloned::<B::FrameTrackerRef>(
                self.frame_val(vaddr),
                f,
            ),
    {
        let idx = key_lower_bound(&self.frames, vaddr);
        if idx < self.frames.len() && self.frames[idx].0 == vaddr {
            proof {
                lemma_val_at_index(self.frames@, idx as int);
            }
            Some(self.frames[idx].1.clone())
        } else {
            proof {
                if self.has_frame(vaddr) {
                    lemma_key_index(self.frames@, vaddr);
                    let i = key_index(self.frames@, vaddr);
                    assert(i >= idx);
                    assert(self.frames@[i].0 >= vaddr);
                }
            }
            None
        }
    }
}

/// In a well-formed area, every held frame key lies inside the range.
pub proof fn lemma_frames_in_range<B: MappingBackend>(a: MemoryArea<B>)
    requires
        a.wf(),
    ensures
        forall|va: usize| #[trigger] a.has_frame(va) ==> a.spec_start() <= va < a.spec_end(),
{
    assert forall|va: usize| #[trigger] a.has_frame(va) implies a.spec_start() <= va
        < a.spec_end() by {
        lemma_key_index(a.frames_seq(), va);
    }
}

/// Splitting a key-sorted frame list at the position of key `pos` divides
/// its entries by key: below `pos` to the left, the rest to the right.
proof fn lemma_split_frames<V>(
    s0: Seq<(usize, V)>,
    left: Seq<(usize, V)>,
    right: Seq<(usize, V)>,
    idx: int,
    pos: usize,
)
    requires
        frame_keys_sorted(s0),
        0 <= idx <= s0.len(),
        left == s0.subrange(0, idx),
        right == s0.subrange(idx, s0.len() as int),
        forall|i: int| 0 <= i < idx ==> (#[trigger] s0[i]).0 < pos,
        forall|i: int| idx <= i < s0.len() ==> (#[trigger] s0[i]).0 >= pos,
    ensures
        frame_keys_sorted(left),
        frame_keys_sorted(right),
        forall|va: usize| #![trigger has_key(left, va)]
            has_key(left, va) <==> has_key(s0, va) && va < pos,
        forall|va: usize| #![trigger has_key(right, va)]
            has_key(right, va) <==> has_key(s0, va) && va >= pos,
        forall|va: usize| #![trigger val_at(left, va)]
            has_key(s0, va) && va < pos ==> val_at(left, va) == val_at(s0, va),
        forall|va: usize| #![trigger val_at(right, va)]
            has_key(s0, va) && va >= pos ==> val_at(right, va) == val_at(s0, va),
{
    assert forall|va: usize| #![trigger has_key(left, va)]
        has_key(left, va) <==> has_key(s0, va) && va < pos by {
        if has_key(left, va) {
            let i = key_index(left, va);
            assert(left[i] == s0[i]);
            lemma_val_at_index(s0, i);
        }
        if has_key(s0, va) && va < pos {
            let i = key_index(s0, va);
            assert(i < idx) by {
                if i >= idx {
                    assert(s0[i].0 >= pos);
                }
            }
            assert(left[i].0 == va);
        }
    }
    assert forall|va: usize| #![trigger has_key(right, va)]
        has_key(right, va) <==> has_key(s0, va) && va >= pos by {
        if has_key(right, va) {
            let i = key_index(right, va);
            assert(right[i] == s0[idx + i]);
            lemma_val_at_index(s0, idx + i);
        }
        if has_key(s0, va) && va >= pos {
            let i = key_index(s0, va);
            assert(i >= idx) by {
                if i < idx {
                    assert(s0[i].0 < pos);
                }
            }
            assert(right[i - idx].0 == va);
        }
    }
    assert forall|va: usize| #![trigger val_at(left, va)]
        has_key(s0, va) && va < pos implies val_at(left, va) == val_at(s0, va) by {
        lemma_key_index(s0, va);
        let i = key_index(s0, va);
        assert(i < idx) by {
            if i >= idx {
                assert(s0[i].0 >= pos);
            }
        }
        assert(left[i] == s0[i]);
        lemma_val_at_index(left, i);
    }
    assert forall|va: usize| #![trigger val_at(right, va)]
        has_key(s0, va) && va >= pos implies val_at(right, va) == val_at(s0, va) by {
        lemma_key_index(s0, va);
        let i = key_index(s0, va);
        assert(i >= idx) by {
            if i < idx {
                assert(s0[i].0 < pos);
            }
        }
        assert(right[i - idx] == s0[i]);
        lemma_val_at_index(right, i - idx);
    }
}

} // verus!
