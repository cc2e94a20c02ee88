//! A memory set: an ordered, non-overlapping collection of memory areas.
use vstd::prelude::*;

use crate::addr::spec_is_aligned_4k;
use crate::addr::AddrRange;
use crate::area::lemma_frames_in_range;
use crate::area::MemoryArea;
use crate::backend::MappingBackend;
use crate::MappingError;
use crate::MappingResult;

verus! {

/// Whether `piece` is `orig` trimmed on the right at `cut`: same start and
/// flags, the end moved down to `cut`, and exactly the frames below `cut`.
pub open spec fn trimmed_left<B: MappingBackend>(
    piece: MemoryArea<B>,
    orig: MemoryArea<B>,
    cut: usize,
) -> bool {
    &&& piece.spec_start() == orig.spec_start()
    &&& piece.spec_end() == cut
    &&& piece.spec_flags() == orig.spec_flags()
    &&& forall|va: usize| #![trigger piece.has_frame(va)]
        piece.has_frame(va) <==> orig.has_frame(va) && va < cut
    &&& forall|va: usize| #![trigger piece.frame_val(va)]
        orig.has_frame(va) && va < cut ==> piece.frame_val(va) == orig.frame_val(va)
}

/// Whether `piece` is `orig` trimmed on the left at `cut`: same end and
/// flags, the start moved up to `cut`, and exactly the frames at or above
/// `cut`.
pub open spec fn trimmed_right<B: MappingBackend>(
    piece: MemoryArea<B>,
    orig: MemoryArea<B>,
    cut: usize,
) -> bool {
    &&& piece.spec_start() == cut
    &&& piece.spec_end() == orig.spec_end()
    &&& piece.spec_flags() == orig.spec_flags()
    &&& forall|va: usize| #![trigger piece.has_frame(va)]
        piece.has_frame(va) <==> orig.has_frame(va) && va >= cut
    &&& forall|va: usize| #![trigger piece.frame_val(va)]
        orig.has_frame(va) && va >= cut ==> piece.frame_val(va) == orig.frame_val(va)
}

/// The invariant of a sequence of areas: every area is well-formed and
/// non-empty, and the areas are sorted and pairwise non-overlapping.
pub open spec fn areas_inv<B: MappingBackend>(s: Seq<MemoryArea<B>>) -> bool {
    &&& forall|i: int|
        0 <= i < s.len() ==> (#[trigger] s[i]).wf() && s[i].spec_start() < s[i].spec_end()
    &&& forall|i: int, j: int|
        0 <= i < j < s.len() ==> (#[trigger] s[i]).spec_end() <= (#[trigger] s[j]).spec_start()
}

/// Removing an area keeps the invariant, and every remaining area was
/// already there.
pub proof fn lemma_areas_inv_remove<B: MappingBackend>(s: Seq<MemoryArea<B>>, i: int)
    requires
        areas_inv(s),
        0 <= i < s.len(),
    ensures
        areas_inv(s.remove(i)),
        forall|m: int| 0 <= m < s.len() - 1 ==> s.contains(#[trigger] s.remove(i)[m]),
{
    let t = s.remove(i);
    assert forall|a: int, b: int| 0 <= a < b < t.len() implies (#[trigger] t[a]).spec_end()
        <= (#[trigger] t[b]).spec_start() by {
        let oa: int = if a < i {
            a
        } else {
            a + 1
        };
        let ob: int = if b < i {
            b
        } else {
            b + 1
        };
        assert(t[a] == s[oa] && t[b] == s[ob]);
    }
    assert forall|m: int| 0 <= m < s.len() - 1 implies s.contains(#[trigger] t[m]) by {
        let om: int = if m < i {
            m
        } else {
            m + 1
        };
        assert(t[m] == s[om]);
    }
}

/// Replacing an area by one whose range lies inside the old one keeps the
/// invariant.
pub proof fn lemma_areas_inv_update<B: MappingBackend>(
    s: Seq<MemoryArea<B>>,
    i: int,
    a: MemoryArea<B>,
)
    requires
        areas_inv(s),
        0 <= i < s.len(),
        a.wf(),
        a.spec_start() < a.spec_end(),
        a.spec_start() >= s[i].spec_start(),
        a.spec_end() <= s[i].spec_end(),
    ensures
        areas_inv(s.update(i, a)),
{
    let t = s.update(i, a);
    assert forall|x: int, y: int| 0 <= x < y < t.len() implies (#[trigger] t[x]).spec_end()
        <= (#[trigger] t[y]).spec_start() by {
        assert(s[x].spec_end() <= s[y].spec_start());
    }
}

/// Inserting a non-overlapping, non-empty area at the position given by
/// its start address keeps the invariant.
pub proof fn lemma_areas_inv_insert<B: MappingBackend>(
    s: Seq<MemoryArea<B>>,
    idx: int,
    area: MemoryArea<B>,
)
    requires
        areas_inv(s),
        0 <= idx <= s.len(),
        area.wf(),
        area.spec_start() < area.spec_end(),
        forall|i: int|
            0 <= i < s.len() ==> !(#[trigger] s[i]).spec_va_range().spec_overlaps(
                area.spec_va_range(),
            ),
        forall|i: int| 0 <= i < idx ==> (#[trigger] s[i]).spec_start() < area.spec_start(),
        forall|i: int| idx <= i < s.len() ==> (#[trigger] s[i]).spec_start() >= area.spec_start(),
    ensures
        areas_inv(s.insert(idx, area)),
{
    let t = s.insert(idx, area);
    assert forall|i: int, j: int| 0 <= i < j < t.len() implies (#[trigger] t[i]).spec_end()
        <= (#[trigger] t[j]).spec_start() by {
        if j < idx {
            assert(t[i] == s[i] && t[j] == s[j]);
        } else if i > idx {
            assert(t[i] == s[i - 1] && t[j] == s[j - 1]);
        } else if i == idx {
            assert(t[j] == s[j - 1]);
            assert(!s[j - 1].spec_va_range().spec_overlaps(area.spec_va_range()));
            assert(s[j - 1].spec_start() >= area.spec_start());
        } else if j == idx {
            assert(t[i] == s[i]);
            assert(!s[i].spec_va_range().spec_overlaps(area.spec_va_range()));
            assert(s[i].spec_start() < area.spec_start());
        } else {
            assert(t[i] == s[i] && t[j] == s[j - 1]);
            assert(!s[i].spec_va_range().spec_overlaps(area.spec_va_range()));
            assert(s[i].spec_start() < area.spec_start());
            assert(!s[j - 1].spec_va_range().spec_overlaps(area.spec_va_range()));
            assert(s[j - 1].spec_start() >= area.spec_start());
        }
    }
}

/// Whether some area of the sequence contains `addr`.
pub open spec fn seq_covers<B: MappingBackend>(s: Seq<MemoryArea<B>>, addr: usize) -> bool {
    exists|i: int|
        0 <= i < s.len() && (#[trigger] s[i]).spec_start() <= addr < s[i].spec_end()
}

/// Whether `piece` is an old area trimmed at a boundary of the unmapped
/// range `[start, start + size)`: either the part of a left-boundary area
/// below `start`, or the part of a right-boundary area at or above the
/// range end.
pub open spec fn unmap_piece<B: MappingBackend>(
    s0: Seq<MemoryArea<B>>,
    piece: MemoryArea<B>,
    start: usize,
    size: usize,
) -> bool {
    exists|j: int|
        0 <= j < s0.len() && (#[trigger] s0[j]).spec_start() < start + size && start
            < s0[j].spec_end() && ((trimmed_left(piece, s0[j], start) && s0[j].spec_start()
            < start) || (trimmed_right(piece, s0[j], ((start + size) as usize))
            && s0[j].spec_end() > start + size))
}

/// What a successful `unmap` of `[start, start + size)` leaves behind:
/// no area overlaps the range any more, every old area away from the range
/// is still present, and every area of the result is an old one or an old
/// one trimmed at a boundary of the range.
pub open spec fn unmap_post<B: MappingBackend>(
    s0: Seq<MemoryArea<B>>,
    s1: Seq<MemoryArea<B>>,
    start: usize,
    size: usize,
) -> bool {
    &&& forall|i: int|
        0 <= i < s1.len() ==> !((#[trigger] s1[i]).spec_start() < start + size && start
            < s1[i].spec_end())
    &&& forall|j: int|
        0 <= j < s0.len() && ((#[trigger] s0[j]).spec_end() <= start || s0[j].spec_start()
            >= start + size) ==> s1.contains(s0[j])
    &&& forall|i: int|
        0 <= i < s1.len() ==> s0.contains(#[trigger] s1[i]) || unmap_piece(s0, s1[i], start, size)
    &&& forall|addr: usize|
        #[trigger] seq_covers(s0, addr) && !(start <= addr < start + size) ==> seq_covers(
            s1,
            addr,
        )
}


/// The facts that hold mid-way through an `unmap` of `[start, start + size)`,
/// once the contained areas are removed and the left boundary is handled:
/// every area is an old one or a trimmed piece, old areas away from the
/// range are still present, areas below `start` end at or before it, and
/// areas starting inside the range reach beyond its end.
spec fn unmap_mid<B: MappingBackend>(
    s0: Seq<MemoryArea<B>>,
    cur: Seq<MemoryArea<B>>,
    start: usize,
    size: usize,
) -> bool {
    &&& forall|k: int|
        0 <= k < cur.len() ==> s0.contains(#[trigger] cur[k]) || unmap_piece(
            s0,
            cur[k],
            start,
            size,
        )
    &&& forall|j: int|
        0 <= j < s0.len() && ((#[trigger] s0[j]).spec_end() <= start || s0[j].spec_start()
            >= start + size) ==> cur.contains(s0[j])
    &&& forall|k: int|
        0 <= k < cur.len() && (#[trigger] cur[k]).spec_start() < start ==> cur[k].spec_end()
            <= start
    &&& forall|k: int|
        0 <= k < cur.len() && start <= (#[trigger] cur[k]).spec_start() < start + size
            ==> cur[k].spec_end() > start + size
    &&& forall|addr: usize|
        #[trigger] seq_covers(s0, addr) && !(start <= addr < start + size) ==> seq_covers(
            cur,
            addr,
        )
}

/// After removing the contained areas, when no area crosses the left
/// boundary of the range, the mid-way facts already hold.
proof fn lemma_unmap_no_left_leaf<B: MappingBackend>(
    s0: Seq<MemoryArea<B>>,
    s1: Seq<MemoryArea<B>>,
    idx: int,
    start: usize,
    size: usize,
)
    requires
        areas_inv(s0),
        areas_inv(s1),
        size > 0,
        start + size <= usize::MAX,
        forall|k: int| 0 <= k < s1.len() ==> s0.contains(#[trigger] s1[k]),
        forall|j: int|
            0 <= j < s0.len() && ((#[trigger] s0[j]).spec_end() <= start || s0[j].spec_start()
                >= start + size) ==> s1.contains(s0[j]),
        forall|k: int|
            0 <= k < s1.len() ==> !(start <= (#[trigger] s1[k]).spec_start() && s1[k].spec_end()
                <= start + size),
        forall|addr: usize|
            #[trigger] seq_covers(s0, addr) && !(start <= addr < start + size) ==> seq_covers(
                s1,
                addr,
            ),
        0 <= idx <= s1.len(),
        forall|k: int| 0 <= k < idx ==> (#[trigger] s1[k]).spec_start() < start,
        forall|k: int| idx <= k < s1.len() ==> (#[trigger] s1[k]).spec_start() >= start,
        idx == 0 || s1[idx - 1].spec_end() <= start,
    ensures
        unmap_mid(s0, s1, start, size),
{
    assert forall|k: int|
        0 <= k < s1.len() && (#[trigger] s1[k]).spec_start() < start implies s1[k].spec_end()
        <= start by {
        assert(k < idx);
        if k < idx - 1 {
            assert(s1[k].spec_end() <= s1[idx - 1].spec_start());
        }
    }
}

/// The mid-way facts after the left-boundary area is trimmed on the right.
proof fn lemma_unmap_left_leaf<B: MappingBackend>(
    s0: Seq<MemoryArea<B>>,
    s1: Seq<MemoryArea<B>>,
    cur: Seq<MemoryArea<B>>,
    pred_idx: int,
    pred0: MemoryArea<B>,
    np: MemoryArea<B>,
    start: usize,
    size: usize,
)
    requires
        areas_inv(s0),
        areas_inv(s1),
        size > 0,
        start + size <= usize::MAX,
        forall|k: int| 0 <= k < s1.len() ==> s0.contains(#[trigger] s1[k]),
        forall|j: int|
            0 <= j < s0.len() && ((#[trigger] s0[j]).spec_end() <= start || s0[j].spec_start()
                >= start + size) ==> s1.contains(s0[j]),
        forall|k: int|
            0 <= k < s1.len() ==> !(start <= (#[trigger] s1[k]).spec_start() && s1[k].spec_end()
                <= start + size),
        forall|addr: usize|
            #[trigger] seq_covers(s0, addr) && !(start <= addr < start + size) ==> seq_covers(
                s1,
                addr,
            ),
        0 <= pred_idx < s1.len(),
        pred0 == s1[pred_idx],
        forall|k: int| 0 <= k <= pred_idx ==> (#[trigger] s1[k]).spec_start() < start,
        forall|k: int|
            pred_idx < k < s1.len() ==> (#[trigger] s1[k]).spec_start() >= start,
        pred0.spec_end() > start,
        pred0.spec_end() <= start + size,
        trimmed_left(np, pred0, start),
        cur == s1.update(pred_idx, np),
    ensures
        unmap_mid(s0, cur, start, size),
{
    assert forall|k: int|
        0 <= k < cur.len() implies s0.contains(#[trigger] cur[k]) || unmap_piece(
        s0,
        cur[k],
        start,
        size,
    ) by {
        if k == pred_idx {
            assert(s0.contains(pred0));
            let j = choose|j: int| 0 <= j < s0.len() && s0[j] == pred0;
            assert(s0[j].spec_start() < start + size && start < s0[j].spec_end());
            assert(trimmed_left(cur[k], s0[j], start) && s0[j].spec_start() < start);
            assert(unmap_piece(s0, cur[k], start, size));
        } else {
            assert(cur[k] == s1[k]);
        }
    }
    assert forall|j: int|
        0 <= j < s0.len() && ((#[trigger] s0[j]).spec_end() <= start || s0[j].spec_start()
            >= start + size) implies cur.contains(s0[j]) by {
        assert(s1.contains(s0[j]));
        let k = choose|k: int| 0 <= k < s1.len() && s1[k] == s0[j];
        if k == pred_idx {
            assert(s0[j].spec_end() > start);
            assert(s0[j].spec_start() < start);
            assert(false);
        } else {
            assert(cur[k] == s1[k]);
            assert(cur.contains(s0[j]));
        }
    }
    assert forall|k: int|
        0 <= k < cur.len() && (#[trigger] cur[k]).spec_start() < start implies cur[k].spec_end()
        <= start by {
        if k == pred_idx {
            assert(np.spec_end() == start);
        } else if k < pred_idx {
            assert(cur[k] == s1[k]);
            assert(s1[k].spec_end() <= s1[pred_idx].spec_start());
        } else {
            assert(cur[k] == s1[k]);
        }
    }
    assert forall|k: int|
        0 <= k < cur.len() && start <= (#[trigger] cur[k]).spec_start() < start + size implies cur[
    k].spec_end() > start + size by {
        if k != pred_idx {
            assert(cur[k] == s1[k]);
        }
    }
    assert forall|addr: usize|
        #[trigger] seq_covers(s0, addr) && !(start <= addr < start + size) implies seq_covers(
        cur,
        addr,
    ) by {
        assert(seq_covers(s1, addr));
        let k = choose|k: int|
            0 <= k < s1.len() && (#[trigger] s1[k]).spec_start() <= addr < s1[k].spec_end();
        if k == pred_idx {
            assert(addr < start);
            assert(cur[k].spec_start() <= addr < cur[k].spec_end());
        } else {
            assert(cur[k].spec_start() <= addr < cur[k].spec_end());
        }
    }
}

/// The mid-way facts after an area spanning the whole range is split at the
/// range end and trimmed at `start`, and the right remnant is re-inserted.
proof fn lemma_unmap_straddle_leaf<B: MappingBackend>(
    s0: Seq<MemoryArea<B>>,
    s1: Seq<MemoryArea<B>>,
    cur: Seq<MemoryArea<B>>,
    pred_idx: int,
    pred0: MemoryArea<B>,
    np: MemoryArea<B>,
    rp: MemoryArea<B>,
    start: usize,
    size: usize,
)
    requires
        areas_inv(s0),
        areas_inv(s1),
        size > 0,
        start + size <= usize::MAX,
        forall|k: int| 0 <= k < s1.len() ==> s0.contains(#[trigger] s1[k]),
        forall|j: int|
            0 <= j < s0.len() && ((#[trigger] s0[j]).spec_end() <= start || s0[j].spec_start()
                >= start + size) ==> s1.contains(s0[j]),
        forall|k: int|
            0 <= k < s1.len() ==> !(start <= (#[trigger] s1[k]).spec_start() && s1[k].spec_end()
                <= start + size),
        forall|addr: usize|
            #[trigger] seq_covers(s0, addr) && !(start <= addr < start + size) ==> seq_covers(
                s1,
                addr,
            ),
        0 <= pred_idx < s1.len(),
        pred0 == s1[pred_idx],
        forall|k: int| 0 <= k <= pred_idx ==> (#[trigger] s1[k]).spec_start() < start,
        forall|k: int|
            pred_idx < k < s1.len() ==> (#[trigger] s1[k]).spec_start() >= start,
        pred0.spec_end() > start + size,
        trimmed_left(np, pred0, start),
        trimmed_right(rp, pred0, ((start + size) as usize)),
        cur == s1.update(pred_idx, np).insert(pred_idx + 1, rp),
    ensures
        unmap_mid(s0, cur, start, size),
{
    let mid = s1.update(pred_idx, np);
    assert(cur[pred_idx] == np);
    assert(cur[pred_idx + 1] == rp);
    assert(rp.spec_start() == start + size);
    assert forall|k: int| 0 <= k < cur.len() && k != pred_idx && k != pred_idx + 1 implies cur[k]
        == s1[if k < pred_idx {
        k
    } else {
        k - 1
    }] by {
        if k < pred_idx {
            assert(cur[k] == mid[k]);
        } else {
            assert(cur[k] == mid[k - 1]);
        }
    }
    assert(s0.contains(pred0));
    let j0 = choose|j: int| 0 <= j < s0.len() && s0[j] == pred0;
    assert forall|k: int|
        0 <= k < cur.len() implies s0.contains(#[trigger] cur[k]) || unmap_piece(
        s0,
        cur[k],
        start,
        size,
    ) by {
        if k == pred_idx {
            assert(s0[j0].spec_start() < start + size && start < s0[j0].spec_end());
            assert(trimmed_left(cur[k], s0[j0], start) && s0[j0].spec_start() < start);
            assert(unmap_piece(s0, cur[k], start, size));
        } else if k == pred_idx + 1 {
            assert(s0[j0].spec_start() < start + size && start < s0[j0].spec_end());
            assert(trimmed_right(cur[k], s0[j0], ((start + size) as usize)) && s0[j0].spec_end()
                > start + size);
            assert(unmap_piece(s0, cur[k], start, size));
        }
    }
    assert forall|j: int|
        0 <= j < s0.len() && ((#[trigger] s0[j]).spec_end() <= start || s0[j].spec_start()
            >= start + size) implies cur.contains(s0[j]) by {
        assert(s1.contains(s0[j]));
        let k = choose|k: int| 0 <= k < s1.len() && s1[k] == s0[j];
        if k == pred_idx {
            assert(s0[j].spec_end() > start);
            assert(s0[j].spec_start() < start);
            assert(false);
        } else if k < pred_idx {
            assert(cur[k] == s1[k]);
            assert(cur.contains(s0[j]));
        } else {
            assert(cur[k + 1] == s1[k]);
            assert(cur.contains(s0[j]));
        }
    }
    assert forall|k: int|
        0 <= k < cur.len() && (#[trigger] cur[k]).spec_start() < start implies cur[k].spec_end()
        <= start by {
        if k == pred_idx {
            assert(np.spec_end() == start);
        } else if k < pred_idx {
            assert(cur[k] == s1[k]);
            assert(s1[k].spec_end() <= s1[pred_idx].spec_start());
        }
    }
    assert forall|k: int|
        0 <= k < cur.len() && start <= (#[trigger] cur[k]).spec_start() < start + size implies cur[
    k].spec_end() > start + size by {
    }
    assert forall|addr: usize|
        #[trigger] seq_covers(s0, addr) && !(start <= addr < start + size) implies seq_covers(
        cur,
        addr,
    ) by {
        assert(seq_covers(s1, addr));
        let k = choose|k: int|
            0 <= k < s1.len() && (#[trigger] s1[k]).spec_start() <= addr < s1[k].spec_end();
        if k == pred_idx {
            if addr < start {
                assert(cur[pred_idx].spec_start() <= addr < cur[pred_idx].spec_end());
            } else {
                assert(addr >= start + size);
                assert(cur[pred_idx + 1].spec_start() <= addr < cur[pred_idx + 1].spec_end());
            }
        } else if k < pred_idx {
            assert(cur[k] == s1[k]);
            assert(cur[k].spec_start() <= addr < cur[k].spec_end());
        } else {
            assert(cur[k + 1] == s1[k]);
            assert(cur[k + 1].spec_start() <= addr < cur[k + 1].spec_end());
        }
    }
}

/// When the mid-way facts hold and no area starts inside the range, the
/// whole range is clear and the final facts hold.
proof fn lemma_unmap_no_right_leaf<B: MappingBackend>(
    s0: Seq<MemoryArea<B>>,
    s2: Seq<MemoryArea<B>>,
    idx3: int,
    start: usize,
    size: usize,
)
    requires
        areas_inv(s0),
        areas_inv(s2),
        size > 0,
        start + size <= usize::MAX,
        unmap_mid(s0, s2, start, size),
        0 <= idx3 <= s2.len(),
        forall|k: int| 0 <= k < idx3 ==> (#[trigger] s2[k]).spec_start() < start,
        forall|k: int| idx3 <= k < s2.len() ==> (#[trigger] s2[k]).spec_start() >= start,
        idx3 == s2.len() || s2[idx3].spec_start() >= start + size,
    ensures
        unmap_post(s0, s2, start, size),
{
    assert forall|i: int|
        0 <= i < s2.len() implies !((#[trigger] s2[i]).spec_start() < start + size && start
        < s2[i].spec_end()) by {
        if s2[i].spec_start() < start {
        } else if s2[i].spec_start() < start + size {
            assert(i >= idx3);
            if i > idx3 {
                assert(s2[idx3].spec_end() <= s2[i].spec_start());
            }
            assert(false);
        }
    }
}

/// The final facts after the right-boundary area is trimmed on the left.
proof fn lemma_unmap_right_leaf<B: MappingBackend>(
    s0: Seq<MemoryArea<B>>,
    s2: Seq<MemoryArea<B>>,
    cur: Seq<MemoryArea<B>>,
    idx3: int,
    succ0: MemoryArea<B>,
    ns: MemoryArea<B>,
    start: usize,
    size: usize,
)
    requires
        areas_inv(s0),
        areas_inv(s2),
        size > 0,
        start + size <= usize::MAX,
        unmap_mid(s0, s2, start, size),
        0 <= idx3 < s2.len(),
        succ0 == s2[idx3],
        forall|k: int| 0 <= k < idx3 ==> (#[trigger] s2[k]).spec_start() < start,
        forall|k: int| idx3 <= k < s2.len() ==> (#[trigger] s2[k]).spec_start() >= start,
        start <= succ0.spec_start() < start + size,
        succ0.spec_end() > start + size,
        trimmed_right(ns, succ0, ((start + size) as usize)),
        cur == s2.update(idx3, ns),
    ensures
        unmap_post(s0, cur, start, size),
{
    assert forall|i: int|
        0 <= i < cur.len() implies !((#[trigger] cur[i]).spec_start() < start + size && start
        < cur[i].spec_end()) by {
        if i == idx3 {
            assert(cur[i].spec_start() == start + size);
        } else {
            assert(cur[i] == s2[i]);
            if s2[i].spec_start() < start {
            } else if s2[i].spec_start() < start + size {
                if i < idx3 {
                    assert(s2[i].spec_start() < start);
                } else {
                    assert(s2[idx3].spec_end() <= s2[i].spec_start());
                }
                assert(false);
            }
        }
    }
    assert forall|j: int|
        0 <= j < s0.len() && ((#[trigger] s0[j]).spec_end() <= start || s0[j].spec_start()
            >= start + size) implies cur.contains(s0[j]) by {
        assert(s2.contains(s0[j]));
        let k = choose|k: int| 0 <= k < s2.len() && s2[k] == s0[j];
        if k == idx3 {
            assert(s0[j].spec_end() > start + size > start);
            assert(s0[j].spec_start() < start + size);
            assert(false);
        } else {
            assert(cur[k] == s2[k]);
            assert(cur.contains(s0[j]));
        }
    }
    assert forall|i: int|
        0 <= i < cur.len() implies s0.contains(#[trigger] cur[i]) || unmap_piece(
        s0,
        cur[i],
        start,
        size,
    ) by {
        if i == idx3 {
            assert(s0.contains(succ0)) by {
                if !s0.contains(succ0) {
                    assert(unmap_piece(s0, succ0, start, size));
                    let j = choose|j: int|
                        0 <= j < s0.len() && (#[trigger] s0[j]).spec_start() < start + size
                            && start < s0[j].spec_end() && ((trimmed_left(succ0, s0[j], start)
                            && s0[j].spec_start() < start) || (trimmed_right(
                            succ0,
                            s0[j],
                            ((start + size) as usize),
                        ) && s0[j].spec_end() > start + size));
                    if trimmed_left(succ0, s0[j], start) && s0[j].spec_start() < start {
                        assert(succ0.spec_start() == s0[j].spec_start());
                        assert(false);
                    } else {
                        assert(succ0.spec_start() == start + size);
                        assert(false);
                    }
                }
            }
            let j = choose|j: int| 0 <= j < s0.len() && s0[j] == succ0;
            assert(s0[j].spec_start() < start + size && start < s0[j].spec_end());
            assert(trimmed_right(cur[i], s0[j], ((start + size) as usize)) && s0[j].spec_end()
                > start + size);
            assert(unmap_piece(s0, cur[i], start, size));
        } else {
            assert(cur[i] == s2[i]);
        }
    }
    assert forall|addr: usize|
        #[trigger] seq_covers(s0, addr) && !(start <= addr < start + size) implies seq_covers(
        cur,
        addr,
    ) by {
        assert(seq_covers(s2, addr));
        let k = choose|k: int|
            0 <= k < s2.len() && (#[trigger] s2[k]).spec_start() <= addr < s2[k].spec_end();
        if k == idx3 {
            assert(addr >= start + size);
            assert(cur[k].spec_start() <= addr < cur[k].spec_end());
        } else {
            assert(cur[k] == s2[k]);
            assert(cur[k].spec_start() <= addr < cur[k].spec_end());
        }
    }
}

/// Whether `a1` still holds, with the same values, every frame that `a0`
/// held at an address in `[start, end)`.
pub open spec fn frames_kept_in<B: MappingBackend>(
    a0: MemoryArea<B>,
    a1: MemoryArea<B>,
    start: usize,
    end: usize,
) -> bool {
    forall|va: usize| #![trigger a1.has_frame(va)]
        a0.has_frame(va) && start <= va < end ==> a1.has_frame(va) && a1.frame_val(va)
            == a0.frame_val(va)
}

/// The shape a failed `clear` leaves behind: a prefix of areas already
/// unmapped, with empty frame tables, and the rest untouched.
pub open spec fn clear_partial<B: MappingBackend>(
    s0: Seq<MemoryArea<B>>,
    s1: Seq<MemoryArea<B>>,
) -> bool {
    exists|k: int| #![trigger s0.subrange(0, k)]
        0 <= k <= s0.len() && (forall|m: int|
            0 <= m < k ==> (#[trigger] s1[m]).same_shape(s0[m]) && s1[m].frames_seq().len()
                == 0) && (forall|m: int| k <= m < s0.len() ==> #[trigger] s1[m] == s0[m])
}

/// What a successful `map` of `area` leaves behind: an intermediate state
/// that is the old one when nothing overlapped, or an `unmap` of the
/// area's range otherwise, into which an area with `area`'s range, flags,
/// backend and at least its frames was inserted.
pub open spec fn map_ok_post<B: MappingBackend>(
    s0: Seq<MemoryArea<B>>,
    s1: Seq<MemoryArea<B>>,
    area: MemoryArea<B>,
) -> bool {
    exists|a2: MemoryArea<B>, smid: Seq<MemoryArea<B>>| #![trigger is_insert_of(s1, smid, a2)]
        a2.spec_va_range() == area.spec_va_range() && a2.spec_flags() == area.spec_flags()
            && a2.spec_backend() == area.spec_backend() && (forall|va: usize|
            #[trigger] area.has_frame(va) ==> a2.has_frame(va)) && is_insert_of(s1, smid, a2)
            && ((exists|i: int|
            0 <= i < s0.len() && (#[trigger] s0[i]).spec_va_range().spec_overlaps(
                area.spec_va_range(),
            )) ==> unmap_post(
            s0,
            smid,
            area.spec_start(),
            ((area.spec_end() - area.spec_start()) as usize),
        )) && (!(exists|i: int|
            0 <= i < s0.len() && (#[trigger] s0[i]).spec_va_range().spec_overlaps(
                area.spec_va_range(),
            )) ==> smid == s0)
}

/// The position of the area whose start address is `addr`.
pub open spec fn index_of_start<B: MappingBackend>(s: Seq<MemoryArea<B>>, addr: usize) -> int {
    choose|i: int| 0 <= i < s.len() && (#[trigger] s[i]).spec_start() == addr
}

/// Whether `new` is `old_seq` with `area` inserted at some position.
pub open spec fn is_insert_of<B: MappingBackend>(
    new: Seq<MemoryArea<B>>,
    old_seq: Seq<MemoryArea<B>>,
    area: MemoryArea<B>,
) -> bool {
    exists|k: int| 0 <= k <= old_seq.len() && new == old_seq.insert(k, area)
}

/// Whether `piece` covers a sub-range of `orig` and carries `orig`'s frames
/// on that sub-range, keeping `orig`'s flags when it lies outside the
/// protected range `[start, start + size)`, or carrying flags that `f`
/// produced from `orig`'s flags when it lies inside.
#[verifier::opaque]
pub open spec fn protect_piece<B: MappingBackend, F: Fn(B::Flags) -> Option<B::Flags>>(
    piece: MemoryArea<B>,
    orig: MemoryArea<B>,
    start: usize,
    size: usize,
    f: F,
) -> bool {
    &&& orig.spec_start() <= piece.spec_start()
    &&& piece.spec_end() <= orig.spec_end()
    &&& forall|va: usize| #![trigger piece.has_frame(va)]
        piece.has_frame(va) <==> orig.has_frame(va) && piece.spec_start() <= va
            < piece.spec_end()
    &&& forall|va: usize| #![trigger piece.frame_val(va)]
        orig.has_frame(va) && piece.spec_start() <= va < piece.spec_end() ==> piece.frame_val(
            va,
        ) == orig.frame_val(va)
    &&& ((piece.spec_flags() == orig.spec_flags() && (piece.spec_end() <= start
        || piece.spec_start() >= start + size)) || (call_ensures(
        f,
        (orig.spec_flags(),),
        Some(piece.spec_flags()),
    ) && start <= piece.spec_start() && piece.spec_end() <= start + size))
}

/// Whether one of the first `k` areas of the sequence contains `addr`.
pub open spec fn seq_covers_up_to<B: MappingBackend>(
    s: Seq<MemoryArea<B>>,
    k: int,
    addr: usize,
) -> bool {
    exists|j: int| 0 <= j < k && (#[trigger] s[j]).spec_start() <= addr < s[j].spec_end()
}

/// Whether `fl1` is a flags value `f` can produce from `fl0`, or `fl0`
/// itself where `f` can decline to change it.
pub open spec fn flags_choice<T, F: Fn(T) -> Option<T>>(fl0: T, fl1: T, f: F) -> bool {
    call_ensures(f, (fl0,), Some(fl1)) || (call_ensures(f, (fl0,), Option::<T>::None) && fl1
        == fl0)
}

/// Every address inside the protected range that was covered is covered
/// afterwards by an area whose flags `f` produced from the old covering
/// area's flags, or that keeps those flags where `f` can decline.
pub open spec fn protect_flags<B: MappingBackend, F: Fn(B::Flags) -> Option<B::Flags>>(
    s0: Seq<MemoryArea<B>>,
    s1: Seq<MemoryArea<B>>,
    start: usize,
    size: usize,
    f: F,
) -> bool {
    forall|addr: usize| #![trigger seq_covers(s0, addr)]
        start <= addr < start + size && seq_covers(s0, addr) ==> exists|m: int, j: int|
            #![trigger s1[m], s0[j]]
            0 <= m < s1.len() && 0 <= j < s0.len() && s0[j].spec_start() <= addr
                < s0[j].spec_end() && s1[m].spec_start() <= addr < s1[m].spec_end()
                && flags_choice(s0[j].spec_flags(), s1[m].spec_flags(), f)
}

/// What a successful `protect` of `[start, start + size)` leaves behind:
/// every old area away from the range is still present, and every area of
/// the result is an old one, or a piece of an old one that keeps the old
/// flags outside the range or carries `f`-produced flags inside it.
pub open spec fn protect_post<B: MappingBackend, F: Fn(B::Flags) -> Option<B::Flags>>(
    s0: Seq<MemoryArea<B>>,
    s1: Seq<MemoryArea<B>>,
    start: usize,
    size: usize,
    f: F,
) -> bool {
    &&& forall|j: int|
        0 <= j < s0.len() && ((#[trigger] s0[j]).spec_end() <= start || s0[j].spec_start()
            >= start + size) ==> s1.contains(s0[j])
    &&& forall|i: int|
        0 <= i < s1.len() ==> s0.contains(#[trigger] s1[i]) || exists|j: int|
            0 <= j < s0.len() && protect_piece(s1[i], #[trigger] s0[j], start, size, f)
    &&& forall|addr: usize|
        #[trigger] seq_covers(s0, addr) ==> seq_covers(s1, addr)
    &&& protect_flags(s0, s1, start, size, f)
}

/// The relation a `protect` walk maintains between the original areas and
/// the current ones: the areas already walked are old areas or pieces of
/// old areas, and every already-walked old area away from the range is
/// still present among the walked part.
#[verifier::opaque]
spec fn protect_rel<B: MappingBackend, F: Fn(B::Flags) -> Option<B::Flags>>(
    s0: Seq<MemoryArea<B>>,
    cur: Seq<MemoryArea<B>>,
    i: int,
    src_i: int,
    start: usize,
    size: usize,
    f: F,
) -> bool {
    &&& forall|m: int|
        0 <= m < i ==> s0.contains(#[trigger] cur[m]) || exists|j: int|
            0 <= j < s0.len() && protect_piece(cur[m], #[trigger] s0[j], start, size, f)
    &&& forall|j: int|
        0 <= j < src_i && ((#[trigger] s0[j]).spec_end() <= start || s0[j].spec_start() >= start
            + size) ==> exists|m: int| 0 <= m < i && cur[m] == s0[j]
    &&& forall|addr: usize| #![trigger seq_covers_up_to(s0, src_i, addr)]
        start <= addr < start + size && seq_covers_up_to(s0, src_i, addr) ==> exists|
            m: int,
            j: int,
        |
            #![trigger cur[m], s0[j]]
            0 <= m < i && 0 <= j < s0.len() && s0[j].spec_start() <= addr < s0[j].spec_end()
                && cur[m].spec_start() <= addr < cur[m].spec_end() && flags_choice(
                s0[j].spec_flags(),
                cur[m].spec_flags(),
                f,
            )
}

/// Walking past an area without touching it keeps the `protect` relation.
proof fn lemma_protect_skip<B: MappingBackend, F: Fn(B::Flags) -> Option<B::Flags>>(
    s0: Seq<MemoryArea<B>>,
    cur: Seq<MemoryArea<B>>,
    i: int,
    src_i: int,
    start: usize,
    size: usize,
    f: F,
)
    requires
        0 <= i < cur.len(),
        0 <= src_i < s0.len(),
        cur[i] == s0[src_i],
        s0[src_i].spec_end() <= start || s0[src_i].spec_start() >= start + size || call_ensures(
            f,
            (s0[src_i].spec_flags(),),
            Option::<B::Flags>::None,
        ),
        protect_rel(s0, cur, i, src_i, start, size, f),
    ensures
        protect_rel(s0, cur, i + 1, src_i + 1, start, size, f),
{
    reveal(protect_rel);
    assert(s0.contains(cur[i]));
    assert forall|j: int|
        0 <= j < src_i + 1 && ((#[trigger] s0[j]).spec_end() <= start || s0[j].spec_start()
            >= start + size) implies exists|m: int| 0 <= m < i + 1 && cur[m] == s0[j] by {
        if j == src_i {
            assert(cur[i] == s0[j]);
        } else {
            let m = choose|m: int| 0 <= m < i && cur[m] == s0[j];
            assert(cur[m] == s0[j]);
        }
    }
    assert forall|addr: usize| #![trigger seq_covers_up_to(s0, src_i + 1, addr)]
        start <= addr < start + size && seq_covers_up_to(s0, src_i + 1, addr) implies exists|
        m: int,
        j: int,
    |
        #![trigger cur[m], s0[j]]
        0 <= m < i + 1 && 0 <= j < s0.len() && s0[j].spec_start() <= addr < s0[j].spec_end()
            && cur[m].spec_start() <= addr < cur[m].spec_end() && flags_choice(
            s0[j].spec_flags(),
            cur[m].spec_flags(),
            f,
        ) by {
        let j0 = choose|j: int|
            0 <= j < src_i + 1 && (#[trigger] s0[j]).spec_start() <= addr < s0[j].spec_end();
        if j0 == src_i {
            assert(cur[i].spec_start() <= addr < cur[i].spec_end());
            assert(flags_choice(s0[src_i].spec_flags(), cur[i].spec_flags(), f));
            assert(0 <= i < i + 1 && 0 <= src_i < s0.len() && s0[src_i].spec_start() <= addr
                < s0[src_i].spec_end() && cur[i].spec_start() <= addr < cur[i].spec_end()
                && flags_choice(s0[src_i].spec_flags(), cur[i].spec_flags(), f));
        } else {
            assert(seq_covers_up_to(s0, src_i, addr));
        }
    }
}

/// Replacing the walked area by one, two or three pieces of it keeps the
/// `protect` relation; the replaced area overlaps the protected range.
proof fn lemma_protect_advance<B: MappingBackend, F: Fn(B::Flags) -> Option<B::Flags>>(
    s0: Seq<MemoryArea<B>>,
    pre: Seq<MemoryArea<B>>,
    cur: Seq<MemoryArea<B>>,
    i: int,
    src_i: int,
    npieces: int,
    start: usize,
    size: usize,
    f: F,
)
    requires
        0 <= i < pre.len(),
        0 <= src_i < s0.len(),
        pre[i] == s0[src_i],
        s0[src_i].spec_end() > start,
        s0[src_i].spec_start() < start + size,
        protect_rel(s0, pre, i, src_i, start, size, f),
        1 <= npieces,
        cur.len() == pre.len() + npieces - 1,
        forall|m: int| 0 <= m < i ==> cur[m] == pre[m],
        forall|m: int| i < m < pre.len() ==> cur[m + npieces - 1] == pre[m],
        forall|m: int| i <= m < i + npieces ==> protect_piece(#[trigger] cur[m], s0[src_i], start, size, f),
        npieces <= 3,
        areas_inv(cur),
        cur[i].spec_start() == s0[src_i].spec_start(),
        cur[i + npieces - 1].spec_end() == s0[src_i].spec_end(),
        forall|m: int|
            i <= m < i + npieces - 1 ==> (#[trigger] cur[m]).spec_end() == cur[m
                + 1].spec_start(),
        forall|addr: usize| #[trigger] seq_covers(s0, addr) ==> seq_covers(pre, addr),
        forall|k: int| i <= k < pre.len() ==> pre[k] == s0[k - i + src_i],
    ensures
        protect_rel(s0, cur, i + npieces, src_i + 1, start, size, f),
        forall|addr: usize| #[trigger] seq_covers(s0, addr) ==> seq_covers(cur, addr),
{
    reveal(protect_rel);
    assert forall|m: int|
        0 <= m < i + npieces implies s0.contains(#[trigger] cur[m]) || exists|j: int|
            0 <= j < s0.len() && protect_piece(cur[m], #[trigger] s0[j], start, size, f) by {
        if m < i {
            assert(cur[m] == pre[m]);
        } else {
            assert(protect_piece(cur[m], s0[src_i], start, size, f));
        }
    }
    assert forall|j: int|
        0 <= j < src_i + 1 && ((#[trigger] s0[j]).spec_end() <= start || s0[j].spec_start()
            >= start + size) implies exists|m: int| 0 <= m < i + npieces && cur[m] == s0[j] by {
        if j == src_i {
            assert(false);
        } else {
            let m = choose|m: int| 0 <= m < i && pre[m] == s0[j];
            assert(cur[m] == s0[j]);
        }
    }
    assert forall|addr: usize| #[trigger] seq_covers(s0, addr) implies seq_covers(cur, addr) by {
        assert(seq_covers(pre, addr));
        let k = choose|k: int|
            0 <= k < pre.len() && (#[trigger] pre[k]).spec_start() <= addr < pre[k].spec_end();
        if k < i {
            assert(cur[k].spec_start() <= addr < cur[k].spec_end());
        } else if k == i {
            if npieces == 1 {
                assert(cur[i].spec_start() <= addr < cur[i].spec_end());
            } else if npieces == 2 {
                if addr < cur[i].spec_end() {
                    assert(cur[i].spec_start() <= addr < cur[i].spec_end());
                } else {
                    assert(cur[i + 1].spec_start() <= addr < cur[i + 1].spec_end());
                }
            } else {
                if addr < cur[i].spec_end() {
                    assert(cur[i].spec_start() <= addr < cur[i].spec_end());
                } else if addr < cur[i + 1].spec_end() {
                    assert(cur[i + 1].spec_start() <= addr < cur[i + 1].spec_end());
                } else {
                    assert(cur[i + 2].spec_start() <= addr < cur[i + 2].spec_end());
                }
            }
        } else {
            assert(cur[k + npieces - 1] == pre[k]);
            assert(cur[k + npieces - 1].spec_start() <= addr < cur[k + npieces - 1].spec_end());
        }
    }
    assert forall|addr: usize| #![trigger seq_covers_up_to(s0, src_i + 1, addr)]
        start <= addr < start + size && seq_covers_up_to(s0, src_i + 1, addr) implies exists|
        m: int,
        j: int,
    |
        #![trigger cur[m], s0[j]]
        0 <= m < i + npieces && 0 <= j < s0.len() && s0[j].spec_start() <= addr
            < s0[j].spec_end() && cur[m].spec_start() <= addr < cur[m].spec_end()
            && flags_choice(s0[j].spec_flags(), cur[m].spec_flags(), f) by {
        let j0 = choose|j: int|
            0 <= j < src_i + 1 && (#[trigger] s0[j]).spec_start() <= addr < s0[j].spec_end();
        if j0 == src_i {
            // find the piece that contains the address, then read its flags
            let mstar: int = if npieces >= 2 && addr >= cur[i + 1].spec_start() {
                if npieces == 3 && addr >= cur[i + 2].spec_start() {
                    i + 2
                } else {
                    i + 1
                }
            } else {
                i
            };
            assert(cur[mstar].spec_start() <= addr < cur[mstar].spec_end()) by {
                if npieces == 1 {
                } else if npieces == 2 {
                    if addr < cur[i + 1].spec_start() {
                        assert(cur[i].spec_end() == cur[i + 1].spec_start());
                    }
                } else {
                    if addr < cur[i + 1].spec_start() {
                        assert(cur[i].spec_end() == cur[i + 1].spec_start());
                    } else if addr < cur[i + 2].spec_start() {
                        assert(cur[i + 1].spec_end() == cur[i + 2].spec_start());
                    }
                }
            }
            assert(flags_choice(s0[src_i].spec_flags(), cur[mstar].spec_flags(), f)) by {
                reveal(protect_piece);
                assert(protect_piece(cur[mstar], s0[src_i], start, size, f));
            }
            assert(0 <= mstar < i + npieces && 0 <= src_i < s0.len()
                && s0[src_i].spec_start() <= addr < s0[src_i].spec_end()
                && cur[mstar].spec_start() <= addr < cur[mstar].spec_end() && flags_choice(
                s0[src_i].spec_flags(),
                cur[mstar].spec_flags(),
                f,
            ));
        } else {
            assert(seq_covers_up_to(s0, src_i, addr));
            let (m1, j1): (int, int) = choose|m: int, j: int|
                #![trigger pre[m], s0[j]]
                0 <= m < i && 0 <= j < s0.len() && s0[j].spec_start() <= addr
                    < s0[j].spec_end() && pre[m].spec_start() <= addr < pre[m].spec_end()
                    && flags_choice(s0[j].spec_flags(), pre[m].spec_flags(), f);
            assert(cur[m1] == pre[m1]);
            assert(0 <= m1 < i + npieces && 0 <= j1 < s0.len() && s0[j1].spec_start() <= addr
                < s0[j1].spec_end() && cur[m1].spec_start() <= addr < cur[m1].spec_end()
                && flags_choice(s0[j1].spec_flags(), cur[m1].spec_flags(), f));
        }
    }
}

/// At the end of the walk, the `protect` relation together with the
/// untouched suffix gives the function's postcondition.
proof fn lemma_protect_post_from_rel<B: MappingBackend, F: Fn(B::Flags) -> Option<B::Flags>>(
    s0: Seq<MemoryArea<B>>,
    cur: Seq<MemoryArea<B>>,
    i: int,
    src_i: int,
    start: usize,
    size: usize,
    f: F,
)
    requires
        areas_inv(s0),
        0 <= i <= cur.len(),
        0 <= src_i <= s0.len(),
        cur.len() - i == s0.len() - src_i,
        forall|m: int| i <= m < cur.len() ==> cur[m] == s0[m - i + src_i],
        protect_rel(s0, cur, i, src_i, start, size, f),
        forall|addr: usize| #[trigger] seq_covers(s0, addr) ==> seq_covers(cur, addr),
        i == cur.len() || s0[src_i].spec_start() >= start + size,
    ensures
        protect_post(s0, cur, start, size, f),
{
    reveal(protect_rel);
    assert forall|j: int|
        0 <= j < s0.len() && ((#[trigger] s0[j]).spec_end() <= start || s0[j].spec_start()
            >= start + size) implies cur.contains(s0[j]) by {
        if j < src_i {
            let m = choose|m: int| 0 <= m < i && cur[m] == s0[j];
            assert(cur[m] == s0[j]);
        } else {
            assert(cur[j - src_i + i] == s0[j]);
        }
    }
    assert forall|m: int|
        0 <= m < cur.len() implies s0.contains(#[trigger] cur[m]) || exists|j: int|
            0 <= j < s0.len() && protect_piece(cur[m], #[trigger] s0[j], start, size, f) by {
        if m >= i {
            assert(cur[m] == s0[m - i + src_i]);
        }
    }
    assert forall|addr: usize| #![trigger seq_covers(s0, addr)]
        start <= addr < start + size && seq_covers(s0, addr) implies exists|m: int, j: int|
        #![trigger cur[m], s0[j]]
        0 <= m < cur.len() && 0 <= j < s0.len() && s0[j].spec_start() <= addr
            < s0[j].spec_end() && cur[m].spec_start() <= addr < cur[m].spec_end()
            && flags_choice(s0[j].spec_flags(), cur[m].spec_flags(), f) by {
        let j0 = choose|j: int|
            0 <= j < s0.len() && (#[trigger] s0[j]).spec_start() <= addr < s0[j].spec_end();
        if j0 >= src_i {
            // the walk stopped only once every remaining area starts at or
            // beyond the range end, so no such area holds an in-range address
            assert(i < cur.len());
            if j0 > src_i {
                assert(s0[src_i].spec_end() <= s0[j0].spec_start());
            }
            assert(s0[j0].spec_start() >= start + size);
            assert(false);
        } else {
            assert(seq_covers_up_to(s0, src_i, addr));
        }
    }
}

/// A container that maintains memory mappings ([`MemoryArea`]).
///
/// The areas are kept sorted by start address, pairwise non-overlapping,
/// and non-empty.
pub struct MemorySet<B: MappingBackend> {
    areas: Vec<MemoryArea<B>>,
}

impl<B: MappingBackend> MemorySet<B> {
    /// The areas of the set, in ascending order of start address.
    pub closed spec fn areas_seq(self) -> Seq<MemoryArea<B>> {
        self.areas@
    }

    /// The invariant of the set: every area is well-formed and non-empty,
    /// and the areas are sorted and pairwise non-overlapping.
    pub open spec fn inv(self) -> bool {
        areas_inv(self.areas_seq())
    }

    /// Whether some area of the set contains `addr`.
    pub open spec fn covers(self, addr: usize) -> bool {
        exists|i: int|
            0 <= i < self.areas_seq().len() && (#[trigger] self.areas_seq()[i]).spec_va_range(
            ).spec_contains(addr)
    }

    /// The position of the area that contains `addr`.
    pub open spec fn covering_index(self, addr: usize) -> int {
        choose|i: int|
            0 <= i < self.areas_seq().len() && (#[trigger] self.areas_seq()[i]).spec_va_range(
            ).spec_contains(addr)
    }

    /// The area that contains `addr`.
    pub open spec fn area_at(self, addr: usize) -> MemoryArea<B> {
        self.areas_seq()[self.covering_index(addr)]
    }

    /// Whether some area of the set overlaps `range`.
    pub open spec fn overlaps_spec(self, range: AddrRange) -> bool {
        exists|i: int|
            0 <= i < self.areas_seq().len() && (#[trigger] self.areas_seq()[i]).spec_va_range(
            ).spec_overlaps(range)
    }

    /// Creates a new memory set.
    pub fn new() -> (r: MemorySet<B>)
        ensures
            r.areas_seq().len() == 0,
            r.inv(),
    {
        MemorySet { areas: Vec::new() }
    }

    /// Returns the number of memory areas in the memory set.
    pub fn len(&self) -> (r: usize)
        ensures
            r == self.areas_seq().len(),
    {
        self.areas.len()
    }

    /// Returns `true` if the memory set contains no memory areas.
    pub fn is_empty(&self) -> (r: bool)
        ensures
            r == (self.areas_seq().len() == 0),
    {
        self.areas.is_empty()
    }

    /// Returns the memory areas, in ascending order of start address.
    pub fn iter(&self) -> (r: &Vec<MemoryArea<B>>)
        ensures
            r@ == self.areas_seq(),
    {
        &self.areas
    }

    /// In a set holding the invariant, at most one area contains any given
    /// address: any two positions whose areas contain `addr` are equal.
    pub proof fn lemma_unique_containing(self, addr: usize, i: int, j: int)
        requires
            self.inv(),
            0 <= i < self.areas_seq().len(),
            0 <= j < self.areas_seq().len(),
            self.areas_seq()[i].spec_va_range().spec_contains(addr),
            self.areas_seq()[j].spec_va_range().spec_contains(addr),
        ensures
            i == j,
    {
        if i < j {
            assert(self.areas_seq()[i].spec_end() <= self.areas_seq()[j].spec_start());
        } else if j < i {
            assert(self.areas_seq()[j].spec_end() <= self.areas_seq()[i].spec_start());
        }
    }

    /// Returns the position of the first area whose start address is at
    /// least `addr`.
    fn area_lower_bound(&self, addr: usize) -> (idx: usize)
        requires
            self.inv(),
        ensures
            idx <= self.areas_seq().len(),
            forall|i: int|
                0 <= i < idx ==> (#[trigger] self.areas_seq()[i]).spec_start() < addr,
            forall|i: int|
                idx <= i < self.areas_seq().len() ==> (#[trigger] self.areas_seq()[i]).spec_start()
                    >= addr,
    {
        let mut idx: usize = 0;
        loop
            invariant
                self.inv(),
                idx <= self.areas_seq().len(),
                forall|i: int|
                    0 <= i < idx ==> (#[trigger] self.areas_seq()[i]).spec_start() < addr,
            decreases self.areas_seq().len() - idx,
        {
            if idx == self.areas.len() {
                return idx;
            }
            if self.areas[idx].start() >= addr {
                assert forall|i: int|
                    idx <= i < self.areas_seq().len() implies (#[trigger] self.areas_seq()[i]).spec_start()
                    >= addr by {
                    if i > idx {
                        assert(self.areas_seq()[idx as int].spec_end()
                            <= self.areas_seq()[i].spec_start());
                    }
                }
                return idx;
            }
            idx += 1;
        }
    }

    /// Finds the memory area that contains the given address.
    pub fn find(&self, addr: usize) -> (r: Option<&MemoryArea<B>>)
        requires
            self.inv(),
        ensures
            r is Some <==> self.covers(addr),
            r matches Some(a) ==> *a == self.area_at(addr) && a.spec_va_range().spec_contains(
                addr,
            ) && self.areas_seq().contains(*a),
    {
        let idx = self.area_lower_bound(addr);
        // the containing area, if any, is the one just before the first
        // area that starts above `addr`, or the one starting exactly at it
        if idx < self.areas.len() && self.areas[idx].start() == addr {
            proof {
                self.lemma_covering_is(addr, idx as int);
            }
            return Some(&self.areas[idx]);
        }
        if idx > 0 {
            let cand = idx - 1;
            if addr < self.areas[cand].end() {
                proof {
                    self.lemma_covering_is(addr, cand as int);
                }
                return Some(&self.areas[cand]);
            }
        }
        proof {
            if self.covers(addr) {
                let i = self.covering_index(addr);
                assert(self.areas_seq()[i].spec_va_range().spec_contains(addr));
                if i < idx {
                    if i < idx - 1 {
                        assert(self.areas_seq()[i].spec_end() <= self.areas_seq()[idx
                            - 1].spec_start());
                    }
                } else {
                    assert(self.areas_seq()[i].spec_start() >= addr);
                    assert(self.areas_seq()[i].spec_start() != addr);
                }
            }
        }
        None
    }

    /// When the area at position `i` contains `addr`, it is the area that
    /// [`Self::covers`] and [`Self::area_at`] speak of.
    pub proof fn lemma_covering_is(self, addr: usize, i: int)
        requires
            self.inv(),
            0 <= i < self.areas_seq().len(),
            self.areas_seq()[i].spec_va_range().spec_contains(addr),
        ensures
            self.covers(addr),
            self.covering_index(addr) == i,
            self.area_at(addr) == self.areas_seq()[i],
            self.areas_seq().contains(self.areas_seq()[i]),
    {
        assert(self.covers(addr));
        self.lemma_unique_containing(addr, self.covering_index(addr), i);
    }

    /// Finds the memory area that contains the given address, for mutation.
    pub fn find_mut(&mut self, addr: usize) -> (r: Option<&mut MemoryArea<B>>)
        requires
            old(self).inv(),
        ensures
            r is Some <==> old(self).covers(addr),
            r is None ==> *final(self) == *old(self),
            r matches Some(m) ==> *m == old(self).area_at(addr) && m.spec_va_range(
            ).spec_contains(addr) && final(self).areas_seq() == old(self).areas_seq().update(
                old(self).covering_index(addr),
                *final(m),
            ),
    {
        let idx = self.area_lower_bound(addr);
        if idx < self.areas.len() && self.areas[idx].start() == addr {
            proof {
                self.lemma_covering_is(addr, idx as int);
            }
            return Some(&mut self.areas[idx]);
        }
        if idx > 0 {
            let cand = idx - 1;
            if addr < self.areas[cand].end() {
                proof {
                    self.lemma_covering_is(addr, cand as int);
                }
                return Some(&mut self.areas[cand]);
            }
        }
        proof {
            if self.covers(addr) {
                let i = self.covering_index(addr);
                assert(self.areas_seq()[i].spec_va_range().spec_contains(addr));
                if i < idx {
                    if i < idx - 1 {
                        assert(self.areas_seq()[i].spec_end() <= self.areas_seq()[idx
                            - 1].spec_start());
                    }
                } else {
                    assert(self.areas_seq()[i].spec_start() >= addr);
                    assert(self.areas_seq()[i].spec_start() != addr);
                }
            }
        }
        None
    }

    /// Returns whether the given address range overlaps with any existing
    /// area.
    pub fn overlaps(&self, range: AddrRange) -> (r: bool)
        requires
            self.inv(),
        ensures
            r == self.overlaps_spec(range),
    {
        let mut i: usize = 0;
        loop
            invariant
                self.inv(),
                i <= self.areas_seq().len(),
                forall|j: int|
                    0 <= j < i ==> !(#[trigger] self.areas_seq()[j]).spec_va_range().spec_overlaps(
                        range,
                    ),
            decreases self.areas_seq().len() - i,
        {
            if i == self.areas.len() {
                return false;
            }
            if self.areas[i].va_range().overlaps(range) {
                return true;
            }
            i += 1;
        }
    }

    /// Whether no area of the set overlaps the addresses `[start, end)`,
    /// where each bound is taken as an unbounded integer.
    pub open spec fn range_free(self, start: int, end: int) -> bool {
        forall|i: int|
            0 <= i < self.areas_seq().len() ==> !((#[trigger] self.areas_seq()[i]).spec_start()
                < end && start < self.areas_seq()[i].spec_end())
    }

    /// Finds a free area of `size` bytes by first fit.
    ///
    /// The search starts at `hint` or at the start of `limit`, whichever is
    /// higher, and walks the areas from low to high addresses. The returned
    /// address is the lowest candidate: no smaller address at or above the
    /// scan start is free. It never overlaps an area, and either fits below
    /// the end of `limit` or lies below an area above the candidate gap: a
    /// gap is checked only against the next area's start, so when an area
    /// lies beyond `limit` the returned range can reach past the limit's
    /// end. [`crate::laws::lemma_free_area_within_limit`] gives containment
    /// whenever every area ends inside the limit. When `None` comes back,
    /// no address at or above the scan start fits inside `limit`.
    pub fn find_free_area(&self, hint: usize, size: usize, limit: AddrRange) -> (r: Option<
        usize,
    >)
        requires
            self.inv(),
        ensures
            r matches Some(x) ==> x >= hint && x >= limit.start && x + size <= usize::MAX
                && self.range_free(x as int, x + size) && (x + size <= limit.end || exists|i: int|
                0 <= i < self.areas_seq().len() && (#[trigger] self.areas_seq()[i]).spec_start()
                    >= x + size),
            r matches Some(x) ==> forall|y: usize|
                y >= hint && y >= limit.start && y < x ==> !(#[trigger] self.range_free(
                    y as int,
                    y + size,
                )),
            r is None ==> forall|y: usize|
                y >= hint && y >= limit.start && y + size <= limit.end ==> !(#[trigger] self.range_free(
                    y as int,
                    y + size,
                )),
    {
        let mut last_end: usize = if hint > limit.start {
            hint
        } else {
            limit.start
        };
        let ghost scan0 = last_end;
        // skip over the area containing or preceding the scan start
        let idx0 = self.area_lower_bound(last_end);
        if idx0 > 0 {
            let pred_end = self.areas[idx0 - 1].end();
            if pred_end > last_end {
                last_end = pred_end;
            }
        }
        let mut idx = idx0;
        while idx < self.areas.len()
            invariant
                self.inv(),
                idx <= self.areas_seq().len(),
                last_end >= scan0,
                scan0 >= hint && scan0 >= limit.start,
                scan0 <= hint || scan0 <= limit.start,
                forall|j: int|
                    0 <= j < idx ==> (#[trigger] self.areas_seq()[j]).spec_end() <= last_end,
                forall|j: int|
                    idx <= j < self.areas_seq().len() ==> (#[trigger] self.areas_seq()[j]).spec_start()
                        >= last_end,
                forall|y: usize|
                    scan0 <= y < last_end ==> !(#[trigger] self.range_free(y as int, y + size)),
            decreases self.areas_seq().len() - idx,
        {
            let a_start = self.areas[idx].start();
            match last_end.checked_add(size) {
                Some(e) if e <= a_start => {
                    assert forall|i: int|
                        0 <= i < self.areas_seq().len() implies !((#[trigger] self.areas_seq()[i]).spec_start()
                        < last_end + size && last_end < self.areas_seq()[i].spec_end()) by {
                        if i >= idx {
                            assert(self.areas_seq()[idx as int].spec_end()
                                <= self.areas_seq()[i].spec_start() || i == idx);
                        }
                    }
                    return Some(last_end);
                },
                _ => {},
            }
            let a_end = self.areas[idx].end();
            let ghost le0 = last_end;
            if a_end > last_end {
                last_end = a_end;
            }
            proof {
                assert forall|y: usize| scan0 <= y < last_end implies !(#[trigger] self.range_free(
                    y as int,
                    y + size,
                )) by {
                    if y >= le0 {
                        assert(self.areas_seq()[idx as int].spec_start() < y + size);
                        assert(y < self.areas_seq()[idx as int].spec_end());
                    }
                }
            }
            idx += 1;
        }
        match last_end.checked_add(size) {
            Some(e) if e <= limit.end => {
                proof {
                    assert forall|i: int|
                        0 <= i < self.areas_seq().len() implies !((#[trigger] self.areas_seq()[
                        i]).spec_start() < last_end + size && last_end
                        < self.areas_seq()[i].spec_end()) by {
                        assert(self.areas_seq()[i].spec_end() <= last_end);
                    }
                }
                Some(last_end)
            },
            _ => {
                proof {
                    assert forall|y: usize|
                        y >= hint && y >= limit.start && y + size <= limit.end implies !(#[trigger] self.range_free(
                        y as int,
                        y + size,
                    )) by {
                        if y >= last_end {
                            assert(y + size >= last_end + size);
                        }
                    }
                }
                None
            },
        }
    }

    /// Add a new memory area into the set without mapping it.
    ///
    /// Rejects an empty area with `InvalidParam`. If the area overlaps an
    /// existing one and `unmap_overlap` is false, returns `AlreadyExists`.
    /// When `unmap_overlap` is true the caller must already have unmapped
    /// the area's range, so that no overlap remains.
    pub fn insert(&mut self, area: MemoryArea<B>, unmap_overlap: bool) -> (r: MappingResult)
        requires
            old(self).inv(),
            area.wf(),
            unmap_overlap ==> !old(self).overlaps_spec(area.spec_va_range()),
        ensures
            final(self).inv(),
            area.spec_va_range().spec_is_empty() ==> r == Err::<(), MappingError>(
                MappingError::InvalidParam,
            ) && *final(self) == *old(self),
            !area.spec_va_range().spec_is_empty() && old(self).overlaps_spec(
                area.spec_va_range(),
            ) ==> r == Err::<(), MappingError>(MappingError::AlreadyExists) && *final(self)
                == *old(self),
            !area.spec_va_range().spec_is_empty() && !old(self).overlaps_spec(
                area.spec_va_range(),
            ) ==> r is Ok && is_insert_of(final(self).areas_seq(), old(self).areas_seq(), area),
    {
        if area.va_range().is_empty() {
            return Err(MappingError::InvalidParam);
        }
        if self.overlaps(area.va_range()) && !unmap_overlap {
            return Err(MappingError::AlreadyExists);
        }
        let idx = self.area_lower_bound(area.start());
        let ghost areas0 = self.areas@;
        self.areas.insert(idx, area);
        proof {
            assert(self.areas@ == areas0.insert(idx as int, area));
            lemma_areas_inv_insert(areas0, idx as int, area);
        }
        Ok(())
    }

    /// Removes the area whose start address is exactly `vaddr`, if there is
    /// one, without unmapping it. The removed area is dropped, releasing the
    /// frame references it held.
    pub fn delete(&mut self, vaddr: usize)
        requires
            old(self).inv(),
        ensures
            final(self).inv(),
            (exists|i: int|
                0 <= i < old(self).areas_seq().len() && (#[trigger] old(self).areas_seq()[i]).spec_start() == vaddr) ==> exists|i: int|
                0 <= i < old(self).areas_seq().len() && (#[trigger] old(self).areas_seq()[i]).spec_start() == vaddr && final(self).areas_seq() == old(self).areas_seq().remove(i),
            !(exists|i: int|
                0 <= i < old(self).areas_seq().len() && (#[trigger] old(self).areas_seq()[i]).spec_start() == vaddr) ==> *final(self) == *old(self),
    {
        let idx = self.area_lower_bound(vaddr);
        if idx < self.areas.len() && self.areas[idx].start() == vaddr {
            let ghost areas0 = self.areas@;
            self.areas.remove(idx);
            proof {
                assert(self.areas@ == areas0.remove(idx as int));
                assert forall|i: int, j: int|
                    0 <= i < j < self.areas@.len() implies (#[trigger] self.areas@[i]).spec_end()
                    <= (#[trigger] self.areas@[j]).spec_start() by {
                    let oi: int = if i < idx { i } else { i + 1 };
                    let oj: int = if j < idx { j } else { j + 1 };
                    assert(self.areas@[i] == areas0[oi] && self.areas@[j] == areas0[oj]);
                }
            }
        } else {
            proof {
                if exists|i: int|
                    0 <= i < self.areas@.len() && (#[trigger] self.areas@[i]).spec_start()
                        == vaddr {
                    let i = choose|i: int|
                        0 <= i < self.areas@.len() && (#[trigger] self.areas@[i]).spec_start()
                            == vaddr;
                    if i < idx {
                        assert(self.areas@[i].spec_start() < vaddr);
                    } else {
                        assert(self.areas@[i].spec_start() >= vaddr);
                        assert(i != idx || self.areas@.len() == idx);
                        if i > idx && idx < self.areas@.len() {
                            assert(self.areas@[idx as int].spec_end()
                                <= self.areas@[i].spec_start());
                        }
                    }
                }
            }
        }
    }

    /// Removes the memory mappings within the address range
    /// `[start, start + size)`.
    ///
    /// Areas fully inside the range are unmapped and removed. An area that
    /// crosses the left boundary is shrunk on the right; one spanning the
    /// whole range is split, keeping its parts below `start` and at or
    /// above the range end. An area that crosses the right boundary is
    /// shrunk on the left. A backend failure surfaces as `BadState` and may
    /// leave earlier phases committed.
    pub fn unmap(&mut self, start: usize, size: usize, page_table: &mut B::PageTable) -> (r:
        MappingResult)
        requires
            old(self).inv(),
        ensures
            final(self).inv(),
            start + size > usize::MAX ==> r == Err::<(), MappingError>(MappingError::InvalidParam)
                && *final(self) == *old(self),
            size == 0 && start + size <= usize::MAX ==> r is Ok && *final(self) == *old(self),
            r is Err ==> r == Err::<(), MappingError>(MappingError::InvalidParam) || r == Err::<
                (),
                MappingError,
            >(MappingError::BadState),
            r == Err::<(), MappingError>(MappingError::InvalidParam) ==> start + size
                > usize::MAX,
            size > 0 && start + size <= usize::MAX && old(self).range_free(
                start as int,
                start + size,
            ) ==> r is Ok && final(self).areas_seq() == old(self).areas_seq(),
            r is Ok && size > 0 ==> unmap_post(
                old(self).areas_seq(),
                final(self).areas_seq(),
                start,
                size,
            ),
    {
        let range = match AddrRange::try_from_start_size(start, size) {
            Some(g) => g,
            None => {
                return Err(MappingError::InvalidParam);
            },
        };
        if range.is_empty() {
            return Ok(());
        }
        let end = range.end;
        let ghost s0 = self.areas@;

        // Phase 1: remove and unmap the areas fully contained in the range.
        let mut i: usize = 0;
        while i < self.areas.len()
            invariant
                areas_inv(self.areas@),
                areas_inv(s0),
                s0 == old(self).areas_seq(),
                i <= self.areas@.len(),
                range.start == start && range.end == end,
                end == start + size,
                start < end,
                forall|k: int|
                    0 <= k < i ==> !(#[trigger] self.areas@[k]).spec_va_range().spec_contained_in(
                        range,
                    ),
                forall|k: int|
                    0 <= k < self.areas@.len() ==> s0.contains(#[trigger] self.areas@[k]),
                forall|j: int|
                    0 <= j < s0.len() && ((#[trigger] s0[j]).spec_end() <= start
                        || s0[j].spec_start() >= end) ==> self.areas@.contains(s0[j]),
                forall|addr: usize|
                    #[trigger] seq_covers(s0, addr) && !(start <= addr < end) ==> seq_covers(
                        self.areas@,
                        addr,
                    ),
                old(self).range_free(start as int, start + size) ==> self.areas@ == s0,
            decreases self.areas@.len() - i,
        {
            if self.areas[i].va_range().contained_in(range) {
                let ghost pre = self.areas@;
                proof {
                    if old(self).range_free(start as int, start + size) {
                        assert(old(self).areas_seq()[i as int] == pre[i as int]);
                        assert(false);
                    }
                }
                let mut area = self.areas.remove(i);
                proof {
                    lemma_areas_inv_remove(pre, i as int);
                    assert forall|k: int|
                        0 <= k < self.areas@.len() implies s0.contains(
                        #[trigger] self.areas@[k],
                    ) by {
                        let ok: int = if k < i {
                            k
                        } else {
                            k + 1
                        };
                        assert(self.areas@[k] == pre[ok]);
                    }
                    assert forall|j: int|
                        0 <= j < s0.len() && ((#[trigger] s0[j]).spec_end() <= start
                            || s0[j].spec_start() >= end) implies self.areas@.contains(s0[j]) by {
                        let k = choose|k: int| 0 <= k < pre.len() && pre[k] == s0[j];
                        if k == i {
                            assert(pre[k].spec_va_range().spec_contained_in(range));
                            assert(s0[j].spec_start() >= start && s0[j].spec_end() <= end);
                            assert(s0[j].spec_start() < s0[j].spec_end());
                            assert(false);
                        } else {
                            let nk: int = if k < i {
                                k
                            } else {
                                k - 1
                            };
                            assert(self.areas@[nk] == pre[k]);
                        }
                    }
                    assert forall|addr: usize|
                        #[trigger] seq_covers(s0, addr) && !(start <= addr < end) implies seq_covers(
                        self.areas@,
                        addr,
                    ) by {
                        assert(seq_covers(pre, addr));
                        let k = choose|k: int|
                            0 <= k < pre.len() && (#[trigger] pre[k]).spec_start() <= addr
                                < pre[k].spec_end();
                        if k == i {
                            assert(pre[k].spec_va_range().spec_contained_in(range));
                            assert(false);
                        } else {
                            let nk: int = if k < i {
                                k
                            } else {
                                k - 1
                            };
                            assert(self.areas@[nk].spec_start() <= addr
                                < self.areas@[nk].spec_end());
                        }
                    }
                }
                let res = area.unmap_area(page_table);
                if res.is_err() {
                    return Err(MappingError::BadState);
                }
                // the removed area is dropped here, releasing its frames
            } else {
                i += 1;
            }
        }
        let ghost s1 = self.areas@;

        // After removing the contained areas, every remaining area misses
        // the range entirely or crosses exactly one of its boundaries.
        proof {
            assert(areas_inv(s1));
            assert(forall|k: int|
                0 <= k < s1.len() ==> !(#[trigger] s1[k]).spec_va_range().spec_contained_in(
                    range,
                ));
        }

        // Phase 2: the area crossing the left boundary, if any.
        let idx = self.area_lower_bound(start);
        if idx > 0 && self.areas[idx - 1].end() > start {
            let pred_idx = idx - 1;
            proof {
                if old(self).range_free(start as int, start + size) {
                    assert(old(self).areas_seq()[pred_idx as int] == s1[pred_idx as int]);
                    assert(false);
                }
            }
            let before_start = self.areas[pred_idx].start();
            let before_end = self.areas[pred_idx].end();
            let ghost pred0 = self.areas@[pred_idx as int];
            if before_end <= end {
                // the unmapped range covers the tail of this area
                let area_ref = &mut self.areas[pred_idx];
                let res = area_ref.shrink_right(start - before_start, page_table);
                if res.is_err() {
                    proof {
                        assert(self.areas@ =~= s1);
                    }
                    return Err(MappingError::BadState);
                }
                proof {
                    let np = self.areas@[pred_idx as int];
                    lemma_areas_inv_update(s1, pred_idx as int, np);
                    assert(trimmed_left(np, pred0, start));
                    lemma_unmap_left_leaf(s0, s1, self.areas@, pred_idx as int, pred0, np, start, size);
                }
            } else {
                // the area spans the whole range: split off the right
                // remnant at the range end, then trim the tail
                let area_ref = &mut self.areas[pred_idx];
                let right_opt = area_ref.split(end);
                let right_part = right_opt.unwrap();
                let res = area_ref.shrink_right(start - before_start, page_table);
                if res.is_err() {
                    proof {
                        lemma_areas_inv_update(s1, pred_idx as int, self.areas@[pred_idx as int]);
                    }
                    // the right remnant is dropped, releasing its frames
                    return Err(MappingError::BadState);
                }
                proof {
                    let np = self.areas@[pred_idx as int];
                    lemma_areas_inv_update(s1, pred_idx as int, np);
                    assert(trimmed_left(np, pred0, start));
                    assert(trimmed_right(right_part, pred0, end));
                }
                let ghost s2m = self.areas@;
                self.areas.insert(pred_idx + 1, right_part);
                proof {
                    let np = s2m[pred_idx as int];
                    assert(self.areas@ == s2m.insert(pred_idx + 1, right_part));
                    assert forall|k: int|
                        0 <= k < s2m.len() implies !(#[trigger] s2m[k]).spec_va_range(
                    ).spec_overlaps(right_part.spec_va_range()) by {
                        if k < pred_idx {
                            assert(s1[k].spec_end() <= s1[pred_idx as int].spec_start());
                            assert(s2m[k] == s1[k]);
                        } else if k > pred_idx {
                            assert(s1[pred_idx as int].spec_end() <= s1[k].spec_start());
                            assert(s2m[k] == s1[k]);
                        }
                    }
                    assert forall|k: int|
                        pred_idx + 1 <= k < s2m.len() implies (#[trigger] s2m[k]).spec_start()
                        >= right_part.spec_start() by {
                        assert(s1[pred_idx as int].spec_end() <= s1[k].spec_start());
                        assert(s2m[k] == s1[k]);
                    }
                    assert forall|k: int|
                        0 <= k < pred_idx + 1 implies (#[trigger] s2m[k]).spec_start()
                        < right_part.spec_start() by {
                        if k < pred_idx {
                            assert(s2m[k] == s1[k]);
                            assert(s1[k].spec_end() <= s1[pred_idx as int].spec_start());
                        }
                    }
                    lemma_areas_inv_insert(s2m, pred_idx + 1, right_part);
                    lemma_unmap_straddle_leaf(
                        s0,
                        s1,
                        self.areas@,
                        pred_idx as int,
                        pred0,
                        np,
                        right_part,
                        start,
                        size,
                    );
                }
            }
        } else {
            proof {
                lemma_unmap_no_left_leaf(s0, s1, idx as int, start, size);
            }
        }
        let ghost s2 = self.areas@;
        proof {
            assert(areas_inv(s2));
            assert(unmap_mid(s0, s2, start, size));
        }

        // Phase 3: the area crossing the right boundary, if any.
        let idx3 = self.area_lower_bound(start);
        if idx3 < self.areas.len() && self.areas[idx3].start() < end {
            let ghost succ0 = self.areas@[idx3 as int];
            proof {
                if old(self).range_free(start as int, start + size) {
                    assert(old(self).areas_seq()[idx3 as int] == s2[idx3 as int]);
                    assert(false);
                }
            }
            let a_start = self.areas[idx3].start();
            proof {
                assert(start <= succ0.spec_start() < end);
                assert(succ0.spec_end() > end);
            }
            let a_end = self.areas[idx3].end();
            let area_ref = &mut self.areas[idx3];
            let res = area_ref.shrink_left(a_end - end, page_table);
            if res.is_err() {
                proof {
                    assert(self.areas@ =~= s2);
                }
                return Err(MappingError::BadState);
            }
            proof {
                let ns = self.areas@[idx3 as int];
                lemma_areas_inv_update(s2, idx3 as int, ns);
                assert(trimmed_right(ns, succ0, end));
                lemma_unmap_right_leaf(s0, s2, self.areas@, idx3 as int, succ0, ns, start, size);
            }
        } else {
            proof {
                lemma_unmap_no_right_leaf(s0, s2, idx3 as int, start, size);
            }
        }
        proof {
            if old(self).range_free(start as int, start + size) {
                assert(self.areas_seq() == old(self).areas_seq());
            }
        }
        Ok(())
    }

    /// Adds a new memory mapping: maps the area through its backend and
    /// inserts it into the set.
    ///
    /// Rejects an empty area with `InvalidParam`. If the area overlaps an
    /// existing one, the overlapped range is first unmapped when
    /// `unmap_overlap` is true, and `AlreadyExists` comes back otherwise.
    /// The backend maps the whole area with `overwrite_flags` if given, the
    /// area's own flags otherwise; a backend failure surfaces as `BadState`.
    pub fn map(
        &mut self,
        area: MemoryArea<B>,
        page_table: &mut B::PageTable,
        unmap_overlap: bool,
        overwrite_flags: Option<B::Flags>,
    ) -> (r: MappingResult)
        requires
            old(self).inv(),
            area.wf(),
        ensures
            final(self).inv(),
            area.spec_va_range().spec_is_empty() ==> r == Err::<(), MappingError>(
                MappingError::InvalidParam,
            ) && *final(self) == *old(self),
            !area.spec_va_range().spec_is_empty() && old(self).overlaps_spec(
                area.spec_va_range(),
            ) && !unmap_overlap ==> r == Err::<(), MappingError>(MappingError::AlreadyExists)
                && *final(self) == *old(self),
            r == Err::<(), MappingError>(MappingError::InvalidParam) ==> area.spec_va_range(
            ).spec_is_empty(),
            r == Err::<(), MappingError>(MappingError::AlreadyExists)
                ==> !area.spec_va_range().spec_is_empty() && old(self).overlaps_spec(
                area.spec_va_range(),
            ) && !unmap_overlap,
            r is Ok ==> map_ok_post(old(self).areas_seq(), final(self).areas_seq(), area),
            r is Ok ==> exists|k: int|
                0 <= k < final(self).areas_seq().len() && (#[trigger] final(self).areas_seq()[k]).spec_va_range() == area.spec_va_range() && final(self).areas_seq()[k].spec_flags() == area.spec_flags() && final(self).areas_seq()[k].spec_backend() == area.spec_backend(),
            r is Ok && !old(self).overlaps_spec(area.spec_va_range()) ==> exists|
                a2: MemoryArea<B>,
            |
                a2.spec_va_range() == area.spec_va_range() && a2.spec_flags()
                    == area.spec_flags() && a2.spec_backend() == area.spec_backend() && (forall|
                    va: usize,
                |
                    #[trigger] area.has_frame(va) ==> a2.has_frame(va)) && #[trigger] is_insert_of(
                    final(self).areas_seq(),
                    old(self).areas_seq(),
                    a2,
                ),
    {
        if area.va_range().is_empty() {
            return Err(MappingError::InvalidParam);
        }
        let ghost area0 = area;
        let mut area = area;
        if self.overlaps(area.va_range()) {
            if !unmap_overlap {
                return Err(MappingError::AlreadyExists);
            }
            let res = self.unmap(area.start(), area.size(), page_table);
            match res {
                Err(e) => {
                    return Err(e);
                },
                Ok(()) => {},
            }
        }
        let ghost smid = self.areas@;
        proof {
            assert forall|i: int|
                0 <= i < smid.len() implies !(#[trigger] smid[i]).spec_va_range().spec_overlaps(
                area.spec_va_range(),
            ) by {
                assert(!(smid[i].spec_start() < area.spec_start() + (area.spec_end()
                    - area.spec_start()) && area.spec_start() < smid[i].spec_end()));
            }
        }
        let res2 = area.map_area(page_table, overwrite_flags);
        match res2 {
            Err(e) => {
                return Err(e);
            },
            Ok(()) => {},
        }
        let idx = self.area_lower_bound(area.start());
        self.areas.insert(idx, area);
        proof {
            assert(self.areas@ == smid.insert(idx as int, area));
            lemma_areas_inv_insert(smid, idx as int, area);
            assert(self.areas@[idx as int] == area);
            assert(area.same_shape(area0));
            assert((idx as int) < self.areas_seq().len() && (#[trigger] self.areas_seq()[
            idx as int]).spec_va_range() == area0.spec_va_range() && self.areas_seq()[
            idx as int].spec_flags() == area0.spec_flags() && self.areas_seq()[
            idx as int].spec_backend() == area0.spec_backend());
            assert(exists|k: int|
                0 <= k < self.areas_seq().len() && (#[trigger] self.areas_seq()[k]).spec_va_range()
                    == area0.spec_va_range() && self.areas_seq()[k].spec_flags()
                    == area0.spec_flags() && self.areas_seq()[k].spec_backend()
                    == area0.spec_backend());
            if !old(self).overlaps_spec(area0.spec_va_range()) {
                assert(smid == old(self).areas_seq());
                assert(is_insert_of(self.areas_seq(), old(self).areas_seq(), area));
                assert(forall|va: usize| #[trigger] area0.has_frame(va) ==> area.has_frame(va));
                assert(exists|a2: MemoryArea<B>|
                    a2.spec_va_range() == area0.spec_va_range() && a2.spec_flags()
                        == area0.spec_flags() && a2.spec_backend() == area0.spec_backend() && (
                    forall|va: usize| #[trigger] area0.has_frame(va) ==> a2.has_frame(va))
                        && #[trigger] is_insert_of(
                        self.areas_seq(),
                        old(self).areas_seq(),
                        a2,
                    ));
            }
            assert(map_ok_post(old(self).areas_seq(), self.areas_seq(), area0)) by {
                assert(self.areas_seq() == smid.insert(idx as int, area));
                assert(is_insert_of(self.areas_seq(), smid, area));
                assert(forall|va: usize| #[trigger] area0.has_frame(va) ==> area.has_frame(va));
                if old(self).overlaps_spec(area0.spec_va_range()) {
                    assert(unmap_post(
                        old(self).areas_seq(),
                        smid,
                        area0.spec_start(),
                        ((area0.spec_end() - area0.spec_start()) as usize),
                    ));
                } else {
                    assert(smid == old(self).areas_seq());
                }
            }
        }
        Ok(())
    }

    /// Removes all memory areas and their underlying mappings. On a backend
    /// failure the remaining areas stay in the set, though earlier ones have
    /// already been unmapped.
    pub fn clear(&mut self, page_table: &mut B::PageTable) -> (r: MappingResult)
        requires
            old(self).inv(),
        ensures
            final(self).inv(),
            r is Ok ==> final(self).areas_seq().len() == 0,
            r is Err ==> r == Err::<(), MappingError>(MappingError::BadState) && final(self).areas_seq().len() == old(self).areas_seq().len() && forall|i: int|
                0 <= i < old(self).areas_seq().len() ==> (#[trigger] final(self).areas_seq()[i]).same_shape(old(self).areas_seq()[i]),
            old(self).areas_seq().len() == 0 ==> r is Ok,
            r is Err ==> clear_partial(old(self).areas_seq(), final(self).areas_seq()),
    {
        let ghost s0 = self.areas@;
        let mut i: usize = 0;
        while i < self.areas.len()
            invariant
                areas_inv(self.areas@),
                i <= self.areas@.len(),
                s0 == old(self).areas_seq(),
                self.areas@.len() == s0.len(),
                forall|k: int|
                    0 <= k < s0.len() ==> (#[trigger] self.areas@[k]).same_shape(s0[k]),
                forall|m: int|
                    0 <= m < i ==> (#[trigger] self.areas@[m]).frames_seq().len() == 0,
                forall|m: int| i <= m < s0.len() ==> #[trigger] self.areas@[m] == s0[m],
            decreases self.areas@.len() - i,
        {
            let ghost pre = self.areas@;
            let area_ref = &mut self.areas[i];
            let res = area_ref.unmap_area(page_table);
            proof {
                lemma_areas_inv_update(pre, i as int, self.areas@[i as int]);
                assert forall|k: int|
                    0 <= k < s0.len() implies (#[trigger] self.areas_seq()[k]).same_shape(
                    s0[k],
                ) by {
                    if k != i {
                        assert(self.areas@[k] == pre[k]);
                    }
                    assert(self.areas_seq()[k] == self.areas@[k]);
                }
            }
            if res.is_err() {
                proof {
                    assert(self.areas@ =~= pre);
                    assert(clear_partial(s0, self.areas_seq())) by {
                        assert(0 <= i as int <= s0.len() && (forall|m: int|
                            0 <= m < i as int ==> (#[trigger] self.areas_seq()[m]).same_shape(
                                s0[m],
                            ) && self.areas_seq()[m].frames_seq().len() == 0) && (forall|m: int|
                            i as int <= m < s0.len() ==> #[trigger] self.areas_seq()[m]
                                == s0[m]));
                        assert(s0.subrange(0, i as int) == s0.subrange(0, i as int));
                    }
                }
                return Err(MappingError::BadState);
            }
            i += 1;
        }
        self.areas.clear();
        Ok(())
    }

    /// Looks up the frame held for the 4K-aligned address `vaddr` in the
    /// area containing it, and returns a clone of its reference.
    pub fn find_frame(&self, vaddr: usize) -> (r: Option<B::FrameTrackerRef>)
        requires
            self.inv(),
            spec_is_aligned_4k(vaddr),
        ensures
            r is Some <==> self.covers(vaddr) && self.area_at(vaddr).has_frame(vaddr),
            r matches Some(f) ==> vstd::pervasive::cloned::<B::FrameTrackerRef>(
                self.area_at(vaddr).frame_val(vaddr),
                f,
            ),
    {
        match self.find(vaddr) {
            Some(area) => area.find_frame(vaddr),
            None => None,
        }
    }

    /// Inserts a frame for the 4K-aligned address `vaddr` into the area
    /// containing it. Returns the previously held reference for that
    /// address; when no area contains `vaddr`, nothing is inserted and
    /// `None` comes back.
    pub fn insert_frame(&mut self, vaddr: usize, frame: B::FrameTrackerRef) -> (r: Option<
        B::FrameTrackerRef,
    >)
        requires
            old(self).inv(),
            spec_is_aligned_4k(vaddr),
        ensures
            final(self).inv(),
            !old(self).covers(vaddr) ==> *final(self) == *old(self) && r is None,
            old(self).covers(vaddr) ==> ({
                let i = old(self).covering_index(vaddr);
                let a0 = old(self).areas_seq()[i];
                let a1 = final(self).areas_seq()[i];
                &&& final(self).areas_seq() == old(self).areas_seq().update(i, a1)
                &&& a1.same_shape(a0)
                &&& a1.frame_val(vaddr) == frame
                &&& forall|va: usize| #![trigger a1.has_frame(va)]
                    a1.has_frame(va) <==> a0.has_frame(va) || va == vaddr
                &&& forall|va: usize| #![trigger a1.frame_val(va)]
                    va != vaddr && a0.has_frame(va) ==> a1.frame_val(va) == a0.frame_val(va)
                &&& a0.has_frame(vaddr) ==> r == Some(a0.frame_val(vaddr))
                &&& !a0.has_frame(vaddr) ==> r is None
            }),
    {
        let ghost s0 = self.areas@;
        let r = match self.find_mut(vaddr) {
            Some(area) => area.insert_frame(vaddr, frame),
            None => None,
        };
        proof {
            if old(self).covers(vaddr) {
                let i = old(self).covering_index(vaddr);
                lemma_areas_inv_update(s0, i, self.areas@[i]);
            }
        }
        r
    }

    /// Replaces the frame held for the 4K-aligned address `vaddr` with
    /// `new_frame`; the previously held reference is dropped. An area must
    /// contain `vaddr` and already hold a frame for it.
    pub fn remap_frame(&mut self, vaddr: usize, new_frame: B::FrameTrackerRef)
        requires
            old(self).inv(),
            spec_is_aligned_4k(vaddr),
            old(self).covers(vaddr),
            old(self).area_at(vaddr).has_frame(vaddr),
        ensures
            final(self).inv(),
            ({
                let i = old(self).covering_index(vaddr);
                let a0 = old(self).areas_seq()[i];
                let a1 = final(self).areas_seq()[i];
                &&& final(self).areas_seq() == old(self).areas_seq().update(i, a1)
                &&& a1.same_shape(a0)
                &&& a1.frame_val(vaddr) == new_frame
                &&& forall|va: usize| #![trigger a1.has_frame(va)]
                    a1.has_frame(va) <==> a0.has_frame(va)
                &&& forall|va: usize| #![trigger a1.frame_val(va)]
                    va != vaddr && a0.has_frame(va) ==> a1.frame_val(va) == a0.frame_val(va)
            }),
    {
        let r = self.insert_frame(vaddr, new_frame);
        proof {
            assert(r is Some);
        }
        // the previous reference is dropped here
    }

    /// Resizes the area whose start address is `area_addr` to the 4K-aligned
    /// bounds `[start, end)`, applying on each side the minimal extension or
    /// shrink that reaches the target. Extensions map the added part through
    /// the backend; the caller must keep the new bounds clear of the
    /// neighbouring areas. Rejects `start >= end` with `InvalidParam`; a
    /// backend failure surfaces as `BadState` and may leave only one side
    /// adjusted.
    #[verifier::rlimit(100)]
    #[verifier::spinoff_prover]
    pub fn adjust_area(
        &mut self,
        area_addr: usize,
        start: usize,
        end: usize,
        page_table: &mut B::PageTable,
    ) -> (r: MappingResult)
        requires
            old(self).inv(),
            spec_is_aligned_4k(start),
            spec_is_aligned_4k(end),
            exists|i: int|
                0 <= i < old(self).areas_seq().len() && (#[trigger] old(self).areas_seq()[i]).spec_start() == area_addr,
            start < end ==> forall|j: int|
                0 <= j < old(self).areas_seq().len() && (#[trigger] old(self).areas_seq()[j]).spec_start() != area_addr ==> (old(self).areas_seq()[j].spec_start() < area_addr ==> old(self).areas_seq()[j].spec_end()
                    <= start) && (old(self).areas_seq()[j].spec_start() > area_addr ==> old(self).areas_seq()[j].spec_start() >= end),
            start < end && start > area_addr ==> forall|j: int|
                0 <= j < old(self).areas_seq().len() && (#[trigger] old(self).areas_seq()[j]).spec_start() == area_addr ==> start < old(self).areas_seq()[j].spec_end(),
        ensures
            final(self).inv(),
            start >= end ==> r == Err::<(), MappingError>(MappingError::InvalidParam) && *final(self) == *old(self),
            r is Err ==> r == Err::<(), MappingError>(MappingError::InvalidParam) || r == Err::<
                (),
                MappingError,
            >(MappingError::BadState),
            r == Err::<(), MappingError>(MappingError::InvalidParam) ==> start >= end,
            start < end && old(self).areas_seq()[index_of_start(
                old(self).areas_seq(),
                area_addr,
            )].spec_start() == start && old(self).areas_seq()[index_of_start(
                old(self).areas_seq(),
                area_addr,
            )].spec_end() == end ==> r is Ok,
            r is Ok ==> ({
                let i = index_of_start(old(self).areas_seq(), area_addr);
                0 <= i < old(self).areas_seq().len() && old(self).areas_seq()[i].spec_start()
                    == area_addr
            }),
            r is Ok ==> final(self).areas_seq() == old(self).areas_seq().update(
                index_of_start(old(self).areas_seq(), area_addr),
                final(self).areas_seq()[index_of_start(old(self).areas_seq(), area_addr)],
            ),
            r is Ok ==> ({
                let a1 = final(self).areas_seq()[index_of_start(
                    old(self).areas_seq(),
                    area_addr,
                )];
                let a0 = old(self).areas_seq()[index_of_start(old(self).areas_seq(), area_addr)];
                a1.spec_start() == start && a1.spec_end() == end && a1.spec_flags()
                    == a0.spec_flags() && a1.spec_backend() == a0.spec_backend()
            }),
            r is Ok ==> frames_kept_in(
                old(self).areas_seq()[index_of_start(old(self).areas_seq(), area_addr)],
                final(self).areas_seq()[index_of_start(old(self).areas_seq(), area_addr)],
                start,
                end,
            ),
    {
        let idx = self.area_lower_bound(area_addr);
        proof {
            let i = choose|i: int|
                0 <= i < self.areas@.len() && (#[trigger] self.areas@[i]).spec_start()
                    == area_addr;
            if i > idx {
                assert(self.areas@[idx as int].spec_end() <= self.areas@[i].spec_start());
            }
            assert(i == idx);
            let c = index_of_start(self.areas_seq(), area_addr);
            if c > idx {
                assert(self.areas@[idx as int].spec_end() <= self.areas@[c].spec_start());
            }
            assert(c == idx);
        }
        if start >= end {
            return Err(MappingError::InvalidParam);
        }
        let current_start = self.areas[idx].start();
        let current_end = self.areas[idx].end();
        let ghost s0 = self.areas@;
        if start != current_start {
            if start < current_start {
                let area_ref = &mut self.areas[idx];
                let res = area_ref.extend_left(current_end - start, page_table);
                proof {
                    self.lemma_adjust_inv(s0, idx as int, area_addr, start, end);
                }
                if res.is_err() {
                    return Err(MappingError::BadState);
                }
            } else {
                let area_ref = &mut self.areas[idx];
                let res = area_ref.shrink_left(current_end - start, page_table);
                proof {
                    self.lemma_adjust_inv(s0, idx as int, area_addr, start, end);
                }
                if res.is_err() {
                    return Err(MappingError::BadState);
                }
            }
        }
        let ghost s1 = self.areas@;
        if end != current_end {
            if end > current_end {
                let area_ref = &mut self.areas[idx];
                let res = area_ref.extend_right(end - start, page_table);
                proof {
                    self.lemma_adjust_inv(s1, idx as int, area_addr, start, end);
                }
                if res.is_err() {
                    return Err(MappingError::BadState);
                }
            } else {
                let area_ref = &mut self.areas[idx];
                let res = area_ref.shrink_right(end - start, page_table);
                proof {
                    self.lemma_adjust_inv(s1, idx as int, area_addr, start, end);
                }
                if res.is_err() {
                    return Err(MappingError::BadState);
                }
            }
        }
        proof {
            let ii = index_of_start(old(self).areas_seq(), area_addr);
            assert(ii == idx);
            let a0 = old(self).areas_seq()[ii];
            let a1 = self.areas_seq()[ii];
            assert(old(self).areas_seq()[ii].spec_start() == area_addr);
            assert(self.areas_seq() =~= old(self).areas_seq().update(ii, a1));
            assert(self.areas_seq() == old(self).areas_seq().update(ii, a1));
            assert(a1.spec_start() == start && a1.spec_end() == end);
            assert(a1.spec_flags() == a0.spec_flags() && a1.spec_backend() == a0.spec_backend());
            assert(frames_kept_in(a0, a1, start, end)) by {
                assert forall|va: usize| #![trigger a1.has_frame(va)]
                    a0.has_frame(va) && start <= va < end implies a1.has_frame(va)
                    && a1.frame_val(va) == a0.frame_val(va) by {
                    assert(s1[idx as int].has_frame(va) && s1[idx as int].frame_val(va)
                        == a0.frame_val(va));
                }
            }
        }
        Ok(())
    }

    /// After one side of the area at `idx` has been moved towards the
    /// target bounds `[start, end)`, the set invariant still holds: the
    /// caller keeps those bounds clear of the neighbouring areas.
    proof fn lemma_adjust_inv(
        self,
        pre: Seq<MemoryArea<B>>,
        idx: int,
        area_addr: usize,
        start: usize,
        end: usize,
    )
        requires
            areas_inv(pre),
            0 <= idx < pre.len(),
            pre[idx].spec_start() == area_addr || pre[idx].spec_start() == start,
            start < end,
            self.areas_seq().len() == pre.len(),
            forall|m: int| 0 <= m < pre.len() && m != idx ==> self.areas_seq()[m] == pre[m],
            self.areas_seq()[idx].wf(),
            self.areas_seq()[idx].spec_start() < self.areas_seq()[idx].spec_end(),
            self.areas_seq()[idx].spec_start() >= start || self.areas_seq()[idx].spec_start()
                >= pre[idx].spec_start(),
            self.areas_seq()[idx].spec_start() == start || self.areas_seq()[idx].spec_start()
                == pre[idx].spec_start(),
            self.areas_seq()[idx].spec_end() <= end || self.areas_seq()[idx].spec_end()
                <= pre[idx].spec_end(),
            forall|j: int|
                0 <= j < pre.len() && (#[trigger] pre[j]).spec_start() != pre[idx].spec_start()
                    ==> (pre[j].spec_start() < pre[idx].spec_start() ==> pre[j].spec_end()
                    <= start) && (pre[j].spec_start() > pre[idx].spec_start() ==> pre[j].spec_start()
                    >= end),
        ensures
            self.inv(),
    {
        let cur = self.areas_seq();
        assert forall|m: int|
            0 <= m < cur.len() implies (#[trigger] cur[m]).wf() && cur[m].spec_start()
            < cur[m].spec_end() by {
            if m != idx {
                assert(cur[m] == pre[m]);
            }
        }
        assert forall|x: int, y: int| 0 <= x < y < cur.len() implies (#[trigger] cur[x]).spec_end()
            <= (#[trigger] cur[y]).spec_start() by {
            if x == idx {
                assert(pre[y].spec_start() > pre[idx].spec_start());
                assert(pre[y].spec_start() >= end);
                assert(cur[x].spec_end() <= end || cur[x].spec_end() <= pre[idx].spec_end());
                assert(pre[idx].spec_end() <= pre[y].spec_start());
            } else if y == idx {
                assert(pre[x].spec_end() <= pre[idx].spec_start() );
                assert(pre[x].spec_start() < pre[idx].spec_start());
                assert(pre[x].spec_end() <= start);
            } else {
                assert(cur[x] == pre[x] && cur[y] == pre[y]);
            }
        }
    }

    /// Re-protects the whole area at position `i`, which lies inside the
    /// protected range, and stores the new flags on it.
    fn protect_whole(
        &mut self,
        i: usize,
        start: usize,
        size: usize,
        new_flags: B::Flags,
        page_table: &mut B::PageTable,
    ) -> (r: MappingResult)
        requires
            old(self).inv(),
            i < old(self).areas_seq().len(),
            start + size <= usize::MAX,
            start <= old(self).areas_seq()[i as int].spec_start(),
            old(self).areas_seq()[i as int].spec_end() <= start + size,
        ensures
            final(self).inv(),
            r is Err ==> r == Err::<(), MappingError>(MappingError::BadState),
            r is Ok ==> final(self).areas_seq().len() == old(self).areas_seq().len(),
            r is Ok ==> forall|m: int|
                0 <= m < old(self).areas_seq().len() && m != i ==> final(self).areas_seq()[m]
                    == old(self).areas_seq()[m],
            r is Ok ==> ({
                let orig = old(self).areas_seq()[i as int];
                let np = final(self).areas_seq()[i as int];
                &&& np.spec_va_range() == orig.spec_va_range()
                &&& np.spec_flags() == new_flags
                &&& forall|va: usize| #![trigger np.has_frame(va)]
                    np.has_frame(va) <==> orig.has_frame(va)
                &&& forall|va: usize| #![trigger np.frame_val(va)]
                    orig.has_frame(va) ==> np.frame_val(va) == orig.frame_val(va)
            }),
    {
        let ghost pre = self.areas@;
        let area_ref = &mut self.areas[i];
        let res = area_ref.protect_area(new_flags, page_table);
        if res.is_err() {
            proof {
                assert(self.areas@ =~= pre);
            }
            return Err(MappingError::BadState);
        }
        area_ref.set_flags(new_flags);
        proof {
            lemma_areas_inv_update(pre, i as int, self.areas@[i as int]);
        }
        Ok(())
    }

    /// Splits the area at position `i` at the end of the protected range,
    /// re-protects its part inside the range with the new flags, and stores
    /// the right remnant after it. The area starts inside the range and
    /// reaches beyond its end.
    fn protect_split_right(
        &mut self,
        i: usize,
        start: usize,
        size: usize,
        new_flags: B::Flags,
        page_table: &mut B::PageTable,
    ) -> (r: MappingResult)
        requires
            old(self).inv(),
            i < old(self).areas_seq().len(),
            start + size <= usize::MAX,
            start <= old(self).areas_seq()[i as int].spec_start() < start + size,
            old(self).areas_seq()[i as int].spec_end() > start + size,
        ensures
            final(self).inv(),
            r is Err ==> r == Err::<(), MappingError>(MappingError::BadState),
            r is Ok ==> final(self).areas_seq().len() == old(self).areas_seq().len() + 1,
            r is Ok ==> forall|m: int|
                0 <= m < i ==> final(self).areas_seq()[m] == old(self).areas_seq()[m],
            r is Ok ==> forall|m: int|
                i + 2 <= m < final(self).areas_seq().len() ==> final(self).areas_seq()[m] == old(self).areas_seq()[m - 1],
            r is Ok ==> ({
                let orig = old(self).areas_seq()[i as int];
                let np = final(self).areas_seq()[i as int];
                let rp = final(self).areas_seq()[i + 1];
                let cut = ((start + size) as usize);
                &&& np.spec_start() == orig.spec_start() && np.spec_end() == cut
                    && np.spec_flags() == new_flags
                &&& rp.spec_start() == cut && rp.spec_end() == orig.spec_end() && rp.spec_flags()
                    == orig.spec_flags()
                &&& forall|va: usize| #![trigger np.has_frame(va)]
                    np.has_frame(va) <==> orig.has_frame(va) && va < cut
                &&& forall|va: usize| #![trigger np.frame_val(va)]
                    orig.has_frame(va) && va < cut ==> np.frame_val(va) == orig.frame_val(va)
                &&& forall|va: usize| #![trigger rp.has_frame(va)]
                    rp.has_frame(va) <==> orig.has_frame(va) && va >= cut
                &&& forall|va: usize| #![trigger rp.frame_val(va)]
                    orig.has_frame(va) && va >= cut ==> rp.frame_val(va) == orig.frame_val(va)
            }),
    {
        let ghost pre = self.areas@;
        let n0 = self.areas.len();
        proof {
            assert(i < n0);
        }
        let ghost orig = self.areas@[i as int];
        let end = start + size;
        let area_ref = &mut self.areas[i];
        let right_opt = area_ref.split(end);
        let right_part = right_opt.unwrap();
        let res = area_ref.protect_area(new_flags, page_table);
        if res.is_err() {
            proof {
                lemma_areas_inv_update(pre, i as int, self.areas@[i as int]);
            }
            return Err(MappingError::BadState);
        }
        area_ref.set_flags(new_flags);
        proof {
            lemma_areas_inv_update(pre, i as int, self.areas@[i as int]);
        }
        let ghost mid1 = self.areas@;
        let ghost rp = right_part;
        self.areas.insert(i + 1, right_part);
        proof {
            assert forall|k: int|
                0 <= k < mid1.len() implies !(#[trigger] mid1[k]).spec_va_range().spec_overlaps(
                rp.spec_va_range(),
            ) && (k <= i ==> mid1[k].spec_start() < rp.spec_start()) && (k > i
                ==> mid1[k].spec_start() >= rp.spec_start()) by {
                if k < i {
                    assert(mid1[k] == pre[k]);
                    assert(pre[k].spec_end() <= pre[i as int].spec_start());
                } else if k > i {
                    assert(mid1[k] == pre[k]);
                    assert(pre[i as int].spec_end() <= pre[k].spec_start());
                }
            }
            lemma_areas_inv_insert(mid1, i + 1, rp);
        }
        Ok(())
    }

    /// Splits the area at position `i` at the start of the protected range,
    /// re-protects the split-off part inside the range with the new flags,
    /// and stores it after the kept head. The area starts before the range
    /// and ends inside it.
    fn protect_split_left(
        &mut self,
        i: usize,
        start: usize,
        size: usize,
        new_flags: B::Flags,
        page_table: &mut B::PageTable,
    ) -> (r: MappingResult)
        requires
            old(self).inv(),
            i < old(self).areas_seq().len(),
            start + size <= usize::MAX,
            old(self).areas_seq()[i as int].spec_start() < start,
            start < old(self).areas_seq()[i as int].spec_end() <= start + size,
        ensures
            final(self).inv(),
            r is Err ==> r == Err::<(), MappingError>(MappingError::BadState),
            r is Ok ==> final(self).areas_seq().len() == old(self).areas_seq().len() + 1,
            r is Ok ==> forall|m: int|
                0 <= m < i ==> final(self).areas_seq()[m] == old(self).areas_seq()[m],
            r is Ok ==> forall|m: int|
                i + 2 <= m < final(self).areas_seq().len() ==> final(self).areas_seq()[m] == old(self).areas_seq()[m - 1],
            r is Ok ==> ({
                let orig = old(self).areas_seq()[i as int];
                let np = final(self).areas_seq()[i as int];
                let rp = final(self).areas_seq()[i + 1];
                &&& np.spec_start() == orig.spec_start() && np.spec_end() == start
                    && np.spec_flags() == orig.spec_flags()
                &&& rp.spec_start() == start && rp.spec_end() == orig.spec_end()
                    && rp.spec_flags() == new_flags
                &&& forall|va: usize| #![trigger np.has_frame(va)]
                    np.has_frame(va) <==> orig.has_frame(va) && va < start
                &&& forall|va: usize| #![trigger np.frame_val(va)]
                    orig.has_frame(va) && va < start ==> np.frame_val(va) == orig.frame_val(va)
                &&& forall|va: usize| #![trigger rp.has_frame(va)]
                    rp.has_frame(va) <==> orig.has_frame(va) && va >= start
                &&& forall|va: usize| #![trigger rp.frame_val(va)]
                    orig.has_frame(va) && va >= start ==> rp.frame_val(va) == orig.frame_val(va)
            }),
    {
        let ghost pre = self.areas@;
        let n0 = self.areas.len();
        proof {
            assert(i < n0);
        }
        let area_ref = &mut self.areas[i];
        let right_opt = area_ref.split(start);
        let mut right_part = right_opt.unwrap();
        let res = right_part.protect_area(new_flags, page_table);
        if res.is_err() {
            proof {
                lemma_areas_inv_update(pre, i as int, self.areas@[i as int]);
            }
            return Err(MappingError::BadState);
        }
        right_part.set_flags(new_flags);
        proof {
            lemma_areas_inv_update(pre, i as int, self.areas@[i as int]);
        }
        let ghost mid1 = self.areas@;
        let ghost rp = right_part;
        self.areas.insert(i + 1, right_part);
        proof {
            assert forall|k: int|
                0 <= k < mid1.len() implies !(#[trigger] mid1[k]).spec_va_range().spec_overlaps(
                rp.spec_va_range(),
            ) && (k <= i ==> mid1[k].spec_start() < rp.spec_start()) && (k > i
                ==> mid1[k].spec_start() >= rp.spec_start()) by {
                if k < i {
                    assert(mid1[k] == pre[k]);
                    assert(pre[k].spec_end() <= pre[i as int].spec_start());
                } else if k > i {
                    assert(mid1[k] == pre[k]);
                    assert(pre[i as int].spec_end() <= pre[k].spec_start());
                }
            }
            lemma_areas_inv_insert(mid1, i + 1, rp);
        }
        Ok(())
    }

    /// Splits the area at position `i` at both boundaries of the protected
    /// range, re-protects the middle part with the new flags, and stores
    /// the middle and right parts after the kept head. The area strictly
    /// contains the range.
    fn protect_split_three(
        &mut self,
        i: usize,
        start: usize,
        size: usize,
        new_flags: B::Flags,
        page_table: &mut B::PageTable,
    ) -> (r: MappingResult)
        requires
            old(self).inv(),
            i < old(self).areas_seq().len(),
            start + size <= usize::MAX,
            size > 0,
            old(self).areas_seq()[i as int].spec_start() < start,
            old(self).areas_seq()[i as int].spec_end() > start + size,
        ensures
            final(self).inv(),
            r is Err ==> r == Err::<(), MappingError>(MappingError::BadState),
            r is Ok ==> final(self).areas_seq().len() == old(self).areas_seq().len() + 2,
            r is Ok ==> forall|m: int|
                0 <= m < i ==> final(self).areas_seq()[m] == old(self).areas_seq()[m],
            r is Ok ==> forall|m: int|
                i + 3 <= m < final(self).areas_seq().len() ==> final(self).areas_seq()[m] == old(self).areas_seq()[m - 2],
            r is Ok ==> ({
                let orig = old(self).areas_seq()[i as int];
                let np = final(self).areas_seq()[i as int];
                let mp = final(self).areas_seq()[i + 1];
                let rp = final(self).areas_seq()[i + 2];
                let cut = ((start + size) as usize);
                &&& np.spec_start() == orig.spec_start() && np.spec_end() == start
                    && np.spec_flags() == orig.spec_flags()
                &&& mp.spec_start() == start && mp.spec_end() == cut && mp.spec_flags()
                    == new_flags
                &&& rp.spec_start() == cut && rp.spec_end() == orig.spec_end() && rp.spec_flags()
                    == orig.spec_flags()
                &&& forall|va: usize| #![trigger np.has_frame(va)]
                    np.has_frame(va) <==> orig.has_frame(va) && va < start
                &&& forall|va: usize| #![trigger np.frame_val(va)]
                    orig.has_frame(va) && va < start ==> np.frame_val(va) == orig.frame_val(va)
                &&& forall|va: usize| #![trigger mp.has_frame(va)]
                    mp.has_frame(va) <==> orig.has_frame(va) && start <= va < cut
                &&& forall|va: usize| #![trigger mp.frame_val(va)]
                    orig.has_frame(va) && start <= va < cut ==> mp.frame_val(va)
                        == orig.frame_val(va)
                &&& forall|va: usize| #![trigger rp.has_frame(va)]
                    rp.has_frame(va) <==> orig.has_frame(va) && va >= cut
                &&& forall|va: usize| #![trigger rp.frame_val(va)]
                    orig.has_frame(va) && va >= cut ==> rp.frame_val(va) == orig.frame_val(va)
            }),
    {
        let ghost pre = self.areas@;
        let n0 = self.areas.len();
        proof {
            assert(i < n0);
        }
        let end = start + size;
        let area_ref = &mut self.areas[i];
        let right_opt = area_ref.split(end);
        let right_part = right_opt.unwrap();
        let middle_opt = area_ref.split(start);
        let mut middle_part = middle_opt.unwrap();
        let res = middle_part.protect_area(new_flags, page_table);
        if res.is_err() {
            proof {
                lemma_areas_inv_update(pre, i as int, self.areas@[i as int]);
            }
            return Err(MappingError::BadState);
        }
        middle_part.set_flags(new_flags);
        proof {
            lemma_areas_inv_update(pre, i as int, self.areas@[i as int]);
        }
        let ghost mid1 = self.areas@;
        let ghost mp = middle_part;
        self.areas.insert(i + 1, middle_part);
        proof {
            assert forall|k: int|
                0 <= k < mid1.len() implies !(#[trigger] mid1[k]).spec_va_range().spec_overlaps(
                mp.spec_va_range(),
            ) && (k <= i ==> mid1[k].spec_start() < mp.spec_start()) && (k > i
                ==> mid1[k].spec_start() >= mp.spec_start()) by {
                if k < i {
                    assert(mid1[k] == pre[k]);
                    assert(pre[k].spec_end() <= pre[i as int].spec_start());
                } else if k > i {
                    assert(mid1[k] == pre[k]);
                    assert(pre[i as int].spec_end() <= pre[k].spec_start());
                }
            }
            lemma_areas_inv_insert(mid1, i + 1, mp);
        }
        let ghost mid2 = self.areas@;
        let ghost rp = right_part;
        let n1 = self.areas.len();
        proof {
            assert(i + 2 <= n1);
        }
        self.areas.insert(i + 2, right_part);
        proof {
            assert forall|k: int|
                0 <= k < mid2.len() implies !(#[trigger] mid2[k]).spec_va_range().spec_overlaps(
                rp.spec_va_range(),
            ) && (k <= i + 1 ==> mid2[k].spec_start() < rp.spec_start()) && (k > i + 1
                ==> mid2[k].spec_start() >= rp.spec_start()) by {
                if k < i {
                    assert(mid2[k] == pre[k]);
                    assert(pre[k].spec_end() <= pre[i as int].spec_start());
                } else if k > i + 1 {
                    assert(mid2[k] == pre[k - 1]);
                    assert(pre[i as int].spec_end() <= pre[k - 1].spec_start());
                }
            }
            lemma_areas_inv_insert(mid2, i + 2, rp);
        }
        Ok(())
    }

    /// Changes the flags of the mappings within `[start, start + size)`.
    ///
    /// `update_flags` maps an area's current flags to the flags to apply,
    /// or to `None` when there is no bit to change, in which case the area
    /// is left alone. An empty range is a no-op. An area partly inside the
    /// range is split at the range boundaries, and only the parts inside
    /// get the new flags; parts outside keep their flags and frames. The
    /// walk stops at the first area that starts at or beyond the range end
    /// and would have changed. A backend failure surfaces as `BadState` and
    /// may leave the areas walked so far already re-protected or split.
    #[verifier::rlimit(100)]
    #[verifier::spinoff_prover]
    pub fn protect<F: Fn(B::Flags) -> Option<B::Flags>>(
        &mut self,
        start: usize,
        size: usize,
        update_flags: F,
        page_table: &mut B::PageTable,
    ) -> (r: MappingResult)
        requires
            old(self).inv(),
            forall|fl: B::Flags| #[trigger] call_requires(update_flags, (fl,)),
        ensures
            final(self).inv(),
            start + size > usize::MAX <==> r == Err::<(), MappingError>(
                MappingError::InvalidParam,
            ),
            r is Err ==> r == Err::<(), MappingError>(MappingError::InvalidParam) || r == Err::<
                (),
                MappingError,
            >(MappingError::BadState),
            r == Err::<(), MappingError>(MappingError::InvalidParam) ==> *final(self) == *old(self),
            r is Ok ==> protect_post(
                old(self).areas_seq(),
                final(self).areas_seq(),
                start,
                size,
                update_flags,
            ),
            r is Ok && (forall|fl: B::Flags, out: Option<B::Flags>|
                #[trigger] call_ensures(update_flags, (fl,), out) ==> out is None) ==> final(self).areas_seq() == old(self).areas_seq(),
    {
        let end = match start.checked_add(size) {
            Some(e) => e,
            None => {
                return Err(MappingError::InvalidParam);
            },
        };
        if size == 0 {
            // an empty range has no bit to change anywhere
            proof {
                let s0 = self.areas@;
                assert forall|jj: int| 0 <= jj < s0.len() implies s0.contains(
                    #[trigger] s0[jj],
                ) by {
                    assert(s0[jj] == s0[jj]);
                }
                assert(protect_post(s0, self.areas_seq(), start, size, update_flags));
            }
            return Ok(());
        }
        let ghost s0 = self.areas@;
        let mut i: usize = 0;
        let mut done = false;
        let ghost mut src_i: int = 0;
        proof {
            assert(protect_rel(s0, self.areas@, 0, 0, start, size, update_flags)) by {
                reveal(protect_rel);
            }
        }
        while !done && i < self.areas.len()
            invariant
                areas_inv(self.areas@),
                areas_inv(s0),
                s0 == old(self).areas_seq(),
                end == start + size,
                i <= self.areas@.len(),
                done ==> src_i < s0.len() && s0[src_i].spec_start() >= start + size,
                0 <= src_i <= s0.len(),
                self.areas@.len() - i == s0.len() - src_i,
                forall|m: int|
                    i <= m < self.areas@.len() ==> self.areas@[m] == s0[m - i + src_i],
                protect_rel(s0, self.areas@, i as int, src_i, start, size, update_flags),
                forall|addr: usize|
                    #[trigger] seq_covers(s0, addr) ==> seq_covers(self.areas@, addr),
                (forall|fl: B::Flags, out: Option<B::Flags>|
                    #[trigger] call_ensures(update_flags, (fl,), out) ==> out is None)
                    ==> self.areas@ == s0 && src_i == i,
                forall|fl: B::Flags| #[trigger] call_requires(update_flags, (fl,)),
                size > 0,
            decreases self.areas@.len() - i + (if done {
                0int
            } else {
                1int
            }),
        {
            let ghost pre = self.areas@;
            let ghost orig = self.areas@[i as int];
            proof {
                assert(orig == s0[src_i]);
                lemma_frames_in_range(orig);
            }
            let flags0 = self.areas[i].flags();
            let nf_opt = (update_flags)(flags0);
            match nf_opt {
                None => {
                    proof {
                        lemma_protect_skip(s0, pre, i as int, src_i, start, size, update_flags);
                        src_i = src_i + 1;
                    }
                    i += 1;
                },
                Some(new_flags) => {
                    let a_start = self.areas[i].start();
                    let a_end = self.areas[i].end();
                    if a_start >= end {
                        done = true;
                    } else if a_end <= start {
                        // the area lies entirely before the range
                        proof {
                            lemma_protect_skip(
                                s0,
                                pre,
                                i as int,
                                src_i,
                                start,
                                size,
                                update_flags,
                            );
                            src_i = src_i + 1;
                        }
                        i += 1;
                    } else if a_start >= start && a_end <= end {
                        // the area lies entirely inside the range
                        let res = self.protect_whole(i, start, size, new_flags, page_table);
                        if res.is_err() {
                            return Err(MappingError::BadState);
                        }
                        proof {
                            assert(protect_piece(
                                self.areas@[i as int],
                                orig,
                                start,
                                size,
                                update_flags,
                            )) by {
                                reveal(protect_piece);
                            }
                            assert(self.areas@[i as int].spec_start() == s0[src_i].spec_start()
                                && self.areas@[i as int].spec_end() == s0[src_i].spec_end());
                            lemma_protect_advance(
                                s0,
                                pre,
                                self.areas@,
                                i as int,
                                src_i,
                                1,
                                start,
                                size,
                                update_flags,
                            );
                            src_i = src_i + 1;
                        }
                        i += 1;
                    } else if a_start < start && a_end > end {
                        // the area strictly contains the range: three parts
                        let res = self.protect_split_three(i, start, size, new_flags, page_table);
                        if res.is_err() {
                            return Err(MappingError::BadState);
                        }
                        proof {
                            assert(protect_piece(
                                self.areas@[i as int],
                                orig,
                                start,
                                size,
                                update_flags,
                            ) && protect_piece(
                                self.areas@[i + 1],
                                orig,
                                start,
                                size,
                                update_flags,
                            ) && protect_piece(
                                self.areas@[i + 2],
                                orig,
                                start,
                                size,
                                update_flags,
                            )) by {
                                reveal(protect_piece);
                            }
                            assert(self.areas@[i as int].spec_start() == s0[src_i].spec_start()
                                && self.areas@[i + 2].spec_end() == s0[src_i].spec_end()
                                && self.areas@[i as int].spec_end() == self.areas@[i
                                + 1].spec_start() && self.areas@[i + 1].spec_end()
                                == self.areas@[i + 2].spec_start());
                            lemma_protect_advance(
                                s0,
                                pre,
                                self.areas@,
                                i as int,
                                src_i,
                                3,
                                start,
                                size,
                                update_flags,
                            );
                            src_i = src_i + 1;
                        }
                        let n = self.areas.len();
                        proof {
                            assert(i + 3 <= n);
                        }
                        i += 3;
                    } else if a_end > end {
                        // only the tail lies beyond the range
                        let res = self.protect_split_right(i, start, size, new_flags, page_table);
                        if res.is_err() {
                            return Err(MappingError::BadState);
                        }
                        proof {
                            assert(protect_piece(
                                self.areas@[i as int],
                                orig,
                                start,
                                size,
                                update_flags,
                            ) && protect_piece(
                                self.areas@[i + 1],
                                orig,
                                start,
                                size,
                                update_flags,
                            )) by {
                                reveal(protect_piece);
                            }
                            assert(self.areas@[i as int].spec_start() == s0[src_i].spec_start()
                                && self.areas@[i + 1].spec_end() == s0[src_i].spec_end()
                                && self.areas@[i as int].spec_end() == self.areas@[i
                                + 1].spec_start());
                            assert(self.areas@[i as int].spec_start() == s0[src_i].spec_start()
                                && self.areas@[i + 1].spec_end() == s0[src_i].spec_end()
                                && self.areas@[i as int].spec_end() == self.areas@[i
                                + 1].spec_start());
                            lemma_protect_advance(
                                s0,
                                pre,
                                self.areas@,
                                i as int,
                                src_i,
                                2,
                                start,
                                size,
                                update_flags,
                            );
                            src_i = src_i + 1;
                        }
                        let n = self.areas.len();
                        proof {
                            assert(i + 2 <= n);
                        }
                        i += 2;
                    } else {
                        // only the head lies before the range
                        let res = self.protect_split_left(i, start, size, new_flags, page_table);
                        if res.is_err() {
                            return Err(MappingError::BadState);
                        }
                        proof {
                            assert(protect_piece(
                                self.areas@[i as int],
                                orig,
                                start,
                                size,
                                update_flags,
                            ) && protect_piece(
                                self.areas@[i + 1],
                                orig,
                                start,
                                size,
                                update_flags,
                            )) by {
                                reveal(protect_piece);
                            }
                            lemma_protect_advance(
                                s0,
                                pre,
                                self.areas@,
                                i as int,
                                src_i,
                                2,
                                start,
                                size,
                                update_flags,
                            );
                            src_i = src_i + 1;
                        }
                        let n = self.areas.len();
                        proof {
                            assert(i + 2 <= n);
                        }
                        i += 2;
                    }
                },
            }
        }
        proof {
            lemma_protect_post_from_rel(
                s0,
                self.areas@,
                i as int,
                src_i,
                start,
                size,
                update_flags,
            );
            assert(protect_post(s0, self.areas_seq(), start, size, update_flags));
        }
        Ok(())
    }
}

} // verus!
