//! Laws that relate several operations of the memory set: first-fit
//! placement stays inside the limit, mapping then unmapping a free range
//! restores the set, and splitting an area and re-inserting both halves
//! keeps the set equivalent.
use vstd::prelude::*;

use crate::area::MemoryArea;
use crate::backend::MappingBackend;
use crate::set::areas_inv;
use crate::set::is_insert_of;
use crate::set::trimmed_left;
use crate::set::trimmed_right;
use crate::set::unmap_piece;
use crate::set::unmap_post;
use crate::set::MemorySet;

verus! {

/// Two area sequences that hold the set invariant and the same areas are
/// the same sequence: sortedness by start address makes the order unique.
pub proof fn lemma_sorted_areas_unique<B: MappingBackend>(
    x: Seq<MemoryArea<B>>,
    y: Seq<MemoryArea<B>>,
)
    requires
        areas_inv(x),
        areas_inv(y),
        forall|a: MemoryArea<B>| x.contains(a) <==> y.contains(a),
    ensures
        x == y,
    decreases x.len(),
{
    if x.len() == 0 {
        if y.len() > 0 {
            assert(y.contains(y[0]));
            assert(x.contains(y[0]));
        }
        assert(x =~= y);
    } else {
        assert(x.contains(x[0]));
        assert(y.contains(x[0]));
        let iy = choose|i: int| 0 <= i < y.len() && y[i] == x[0];
        assert(y.contains(y[0]));
        assert(x.contains(y[0]));
        let ix = choose|i: int| 0 <= i < x.len() && x[i] == y[0];
        if iy > 0 {
            assert(y[0].spec_end() <= y[iy].spec_start());
        }
        if ix > 0 {
            assert(x[0].spec_end() <= x[ix].spec_start());
        }
        assert(x[0] == y[0]);
        let xt = x.subrange(1, x.len() as int);
        let yt = y.subrange(1, y.len() as int);
        assert forall|a: MemoryArea<B>| xt.contains(a) implies yt.contains(a) by {
            let m = choose|m: int| 0 <= m < xt.len() && xt[m] == a;
            assert(x[m + 1] == a);
            assert(x.contains(a));
            let j = choose|j: int| 0 <= j < y.len() && y[j] == a;
            if j == 0 {
                assert(a == x[0]);
                assert(x[0].spec_end() <= x[m + 1].spec_start());
            } else {
                assert(yt[j - 1] == a);
            }
        }
        assert forall|a: MemoryArea<B>| yt.contains(a) implies xt.contains(a) by {
            let m = choose|m: int| 0 <= m < yt.len() && yt[m] == a;
            assert(y[m + 1] == a);
            assert(y.contains(a));
            let j = choose|j: int| 0 <= j < x.len() && x[j] == a;
            if j == 0 {
                assert(a == y[0]);
                assert(y[0].spec_end() <= y[m + 1].spec_start());
            } else {
                assert(xt[j - 1] == a);
            }
        }
        assert forall|i: int, j: int| 0 <= i < j < xt.len() implies (#[trigger] xt[i]).spec_end()
            <= (#[trigger] xt[j]).spec_start() by {
            assert(xt[i] == x[i + 1] && xt[j] == x[j + 1]);
        }
        assert forall|i: int, j: int| 0 <= i < j < yt.len() implies (#[trigger] yt[i]).spec_end()
            <= (#[trigger] yt[j]).spec_start() by {
            assert(yt[i] == y[i + 1] && yt[j] == y[j + 1]);
        }
        lemma_sorted_areas_unique(xt, yt);
        assert(x.len() == y.len());
        assert forall|m: int| 0 <= m < x.len() implies x[m] == y[m] by {
            if m > 0 {
                assert(x[m] == xt[m - 1] && y[m] == yt[m - 1]);
            }
        }
        assert(x =~= y);
    }
}

/// First-fit placement stays inside the limit: when every area ends at or
/// before the end of the search limit, an address returned by
/// `find_free_area` fits below the limit's end as well. Together with the
/// function's own contract this says the returned range lies inside the
/// limit and overlaps no area.
pub proof fn lemma_free_area_within_limit<B: MappingBackend>(
    s: MemorySet<B>,
    x: usize,
    size: usize,
    limit_end: usize,
)
    requires
        s.inv(),
        x + size <= limit_end || exists|i: int|
            0 <= i < s.areas_seq().len() && (#[trigger] s.areas_seq()[i]).spec_start() >= x
                + size,
        forall|i: int|
            0 <= i < s.areas_seq().len() ==> (#[trigger] s.areas_seq()[i]).spec_end()
                <= limit_end,
    ensures
        x + size <= limit_end,
{
    if !(x + size <= limit_end) {
        let i = choose|i: int|
            0 <= i < s.areas_seq().len() && (#[trigger] s.areas_seq()[i]).spec_start() >= x
                + size;
        assert(s.areas_seq()[i].spec_start() < s.areas_seq()[i].spec_end());
    }
}

/// Mapping a non-empty area over a free range and then unmapping exactly
/// that range restores the original set of areas.
///
/// `s0` is the set before the `map`, `s1` the set it produced, and `s2`
/// the set after `unmap` of the same range; the requires restate what the
/// contracts of `map` and `unmap` guarantee for those steps.
pub proof fn lemma_map_unmap_round_trip<B: MappingBackend>(
    s0: Seq<MemoryArea<B>>,
    s1: Seq<MemoryArea<B>>,
    s2: Seq<MemoryArea<B>>,
    a2: MemoryArea<B>,
    start: usize,
    size: usize,
)
    requires
        areas_inv(s0),
        areas_inv(s1),
        areas_inv(s2),
        size > 0,
        start + size <= usize::MAX,
        a2.spec_start() == start,
        a2.spec_end() == start + size,
        forall|i: int|
            0 <= i < s0.len() ==> !((#[trigger] s0[i]).spec_start() < start + size && start
                < s0[i].spec_end()),
        is_insert_of(s1, s0, a2),
        unmap_post(s1, s2, start, size),
    ensures
        s2 == s0,
{
    let k = choose|k: int| 0 <= k <= s0.len() && s1 == s0.insert(k, a2);
    assert forall|x: MemoryArea<B>| s2.contains(x) implies s0.contains(x) by {
        let i = choose|i: int| 0 <= i < s2.len() && s2[i] == x;
        assert(!(s2[i].spec_start() < start + size && start < s2[i].spec_end()));
        if s1.contains(x) {
            let m = choose|m: int| 0 <= m < s1.len() && s1[m] == x;
            if m == k {
                assert(x == a2);
                assert(false);
            } else if m < k {
                assert(s0[m] == x);
            } else {
                assert(s0[m - 1] == x);
            }
        } else {
            assert(unmap_piece(s1, x, start, size));
            let j = choose|j: int|
                0 <= j < s1.len() && (#[trigger] s1[j]).spec_start() < start + size && start
                    < s1[j].spec_end() && ((trimmed_left(x, s1[j], start) && s1[j].spec_start()
                    < start) || (trimmed_right(x, s1[j], ((start + size) as usize))
                    && s1[j].spec_end() > start + size));
            if j != k {
                let oj: int = if j < k {
                    j
                } else {
                    j - 1
                };
                assert(s1[j] == s0[oj]);
                assert(false);
            } else {
                assert(s1[j] == a2);
                assert(false);
            }
        }
    }
    assert forall|x: MemoryArea<B>| s0.contains(x) implies s2.contains(x) by {
        let j = choose|j: int| 0 <= j < s0.len() && s0[j] == x;
        let m: int = if j < k {
            j
        } else {
            j + 1
        };
        assert(s1[m] == x);
        assert(s1.contains(x));
        assert(x.spec_end() <= start || x.spec_start() >= start + size);
    }
    lemma_sorted_areas_unique(s2, s0);
}

/// Splitting an area and re-inserting both halves yields an equivalent
/// set: the same addresses are covered, with the same flags and the same
/// frames at each address.
pub proof fn lemma_split_reinsert_equivalent<B: MappingBackend>(
    s: MemorySet<B>,
    s2: MemorySet<B>,
    i: int,
    l: MemoryArea<B>,
    r: MemoryArea<B>,
    pos: usize,
)
    requires
        s.inv(),
        0 <= i < s.areas_seq().len(),
        s.areas_seq()[i].spec_start() < pos < s.areas_seq()[i].spec_end(),
        trimmed_left(l, s.areas_seq()[i], pos),
        trimmed_right(r, s.areas_seq()[i], pos),
        l.wf(),
        r.wf(),
        s2.areas_seq() == s.areas_seq().update(i, l).insert(i + 1, r),
    ensures
        s2.inv(),
        forall|addr: usize| #![trigger s2.covers(addr)] s2.covers(addr) <==> s.covers(addr),
        forall|addr: usize| #![trigger s2.area_at(addr)]
            s.covers(addr) ==> s2.area_at(addr).spec_flags() == s.area_at(addr).spec_flags() && (
            s2.area_at(addr).has_frame(addr) <==> s.area_at(addr).has_frame(addr)) && (s.area_at(
                addr,
            ).has_frame(addr) ==> s2.area_at(addr).frame_val(addr) == s.area_at(addr).frame_val(
                addr,
            )),
{
    let a = s.areas_seq()[i];
    let mid = s.areas_seq().update(i, l);
    crate::set::lemma_areas_inv_update(s.areas_seq(), i, l);
    assert forall|k: int|
        0 <= k < mid.len() implies !(#[trigger] mid[k]).spec_va_range().spec_overlaps(
        r.spec_va_range(),
    ) && (k <= i ==> mid[k].spec_start() < r.spec_start()) && (k > i ==> mid[k].spec_start()
        >= r.spec_start()) by {
        if k < i {
            assert(mid[k] == s.areas_seq()[k]);
            assert(s.areas_seq()[k].spec_end() <= s.areas_seq()[i].spec_start());
        } else if k > i {
            assert(mid[k] == s.areas_seq()[k]);
            assert(s.areas_seq()[i].spec_end() <= s.areas_seq()[k].spec_start());
        }
    }
    crate::set::lemma_areas_inv_insert(mid, i + 1, r);
    assert forall|addr: usize| #![trigger s2.covers(addr)]
        s2.covers(addr) <==> s.covers(addr) by {
        if s2.covers(addr) {
            let m = s2.covering_index(addr);
            if m == i {
                s.lemma_covering_is(addr, i);
            } else if m == i + 1 {
                s.lemma_covering_is(addr, i);
            } else {
                let om: int = if m < i {
                    m
                } else {
                    m - 1
                };
                assert(s2.areas_seq()[m] == s.areas_seq()[om]);
                s.lemma_covering_is(addr, om);
            }
        }
        if s.covers(addr) {
            let m = s.covering_index(addr);
            if m == i {
                if addr < pos {
                    s2.lemma_covering_is(addr, i);
                } else {
                    s2.lemma_covering_is(addr, i + 1);
                }
            } else {
                let nm: int = if m < i {
                    m
                } else {
                    m + 1
                };
                assert(s2.areas_seq()[nm] == s.areas_seq()[m]);
                s2.lemma_covering_is(addr, nm);
            }
        }
    }
    assert forall|addr: usize| #![trigger s2.area_at(addr)]
        s.covers(addr) implies s2.area_at(addr).spec_flags() == s.area_at(addr).spec_flags() && (
    s2.area_at(addr).has_frame(addr) <==> s.area_at(addr).has_frame(addr)) && (s.area_at(
        addr,
    ).has_frame(addr) ==> s2.area_at(addr).frame_val(addr) == s.area_at(addr).frame_val(
        addr,
    )) by {
        let m = s.covering_index(addr);
        s.lemma_covering_is(addr, m);
        if m == i {
            if addr < pos {
                s2.lemma_covering_is(addr, i);
            } else {
                s2.lemma_covering_is(addr, i + 1);
            }
        } else {
            let nm: int = if m < i {
                m
            } else {
                m + 1
            };
            assert(s2.areas_seq()[nm] == s.areas_seq()[m]);
            s2.lemma_covering_is(addr, nm);
        }
    }
}

} // verus!
