//! Tests for address ranges, area primitives, frame bookkeeping and the
//! error cases of the set operations.
use std::cell::RefCell;
use std::rc::Rc;

use memory_set::AddrRange;
use memory_set::FrameTracker;
use memory_set::MappingBackend;
use memory_set::MappingError;
use memory_set::MemoryArea;
use memory_set::MemorySet;
use memory_set::PAGE_SIZE_4K;

struct Frame {
    pa: usize,
}

impl FrameTracker for Frame {
    fn new(pa: usize) -> Self {
        Frame { pa }
    }

    fn no_tracking(pa: usize) -> Self {
        Frame { pa }
    }

    fn alloc_frame() -> Self {
        Frame { pa: 0 }
    }

    fn dealloc_frame(&mut self) {}

    fn start(&self) -> usize {
        self.pa
    }

    fn size() -> usize {
        PAGE_SIZE_4K
    }
}

#[derive(Clone)]
struct Backend {
    unmap_ok: Rc<RefCell<bool>>,
    protect_ok: Rc<RefCell<bool>>,
}

impl Backend {
    fn new() -> Self {
        Backend {
            unmap_ok: Rc::new(RefCell::new(true)),
            protect_ok: Rc::new(RefCell::new(true)),
        }
    }
}

impl MappingBackend for Backend {
    type Flags = u8;
    type PageTable = u32;
    type FrameTrackerImpl = Frame;
    type FrameTrackerRef = Rc<Frame>;

    fn map(
        &self,
        start: usize,
        size: usize,
        _flags: u8,
        _page_table: &mut u32,
    ) -> Result<Vec<(usize, Rc<Frame>)>, ()> {
        let mut frames = Vec::new();
        let mut va = start;
        while va < start + size {
            frames.push((va, Rc::new(Frame::new(va))));
            va += PAGE_SIZE_4K;
        }
        Ok(frames)
    }

    fn unmap(&self, _start: usize, _size: usize, _page_table: &mut u32) -> bool {
        *self.unmap_ok.borrow()
    }

    fn protect(&self, _start: usize, _size: usize, _new_flags: u8, _page_table: &mut u32) -> bool {
        *self.protect_ok.borrow()
    }
}

fn area(start: usize, end: usize, flags: u8) -> MemoryArea<Backend> {
    MemoryArea::new(start, end - start, None, flags, Backend::new())
}

#[test]
fn addr_range_ops() {
    let r = AddrRange::from_start_size(0x1000, 0x2000);
    assert_eq!(r, AddrRange::new(0x1000, 0x3000));
    assert_eq!(r.size(), 0x2000);
    assert!(!r.is_empty());
    assert!(AddrRange::new(0x1000, 0x1000).is_empty());
    assert!(r.contains(0x1000));
    assert!(r.contains(0x2fff));
    assert!(!r.contains(0x3000));
    assert!(r.overlaps(AddrRange::new(0x2000, 0x4000)));
    assert!(!r.overlaps(AddrRange::new(0x3000, 0x4000)));
    assert!(r.contained_in(AddrRange::new(0x0, 0x10000)));
    assert!(!r.contained_in(AddrRange::new(0x2000, 0x10000)));
    assert_eq!(AddrRange::try_from_start_size(usize::MAX, 2), None);
    assert_eq!(
        AddrRange::try_from_start_size(4, 8),
        Some(AddrRange::new(4, 12)),
    );
}

#[test]
fn area_getters_and_stat() {
    let mut pt: u32 = 0;
    let mut a = area(0x1000, 0x4000, 7);
    assert_eq!(a.start(), 0x1000);
    assert_eq!(a.end(), 0x4000);
    assert_eq!(a.size(), 0x3000);
    assert_eq!(a.flags(), 7);
    assert_eq!(a.va_range(), AddrRange::new(0x1000, 0x4000));
    a.map_area(&mut pt, None).unwrap();
    let st = a.stat();
    assert_eq!(st.start, 0x1000);
    assert_eq!(st.end, 0x4000);
    assert_eq!(st.size, 0x3000);
    assert_eq!(st.rss, 3 * PAGE_SIZE_4K);
    assert_eq!(st.swap, 0);
}

#[test]
fn area_clone_and_mmap_constructor() {
    let mut pt: u32 = 0;
    let mut a = area(0x1000, 0x3000, 3);
    a.map_area(&mut pt, None).unwrap();
    let b = a.clone_(5);
    assert_eq!(b.start(), 0x1000);
    assert_eq!(b.end(), 0x3000);
    assert_eq!(b.flags(), 5);
    assert_eq!(b.frames_count(), a.frames_count());
    let c: MemoryArea<Backend> = MemoryArea::new_mmap(0x8000, 0x1000, None, 1, Backend::new());
    assert_eq!((c.start(), c.end(), c.flags()), (0x8000, 0x9000, 1));
}

#[test]
fn area_unmap_and_unmap_frames() {
    let mut pt: u32 = 0;
    let mut a = area(0x1000, 0x5000, 3);
    a.map_area(&mut pt, None).unwrap();
    assert_eq!(a.frames_count(), 4);
    a.unmap_frames(0x2000, 0x2000, &mut pt).unwrap();
    assert_eq!(a.frames_count(), 2);
    assert!(a.find_frame(0x1000).is_some());
    assert!(a.find_frame(0x2000).is_none());
    assert!(a.find_frame(0x4000).is_some());
    a.unmap_area(&mut pt).unwrap();
    assert_eq!(a.frames_count(), 0);
}

#[test]
fn area_unmap_bad_state() {
    let mut pt: u32 = 0;
    let backend = Backend::new();
    let mut a = MemoryArea::new(0x1000, 0x2000, None, 3u8, backend.clone());
    a.map_area(&mut pt, None).unwrap();
    *backend.unmap_ok.borrow_mut() = false;
    assert_eq!(a.unmap_area(&mut pt), Err(MappingError::BadState));
    // the failed unmap left the frame table alone
    assert_eq!(a.frames_count(), 2);
}

#[test]
fn area_shrink_and_extend() {
    let mut pt: u32 = 0;
    let mut a = area(0x2000, 0x6000, 3);
    a.map_area(&mut pt, None).unwrap();
    a.shrink_left(0x3000, &mut pt).unwrap();
    assert_eq!((a.start(), a.end()), (0x3000, 0x6000));
    assert_eq!(a.frames_count(), 3);
    a.extend_left(0x4000, &mut pt).unwrap();
    assert_eq!((a.start(), a.end()), (0x2000, 0x6000));
    assert_eq!(a.frames_count(), 4);
    a.shrink_right(0x2000, &mut pt).unwrap();
    assert_eq!((a.start(), a.end()), (0x2000, 0x4000));
    assert_eq!(a.frames_count(), 2);
    a.extend_right(0x3000, &mut pt).unwrap();
    assert_eq!((a.start(), a.end()), (0x2000, 0x5000));
    assert_eq!(a.frames_count(), 3);
}

#[test]
fn area_insert_and_find_frame() {
    let mut a = area(0x1000, 0x4000, 3);
    let f1 = Rc::new(Frame::new(0x111000));
    let f2 = Rc::new(Frame::new(0x222000));
    assert!(a.insert_frame(0x2000, f1.clone()).is_none());
    assert_eq!(a.frames_count(), 1);
    let old = a.insert_frame(0x2000, f2.clone()).unwrap();
    assert_eq!(old.start(), 0x111000);
    assert_eq!(a.frames_count(), 1);
    assert_eq!(a.find_frame(0x2000).unwrap().start(), 0x222000);
    assert!(a.find_frame(0x3000).is_none());
}

#[test]
fn area_split_rejects_outside_positions() {
    let mut a = area(0x1000, 0x3000, 3);
    assert!(a.split(0x1000).is_none());
    assert!(a.split(0x3000).is_none());
    assert!(a.split(0x0).is_none());
    assert_eq!((a.start(), a.end()), (0x1000, 0x3000));
    let right = a.split(0x2000).unwrap();
    assert_eq!((a.start(), a.end()), (0x1000, 0x2000));
    assert_eq!((right.start(), right.end()), (0x2000, 0x3000));
}

#[test]
fn set_insert_rejects_empty_and_overlap() {
    let mut set: MemorySet<Backend> = MemorySet::new();
    assert!(set.is_empty());
    assert_eq!(
        set.insert(area(0x1000, 0x1000, 3), false),
        Err(MappingError::InvalidParam),
    );
    set.insert(area(0x1000, 0x3000, 3), false).unwrap();
    assert_eq!(
        set.insert(area(0x2000, 0x4000, 3), false),
        Err(MappingError::AlreadyExists),
    );
    assert_eq!(set.len(), 1);
}

#[test]
fn set_map_rejects_empty() {
    let mut set: MemorySet<Backend> = MemorySet::new();
    let mut pt: u32 = 0;
    assert_eq!(
        set.map(area(0x1000, 0x1000, 3), &mut pt, false, None),
        Err(MappingError::InvalidParam),
    );
}

#[test]
fn set_unmap_rejects_overflowing_range() {
    let mut set: MemorySet<Backend> = MemorySet::new();
    let mut pt: u32 = 0;
    assert_eq!(
        set.unmap(usize::MAX, 2, &mut pt),
        Err(MappingError::InvalidParam),
    );
    // a zero-sized unmap is a no-op
    set.insert(area(0x1000, 0x2000, 3), false).unwrap();
    set.unmap(0x1000, 0, &mut pt).unwrap();
    assert_eq!(set.len(), 1);
}

#[test]
fn set_unmap_bad_state() {
    let backend = Backend::new();
    let mut set: MemorySet<Backend> = MemorySet::new();
    let mut pt: u32 = 0;
    set.map(
        MemoryArea::new(0x1000, 0x2000, None, 3u8, backend.clone()),
        &mut pt,
        false,
        None,
    )
        .unwrap();
    *backend.unmap_ok.borrow_mut() = false;
    assert_eq!(set.unmap(0x1000, 0x2000, &mut pt), Err(MappingError::BadState));
}

#[test]
fn set_find_and_find_mut() {
    let mut set: MemorySet<Backend> = MemorySet::new();
    set.insert(area(0x1000, 0x3000, 3), false).unwrap();
    set.insert(area(0x5000, 0x6000, 5), false).unwrap();
    assert_eq!(set.find(0x1000).unwrap().flags(), 3);
    assert_eq!(set.find(0x2fff).unwrap().flags(), 3);
    assert!(set.find(0x3000).is_none());
    assert!(set.find(0x4000).is_none());
    assert_eq!(set.find(0x5000).unwrap().flags(), 5);
    let m = set.find_mut(0x5800).unwrap();
    assert_eq!(m.start(), 0x5000);
    assert!(set.find_mut(0x0).is_none());
}

#[test]
fn set_overlaps_matches_any_area() {
    let mut set: MemorySet<Backend> = MemorySet::new();
    set.insert(area(0x1000, 0x3000, 3), false).unwrap();
    set.insert(area(0x6000, 0x8000, 3), false).unwrap();
    assert!(set.overlaps(AddrRange::new(0x2000, 0x4000)));
    assert!(set.overlaps(AddrRange::new(0x0, 0x10000)));
    assert!(!set.overlaps(AddrRange::new(0x3000, 0x6000)));
    assert!(!set.overlaps(AddrRange::new(0x8000, 0x9000)));
}

#[test]
fn set_find_free_area_none_when_full() {
    let mut set: MemorySet<Backend> = MemorySet::new();
    set.insert(area(0x0, 0x8000, 3), false).unwrap();
    let limit = AddrRange::new(0x0, 0x8000);
    assert_eq!(set.find_free_area(0x0, 0x1000, limit), None);
    assert_eq!(set.find_free_area(0x0, 0x1000, AddrRange::new(0x0, 0x9000)), Some(0x8000));
}

#[test]
fn set_delete_and_clear() {
    let mut set: MemorySet<Backend> = MemorySet::new();
    let mut pt: u32 = 0;
    set.insert(area(0x1000, 0x2000, 3), false).unwrap();
    set.insert(area(0x3000, 0x4000, 3), false).unwrap();
    set.delete(0x3000);
    assert_eq!(set.len(), 1);
    set.delete(0x9000);
    assert_eq!(set.len(), 1);
    set.clear(&mut pt).unwrap();
    assert!(set.is_empty());
}

#[test]
fn set_frame_helpers() {
    let mut set: MemorySet<Backend> = MemorySet::new();
    set.insert(area(0x1000, 0x4000, 3), false).unwrap();
    let f1 = Rc::new(Frame::new(0xaa000));
    let f2 = Rc::new(Frame::new(0xbb000));
    // no containing area: nothing is inserted
    assert!(set.insert_frame(0x8000, f1.clone()).is_none());
    assert!(set.find_frame(0x8000).is_none());
    assert!(set.insert_frame(0x2000, f1.clone()).is_none());
    assert_eq!(set.find_frame(0x2000).unwrap().start(), 0xaa000);
    set.remap_frame(0x2000, f2.clone());
    assert_eq!(set.find_frame(0x2000).unwrap().start(), 0xbb000);
    assert!(set.find_frame(0x3000).is_none());
}

#[test]
fn set_map_with_unmap_overlap_evicts() {
    let mut set: MemorySet<Backend> = MemorySet::new();
    let mut pt: u32 = 0;
    set.map(area(0x1000, 0x3000, 3), &mut pt, false, None).unwrap();
    set.map(area(0x2000, 0x4000, 5), &mut pt, true, None).unwrap();
    let mut v = Vec::new();
    for a in set.iter() {
        v.push((a.start(), a.end(), a.flags()));
    }
    assert_eq!(v, vec![(0x1000, 0x2000, 3), (0x2000, 0x4000, 5)]);
}

#[test]
fn set_protect_edges() {
    let mut set: MemorySet<Backend> = MemorySet::new();
    let mut pt: u32 = 0;
    set.map(area(0x1000, 0x4000, 3), &mut pt, false, None).unwrap();
    set.map(area(0x6000, 0x9000, 3), &mut pt, false, None).unwrap();
    // the range covers the tail of the first area and the head of the second
    set.protect(0x3000, 0x4000, |_f: u8| Some(5u8), &mut pt).unwrap();
    let mut v = Vec::new();
    for a in set.iter() {
        v.push((a.start(), a.end(), a.flags()));
    }
    assert_eq!(
        v,
        vec![
            (0x1000, 0x3000, 3),
            (0x3000, 0x4000, 5),
            (0x6000, 0x7000, 5),
            (0x7000, 0x9000, 3),
        ],
    );
}

#[test]
fn set_adjust_area_resizes() {
    let mut set: MemorySet<Backend> = MemorySet::new();
    let mut pt: u32 = 0;
    set.map(area(0x2000, 0x4000, 3), &mut pt, false, None).unwrap();
    assert_eq!(
        set.adjust_area(0x2000, 0x3000, 0x3000, &mut pt),
        Err(MappingError::InvalidParam),
    );
    set.adjust_area(0x2000, 0x1000, 0x6000, &mut pt).unwrap();
    let a = set.find(0x1000).unwrap();
    assert_eq!((a.start(), a.end()), (0x1000, 0x6000));
    set.adjust_area(0x1000, 0x3000, 0x5000, &mut pt).unwrap();
    let b = set.find(0x3000).unwrap();
    assert_eq!((b.start(), b.end()), (0x3000, 0x5000));
    assert!(set.find(0x2000).is_none());
    assert!(set.find(0x5000).is_none());
}

#[test]
fn area_protect_bad_state() {
    let mut pt: u32 = 0;
    let backend = Backend::new();
    let mut a = MemoryArea::new(0x1000, 0x2000, None, 3u8, backend.clone());
    assert_eq!(a.protect_area(5, &mut pt), Ok(()));
    *backend.protect_ok.borrow_mut() = false;
    assert_eq!(a.protect_area(5, &mut pt), Err(MappingError::BadState));
    // the area itself is never changed by a failed protect
    assert_eq!((a.start(), a.end(), a.flags()), (0x1000, 0x3000, 3));
}

#[test]
fn set_protect_bad_state() {
    let mut pt: u32 = 0;
    let backend = Backend::new();
    let mut set: MemorySet<Backend> = MemorySet::new();
    set.map(
        MemoryArea::new(0x1000, 0x2000, None, 3u8, backend.clone()),
        &mut pt,
        false,
        None,
    )
        .unwrap();
    *backend.protect_ok.borrow_mut() = false;
    assert_eq!(
        set.protect(0x1000, 0x2000, |_f: u8| Some(5u8), &mut pt),
        Err(MappingError::BadState),
    );
    // the failed protect left the area with its old flags
    assert_eq!(set.find(0x1000).unwrap().flags(), 3);
}

#[test]
fn set_protect_empty_range_is_noop() {
    let mut pt: u32 = 0;
    let mut set: MemorySet<Backend> = MemorySet::new();
    set.insert(area(0x1000, 0x5000, 3), false).unwrap();
    set.protect(0x2000, 0, |_f: u8| Some(5u8), &mut pt).unwrap();
    assert_eq!(set.len(), 1);
    assert_eq!(set.find(0x2000).unwrap().flags(), 3);
}
