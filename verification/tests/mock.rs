//! A mock backend over a logging page table, and the scenario tests for
//! the memory set.
use std::cell::RefCell;
use std::rc::Rc;

use memory_set::AddrRange;
use memory_set::FrameTracker;
use memory_set::MappingBackend;
use memory_set::MappingError;
use memory_set::MemoryArea;
use memory_set::MemorySet;

const MAP: u8 = 0;
const UNMAP: u8 = 1;
const PROTECT: u8 = 2;

struct MockFrame {
    pa: usize,
}

impl FrameTracker for MockFrame {
    fn new(pa: usize) -> Self {
        MockFrame { pa }
    }

    fn no_tracking(pa: usize) -> Self {
        MockFrame { pa }
    }

    fn alloc_frame() -> Self {
        MockFrame { pa: 0 }
    }

    fn dealloc_frame(&mut self) {}

    fn start(&self) -> usize {
        self.pa
    }

    fn size() -> usize {
        4096
    }
}

#[derive(Clone)]
struct MockBackend {
    log: Rc<RefCell<Vec<(u8, usize, usize)>>>,
    return_frames: bool,
    fail_unmap: bool,
}

impl MockBackend {
    fn new(return_frames: bool) -> Self {
        MockBackend { log: Rc::new(RefCell::new(Vec::new())), return_frames, fail_unmap: false }
    }
}

impl MappingBackend for MockBackend {
    type Flags = u8;
    type PageTable = u32;
    type FrameTrackerImpl = MockFrame;
    type FrameTrackerRef = Rc<MockFrame>;

    fn map(
        &self,
        start: usize,
        size: usize,
        _flags: u8,
        _page_table: &mut u32,
    ) -> Result<Vec<(usize, Rc<MockFrame>)>, ()> {
        self.log.borrow_mut().push((MAP, start, size));
        let mut frames = Vec::new();
        if self.return_frames {
            let mut va = start;
            while va < start + size {
                frames.push((va, Rc::new(MockFrame::new(va))));
                va += 4096;
            }
        }
        Ok(frames)
    }

    fn unmap(&self, start: usize, size: usize, _page_table: &mut u32) -> bool {
        self.log.borrow_mut().push((UNMAP, start, size));
        !self.fail_unmap
    }

    fn protect(&self, start: usize, size: usize, _new_flags: u8, _page_table: &mut u32) -> bool {
        self.log.borrow_mut().push((PROTECT, start, size));
        true
    }
}

const RW: u8 = 3;
const RX: u8 = 5;

fn area(start: usize, end: usize, flags: u8, backend: &MockBackend) -> MemoryArea<MockBackend> {
    MemoryArea::new(start, end - start, None, flags, backend.clone())
}

fn bounds(set: &MemorySet<MockBackend>) -> Vec<(usize, usize, u8)> {
    let mut v = Vec::new();
    for a in set.iter() {
        v.push((a.start(), a.end(), a.flags()));
    }
    v
}

#[test]
fn split_in_middle_unmap() {
    let backend = MockBackend::new(false);
    let mut set: MemorySet<MockBackend> = MemorySet::new();
    let mut pt: u32 = 0;
    set.map(area(0x1000, 0x5000, RW, &backend), &mut pt, false, None).unwrap();
    backend.log.borrow_mut().clear();
    set.unmap(0x2000, 0x2000, &mut pt).unwrap();
    assert_eq!(bounds(&set), vec![(0x1000, 0x2000, RW), (0x4000, 0x5000, RW)]);
    assert_eq!(backend.log.borrow().clone(), vec![(UNMAP, 0x2000, 0x2000)]);
}

#[test]
fn spanning_unmap() {
    let backend = MockBackend::new(false);
    let mut set: MemorySet<MockBackend> = MemorySet::new();
    let mut pt: u32 = 0;
    set.map(area(0x1000, 0x3000, RW, &backend), &mut pt, false, None).unwrap();
    set.map(area(0x3000, 0x5000, RW, &backend), &mut pt, false, None).unwrap();
    set.map(area(0x6000, 0x8000, RW, &backend), &mut pt, false, None).unwrap();
    set.unmap(0x2000, 0x5000, &mut pt).unwrap();
    assert_eq!(bounds(&set), vec![(0x1000, 0x2000, RW), (0x7000, 0x8000, RW)]);
}

#[test]
fn protect_middle() {
    let backend = MockBackend::new(false);
    let mut set: MemorySet<MockBackend> = MemorySet::new();
    let mut pt: u32 = 0;
    set.map(area(0x0, 0x10000, RW, &backend), &mut pt, false, None).unwrap();
    set.protect(0x4000, 0x4000, |_f: u8| Some(RX), &mut pt).unwrap();
    assert_eq!(
        bounds(&set),
        vec![(0x0, 0x4000, RW), (0x4000, 0x8000, RX), (0x8000, 0x10000, RW)],
    );
}

#[test]
fn first_fit_free_area() {
    let backend = MockBackend::new(false);
    let mut set: MemorySet<MockBackend> = MemorySet::new();
    let mut pt: u32 = 0;
    set.map(area(0x1000, 0x2000, RW, &backend), &mut pt, false, None).unwrap();
    set.map(area(0x3000, 0x4000, RW, &backend), &mut pt, false, None).unwrap();
    let limit = AddrRange::new(0x0, 0x10000);
    assert_eq!(set.find_free_area(0x0, 0x1000, limit), Some(0x0));
    assert_eq!(set.find_free_area(0x1000, 0x1000, limit), Some(0x2000));
    assert_eq!(set.find_free_area(0x1000, 0x2000, limit), Some(0x4000));
}

#[test]
fn raii_frame_accounting() {
    let backend = MockBackend::new(true);
    let mut pt: u32 = 0;
    let mut a = area(0x1000, 0x4000, RW, &backend);
    a.map_area(&mut pt, None).unwrap();
    assert_eq!(a.frames_count(), 3);
    let r2 = a.find_frame(0x2000).unwrap();
    let r3 = a.find_frame(0x3000).unwrap();
    assert_eq!(Rc::strong_count(&r2), 2);
    a.shrink_right(0x1000, &mut pt).unwrap();
    assert_eq!(a.frames_count(), 1);
    assert_eq!((a.start(), a.end()), (0x1000, 0x2000));
    // the area dropped its references to the cut-off pages
    assert_eq!(Rc::strong_count(&r2), 1);
    assert_eq!(Rc::strong_count(&r3), 1);
    assert!(a.find_frame(0x1000).is_some());
    assert!(a.find_frame(0x2000).is_none());
}

#[test]
fn overlapping_map_without_permission() {
    let backend = MockBackend::new(false);
    let mut set: MemorySet<MockBackend> = MemorySet::new();
    let mut pt: u32 = 0;
    set.map(area(0x1000, 0x3000, RW, &backend), &mut pt, false, None).unwrap();
    let r = set.map(area(0x2000, 0x4000, RW, &backend), &mut pt, false, None);
    assert_eq!(r, Err(MappingError::AlreadyExists));
    assert_eq!(bounds(&set), vec![(0x1000, 0x3000, RW)]);
}

#[test]
fn map_unmap_round_trip() {
    let backend = MockBackend::new(false);
    let mut set: MemorySet<MockBackend> = MemorySet::new();
    let mut pt: u32 = 0;
    set.map(area(0x1000, 0x2000, RW, &backend), &mut pt, false, None).unwrap();
    set.map(area(0x8000, 0xa000, RX, &backend), &mut pt, false, None).unwrap();
    let before = bounds(&set);
    set.map(area(0x4000, 0x6000, RW, &backend), &mut pt, false, None).unwrap();
    assert_eq!(set.len(), 3);
    set.unmap(0x4000, 0x2000, &mut pt).unwrap();
    assert_eq!(bounds(&set), before);
}

#[test]
fn protect_identity_is_noop() {
    let backend = MockBackend::new(false);
    let mut set: MemorySet<MockBackend> = MemorySet::new();
    let mut pt: u32 = 0;
    set.map(area(0x1000, 0x5000, RW, &backend), &mut pt, false, None).unwrap();
    set.protect(0x2000, 0x1000, |_f: u8| None, &mut pt).unwrap();
    assert_eq!(bounds(&set), vec![(0x1000, 0x5000, RW)]);
    assert_eq!(set.len(), 1);
}

#[test]
fn split_then_reinsert_covers_the_same() {
    let backend = MockBackend::new(false);
    let mut pt: u32 = 0;
    let mut set: MemorySet<MockBackend> = MemorySet::new();
    let mut a = area(0x1000, 0x5000, RW, &backend);
    a.map_area(&mut pt, None).unwrap();
    let right = a.split(0x3000).unwrap();
    assert_eq!((a.start(), a.end()), (0x1000, 0x3000));
    assert_eq!((right.start(), right.end()), (0x3000, 0x5000));
    assert_eq!(right.flags(), RW);
    set.insert(a, false).unwrap();
    set.insert(right, false).unwrap();
    assert_eq!(bounds(&set), vec![(0x1000, 0x3000, RW), (0x3000, 0x5000, RW)]);
    for addr in [0x1000, 0x2fff, 0x3000, 0x4fff] {
        assert!(set.find(addr).is_some());
    }
    assert!(set.find(0x0fff).is_none());
    assert!(set.find(0x5000).is_none());
}
