use gcmalloc::collector::{AllocError, Collector, DebugFlags, Finalizer};
use gcmalloc::gc::{BlockMetadata, Colour, GcBox};
use gcmalloc::handle::Gc;
use gcmalloc::index::{Block, IndexError, MetadataIndex, PtrInfo};

const TAG_STR: u64 = 1;
const TAG_USIZE: u64 = 2;
const TAG_NODE: u64 = 3;
const DROP_INCR: u64 = 0x1000;

fn words_of(text: &str) -> Vec<usize> {
    text.bytes().map(|b| b as usize).collect()
}

fn node(c: &mut Collector, name: char) -> Gc<usize> {
    Gc::new(c, vec![name as usize, 0], TAG_NODE, 0, &vec![]).unwrap()
}

#[test]
fn test_nonnull_opt() {
    assert_eq!(std::mem::size_of::<Option<Gc<usize>>>(), std::mem::size_of::<usize>())
}

#[test]
fn auto_collection() {
    let mut c = Collector::new(usize::MAX);
    let threshold = 5;
    c.set_threshold(threshold);
    let x: Gc<String> = Gc::new(&mut c, words_of("Hello World"), TAG_STR, 0, &vec![]).unwrap();
    assert!(!c.is_black(x.as_ptr()));
    let roots = vec![x.as_ptr()];
    for _ in 0..threshold {
        let _y: Gc<usize> = Gc::new(&mut c, vec![123], TAG_USIZE, 0, &roots).unwrap();
    }
    assert!(c.is_black(x.as_ptr()));
}

#[test]
fn multiple_collections() {
    let mut c = Collector::new(usize::MAX);
    let y: Gc<usize> = Gc::new(&mut c, vec![456], TAG_USIZE, 0, &vec![]).unwrap();
    let roots = vec![y.as_ptr()];
    assert!(c.collect(&roots));
    assert!(c.is_black(y.as_ptr()));

    c.debug_flags(DebugFlags::new().mark_phase(false).sweep_phase(false));
    assert!(c.collect(&roots));
    assert!(!c.is_black(y.as_ptr()));

    c.debug_flags(DebugFlags::new());
    assert!(c.collect(&roots));
    assert!(c.is_black(y.as_ptr()));
}

#[test]
fn no_drop_live_inner() {
    let mut c = Collector::new(usize::MAX);
    c.debug_flags(DebugFlags::new().mark_phase(false));
    let inner: Gc<usize> = Gc::new(&mut c, vec![0], TAG_USIZE, DROP_INCR, &vec![]).unwrap();
    let outer: Gc<usize> = Gc::new(&mut c, vec![0, inner.as_ptr()], TAG_NODE, DROP_INCR, &vec![]).unwrap();
    let kept_alive = vec![inner.as_ptr()];
    assert!(c.collect(&kept_alive));
    let fins = c.take_finalizers();
    let counter = fins.iter().filter(|f| f.drop_vptr == DROP_INCR).count();
    assert_eq!(counter, 1);
    assert_eq!(fins[0], Finalizer { base: outer.as_ptr(), drop_vptr: DROP_INCR });
    assert_eq!(inner.read(&c, 0), Some(0));
    assert_eq!(outer.read(&c, 0), None);
}

#[test]
fn simple_cyclic_objgraph() {
    let mut c = Collector::new(usize::MAX);
    c.debug_flags(DebugFlags::new().sweep_phase(false));
    let a = node(&mut c, 'a');
    let b = node(&mut c, 'b');
    let d = node(&mut c, 'c');
    assert!(a.write(&mut c, 1, b.as_ptr()));
    assert!(b.write(&mut c, 1, d.as_ptr()));
    assert!(d.write(&mut c, 1, a.as_ptr()));
    assert!(c.collect(&vec![a.as_ptr()]));

    let mut cur = a;
    for expected in ['a', 'b', 'c', 'a'] {
        assert_eq!(cur.read(&c, 0), Some(expected as usize));
        assert!(c.is_black(cur.as_ptr()));
        let next = cur.read(&c, 1).unwrap();
        cur = Gc::from_addr(next).unwrap();
    }
}

#[test]
fn unreachable_object_is_swept_and_released() {
    let mut c = Collector::new(usize::MAX);
    let live: Gc<usize> = Gc::new(&mut c, vec![7], TAG_USIZE, 0x10, &vec![]).unwrap();
    let dead: Gc<usize> = Gc::new(&mut c, vec![8, 9], TAG_USIZE, 0x20, &vec![]).unwrap();
    assert!(c.collect(&vec![live.as_ptr(), 12345]));
    assert_eq!(c.take_finalizers(), vec![Finalizer { base: dead.as_ptr(), drop_vptr: 0x20 }]);
    assert_eq!(c.take_finalizers(), vec![]);
    assert_eq!(c.index.len(), 1);
    assert!(c.is_black(live.as_ptr()));
    assert!(!c.is_black(dead.as_ptr()));
    assert_eq!(dead.read(&c, 0), None);
    assert!(c.collect(&vec![live.as_ptr()]));
    assert!(c.take_finalizers().is_empty());
}

#[test]
fn interior_words_are_roots() {
    let mut c = Collector::new(usize::MAX);
    let x: Gc<usize> = Gc::new(&mut c, vec![1, 2, 3], TAG_USIZE, 0, &vec![]).unwrap();
    assert!(c.collect(&vec![x.as_ptr() + 2]));
    assert!(c.is_black(x.as_ptr()));
    assert!(c.is_black(x.as_ptr() + 1));
    assert!(!c.is_black(x.as_ptr() + 3));
}

#[test]
fn unmanaged_blocks_are_scanned_not_coloured() {
    let mut c = Collector::new(usize::MAX);
    let x: Gc<usize> = Gc::new(&mut c, vec![5], TAG_USIZE, 0x30, &vec![]).unwrap();
    let table = c.register_unmanaged(vec![0, x.as_ptr()]).unwrap();
    assert!(c.collect(&vec![table]));
    assert!(c.is_black(x.as_ptr()));
    assert!(!c.is_black(table));
    assert_eq!(c.load(table + 1), Some(x.as_ptr()));
    assert!(c.take_finalizers().is_empty());
    assert!(c.collect(&vec![]));
    assert_eq!(c.take_finalizers(), vec![Finalizer { base: x.as_ptr(), drop_vptr: 0x30 }]);
    assert_eq!(c.load(table), Some(0));
}

#[test]
fn fresh_objects_start_white() {
    let mut c = Collector::new(usize::MAX);
    let x: Gc<usize> = Gc::new(&mut c, vec![1], TAG_USIZE, 0, &vec![]).unwrap();
    assert!(c.collect(&vec![x.as_ptr()]));
    let y: Gc<usize> = Gc::new(&mut c, vec![2], TAG_USIZE, 0, &vec![]).unwrap();
    assert!(c.is_black(x.as_ptr()));
    assert!(!c.is_black(y.as_ptr()));
    assert_eq!(y.as_ptr(), x.as_ptr() + 2);
}

#[test]
fn allocation_errors() {
    let mut c = Collector::new(usize::MAX);
    let empty: Result<Gc<usize>, AllocError> = Gc::new(&mut c, vec![], TAG_USIZE, 0, &vec![]);
    assert_eq!(empty.err(), Some(AllocError::EmptyPayload));
    assert_eq!(c.register_unmanaged(vec![]), Err(AllocError::EmptyPayload));
    assert_eq!(c.index.len(), 0);
}

#[test]
fn allocation_counter_resets_after_cycle() {
    let mut c = Collector::new(2);
    let a: Gc<usize> = Gc::new(&mut c, vec![1, 2, 3], TAG_USIZE, 0, &vec![]).unwrap();
    assert_eq!(c.allocated, 3);
    assert!(c.collection_due());
    let _b: Gc<usize> = Gc::new(&mut c, vec![4], TAG_USIZE, 0, &vec![a.as_ptr()]).unwrap();
    assert_eq!(c.allocated, 1);
    assert!(!c.collection_due());
    assert!(c.is_black(a.as_ptr()));
}

#[test]
fn downcast_matches_type_tag() {
    let mut c = Collector::new(usize::MAX);
    let erased: Gc<()> = Gc::new(&mut c, vec![42], TAG_USIZE, 0, &vec![]).unwrap();
    let narrowed: Result<Gc<usize>, Gc<()>> = erased.downcast(&c, TAG_USIZE);
    let g = narrowed.ok().unwrap();
    assert_eq!(g.as_ptr(), erased.as_ptr());
    assert_eq!(g.read(&c, 0), Some(42));
    let wrong: Result<Gc<String>, Gc<()>> = erased.downcast(&c, TAG_STR);
    assert_eq!(wrong.err().unwrap().as_ptr(), erased.as_ptr());
}

#[test]
fn handle_copy_and_null() {
    let h: Gc<usize> = Gc::from_addr(17).unwrap();
    let k = h;
    assert_eq!(k.as_ptr(), h.as_ptr());
    assert_eq!(h.clone().as_ptr(), 17);
    assert!(Gc::<usize>::from_addr(0).is_none());
}

fn block(base: usize, words: Vec<usize>) -> Block {
    Block {
        info: PtrInfo { base, size: words.len(), is_managed: true },
        gcbox: GcBox::new(BlockMetadata::fresh(true), 0, words),
    }
}

#[test]
fn index_insert_find_remove() {
    let mut idx = MetadataIndex::new();
    assert_eq!(idx.insert(block(10, vec![0; 5])), Ok(0));
    assert_eq!(idx.insert(block(30, vec![0; 2])), Ok(1));
    assert_eq!(idx.insert(block(20, vec![0; 10])), Ok(1));
    assert_eq!(idx.insert(block(14, vec![0; 3])), Err(IndexError::Overlap));
    assert_eq!(idx.insert(block(29, vec![0; 1])), Err(IndexError::Overlap));
    assert_eq!(idx.len(), 3);
    assert_eq!(idx.find(9), None);
    assert_eq!(idx.find(10), Some(0));
    assert_eq!(idx.find(14), Some(0));
    assert_eq!(idx.find(15), None);
    assert_eq!(idx.find(29), Some(1));
    assert_eq!(idx.find(31), Some(2));
    assert_eq!(idx.find(32), None);
    assert!(idx.remove(21).is_none());
    assert_eq!(idx.remove(20).unwrap().info.base, 20);
    assert_eq!(idx.find(25), None);
    assert_eq!(idx.find(30), Some(1));
}

#[test]
fn drop_guard_runs_once() {
    let mut b = GcBox::new(BlockMetadata::fresh(true), 0, vec![1]);
    assert_eq!(b.colour(true), Colour::White);
    assert!(b.begin_drop(true));
    assert!(b.metadata().dropped);
    assert!(!b.begin_drop(true));
    let mut black = GcBox::new(BlockMetadata::fresh(true), 0, vec![1]);
    black.set_colour(Colour::Black, true);
    assert_eq!(black.colour(true), Colour::Black);
    assert_eq!(black.colour(false), Colour::White);
    assert!(!black.begin_drop(true));
    assert!(!black.metadata().dropped);
}

#[test]
fn header_fields() {
    let mut b = GcBox::new(BlockMetadata::fresh(false), 9, vec![]);
    assert_eq!(b.metadata(), BlockMetadata { mark_bit: true, dropped: false, drop_vptr: 0 });
    b.set_drop_vptr(0xabc);
    assert_eq!(b.drop_vptr(), 0xabc);
    b.set_dropped(true);
    assert_eq!(b.metadata(), BlockMetadata { mark_bit: true, dropped: true, drop_vptr: 0xabc });
    b.set_colour(Colour::White, true);
    assert_eq!(b.metadata().mark_bit, false);
}

#[test]
fn two_full_collections_keep_reachable_black() {
    let mut c = Collector::new(usize::MAX);
    let a: Gc<usize> = Gc::new(&mut c, vec![0], TAG_NODE, 0, &vec![]).unwrap();
    let b: Gc<usize> = Gc::new(&mut c, vec![0], TAG_NODE, 0, &vec![]).unwrap();
    assert!(a.write(&mut c, 0, b.as_ptr()));
    let roots = vec![a.as_ptr()];
    let polarity = c.current_black;
    assert!(c.collect(&roots));
    assert!(c.is_black(a.as_ptr()) && c.is_black(b.as_ptr()));
    assert_eq!(c.current_black, !polarity);
    assert!(c.collect(&roots));
    assert!(c.is_black(a.as_ptr()) && c.is_black(b.as_ptr()));
    assert_eq!(c.current_black, polarity);
    assert!(c.take_finalizers().is_empty());
}
