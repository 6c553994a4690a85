use cons_heap::grammar::{Number, Pair};
use cons_heap::header::Header;
use cons_heap::memory::{MemError, Memory};
use cons_heap::printer::render;

#[test]
fn test_pair() {
    let mut mem = Memory::new(1000);
    let ptr = Pair::new(&mut mem).unwrap();
    let n = Number::new(&mut mem, 42).unwrap();
    Pair::set_car(&mut mem, &ptr, &n.any());
    Pair::set_cdr(&mut mem, &ptr, &n.any());

    let pai = ptr.any().cast::<Pair>(&mem).unwrap();
    assert!(Pair::car(&mem, &pai).get().unwrap().equal(&n));
    assert!(Pair::cdr(&mem, &pai).get().unwrap().equal(&n));
    let car_num = Pair::car(&mem, &pai)
        .get()
        .unwrap()
        .cast::<Number>(&mem)
        .unwrap();
    assert!(Number::value(&mem, &car_num) == 42);
}

#[test]
fn tag_and_cast() {
    let mut mem = Memory::new(100);
    let p = Pair::new(&mut mem).unwrap();
    let n = Number::new(&mut mem, 7).unwrap();
    assert_eq!(p.tag(&mem), 1);
    assert_eq!(n.tag(&mem), 0);
    assert!(p.any().cast::<Pair>(&mem).is_ok());
    assert_eq!(
        p.any().cast::<Number>(&mem).unwrap_err(),
        MemError::TypeMismatch
    );
    assert!(n.any().cast::<Number>(&mem).is_ok());
    assert_eq!(
        n.any().cast::<Pair>(&mem).unwrap_err(),
        MemError::TypeMismatch
    );
    assert!(p.any().equal(&p));
    assert!(!p.equal(&n));
}

#[test]
fn allocation_accounting() {
    let mut mem = Memory::new(100);
    assert_eq!(mem.capacity(), 100);
    assert_eq!(mem.used(), 0);
    assert_eq!(mem.remaining(), 100);
    Number::new(&mut mem, 5).unwrap();
    assert_eq!(mem.used(), 2);
    Pair::new(&mut mem).unwrap();
    assert_eq!(mem.used(), 5);
    Number::new(&mut mem, 6).unwrap();
    assert_eq!(mem.used(), 7);
    assert_eq!(mem.remaining(), 93);
}

#[test]
fn out_of_memory_leaves_arena_unchanged() {
    let mut mem = Memory::new(7);
    Number::new(&mut mem, 1).unwrap();
    Number::new(&mut mem, 2).unwrap();
    Number::new(&mut mem, 3).unwrap();
    assert_eq!(mem.used(), 6);
    assert_eq!(mem.remaining(), 1);
    // the next request needs two words and must fail atomically
    let r = Number::new(&mut mem, 4);
    assert_eq!(r.unwrap_err(), MemError::OutOfMemory);
    assert_eq!(mem.used(), 6);
    assert_eq!(mem.remaining(), 1);
}

#[test]
fn collect_preserves_structure() {
    let mut mem = Memory::new(100);
    let one = Number::new(&mut mem, 1).unwrap();
    let two = Number::new(&mut mem, 2).unwrap();
    let p = Pair::new(&mut mem).unwrap();
    Pair::set_car(&mut mem, &p, &one.any());
    Pair::set_cdr(&mut mem, &p, &two.any());
    let mut roots = vec![p.any()];
    mem.collect(&mut roots, 100).unwrap();
    assert_eq!(mem.used(), 7);
    let s = render(&mem, &roots[0], 10).unwrap();
    assert_eq!(s, "(1 . 2)");
}

#[test]
fn collect_preserves_cycles() {
    let mut mem = Memory::new(100);
    let one = Number::new(&mut mem, 1).unwrap();
    let p = Pair::new(&mut mem).unwrap();
    Pair::set_car(&mut mem, &p, &one.any());
    Pair::set_cdr(&mut mem, &p, &p.any());
    let mut roots = vec![p.any()];
    mem.collect(&mut roots, 100).unwrap();
    assert_eq!(mem.used(), 5);
    let p2 = roots[0].cast::<Pair>(&mem).unwrap();
    // the cyclic edge still points at the pair itself, at its new address
    let cdr = Pair::cdr(&mem, &p2).get().unwrap();
    assert!(cdr.equal(&roots[0]));
    let car = Pair::car(&mem, &p2)
        .get()
        .unwrap()
        .cast::<Number>(&mem)
        .unwrap();
    assert_eq!(Number::value(&mem, &car), 1);
    // a cyclic graph cannot be rendered to completion
    assert!(render(&mem, &roots[0], 10).is_err());
}

#[test]
fn collect_reclaims_garbage() {
    let mut mem = Memory::new(100);
    let seven = Number::new(&mut mem, 7).unwrap();
    let pa = Pair::new(&mut mem).unwrap();
    let pb = Pair::new(&mut mem).unwrap();
    Pair::set_car(&mut mem, &pa, &seven.any());
    Pair::set_car(&mut mem, &pb, &seven.any());
    assert_eq!(mem.used(), 8);
    // root only one pair: the other is garbage
    let mut roots = vec![pa.any()];
    mem.collect(&mut roots, 100).unwrap();
    assert_eq!(mem.used(), 5);
    let pa2 = roots[0].cast::<Pair>(&mem).unwrap();
    let car = Pair::car(&mem, &pa2)
        .get()
        .unwrap()
        .cast::<Number>(&mem)
        .unwrap();
    assert_eq!(Number::value(&mem, &car), 7);
    let s = render(&mem, &Pair::car(&mem, &pa2).get().unwrap(), 10).unwrap();
    assert_eq!(s, "7");
}

#[test]
fn collect_preserves_sharing() {
    let mut mem = Memory::new(100);
    let seven = Number::new(&mut mem, 7).unwrap();
    let pa = Pair::new(&mut mem).unwrap();
    let pb = Pair::new(&mut mem).unwrap();
    Pair::set_car(&mut mem, &pa, &seven.any());
    Pair::set_car(&mut mem, &pb, &seven.any());
    let mut roots = vec![pa.any(), pb.any()];
    mem.collect(&mut roots, 100).unwrap();
    // one shared number plus two pairs
    assert_eq!(mem.used(), 8);
    let pa2 = roots[0].cast::<Pair>(&mem).unwrap();
    let pb2 = roots[1].cast::<Pair>(&mem).unwrap();
    let ca = Pair::car(&mem, &pa2).get().unwrap();
    let cb = Pair::car(&mem, &pb2).get().unwrap();
    // both cars address the very same relocated chunk
    assert!(ca.equal(&cb));
}

#[test]
fn invalid_root_is_rejected() {
    let mut mem = Memory::new(10);
    let n = Number::new(&mut mem, 1).unwrap();
    let stale = n.any();
    let mut roots = vec![n.any()];
    mem.collect(&mut roots, 10).unwrap();
    // a handle of the previous generation no longer belongs to the arena
    let mut bad = vec![stale];
    assert_eq!(mem.collect(&mut bad, 10), Err(MemError::InvalidRoot));
    // the failed pass changed nothing
    assert_eq!(mem.used(), 2);
    assert_eq!(bad.len(), 1);
}

#[test]
fn header_range_is_rejected() {
    let mut mem = Memory::new(10);
    let r = mem.allocate::<Pair>(u64::MAX - 10);
    assert_eq!(r.unwrap_err(), MemError::HeaderRange);
    assert_eq!(mem.used(), 0);
}

#[test]
fn empty_cell_access() {
    let mut mem = Memory::new(10);
    let p = Pair::new(&mut mem).unwrap();
    let car = Pair::car(&mem, &p);
    assert!(car.is_empty());
    assert!(car.get().is_none());
    assert_eq!(car.deref().unwrap_err(), MemError::EmptyCellAccess);
    // rendering a pair with an empty cell is the same loud failure
    assert_eq!(
        render(&mem, &p.any(), 10).unwrap_err(),
        MemError::EmptyCellAccess
    );
}

#[test]
fn header_codec_roundtrip() {
    let h = Header::initialize(true, 5, 9).unwrap();
    let w = h.encode();
    assert_eq!(Header::decode(w), h);
    let h2 = Header::initialize(false, 127, 3).unwrap();
    assert_eq!(Header::decode(h2.encode()), h2);
    // out-of-range tags and sizes are refused at construction
    assert!(Header::initialize(false, 128, 1).is_none());
    assert!(Header::initialize(false, 0, 0).is_none());
    assert!(Header::initialize(false, 0, 0x100_0000_0000_0000).is_none());
}

#[test]
fn collect_into_too_small_arena_fails_atomically() {
    let mut mem = Memory::new(100);
    let one = Number::new(&mut mem, 1).unwrap();
    let two = Number::new(&mut mem, 2).unwrap();
    let p = Pair::new(&mut mem).unwrap();
    Pair::set_car(&mut mem, &p, &one.any());
    Pair::set_cdr(&mut mem, &p, &two.any());
    let mut roots = vec![p.any()];
    // the live closure needs 7 words; a 4-word target cannot hold it
    assert_eq!(mem.collect(&mut roots, 4), Err(MemError::OutOfMemory));
    // arena and roots are untouched, and a proper pass still works
    assert_eq!(mem.used(), 7);
    assert_eq!(mem.capacity(), 100);
    assert!(roots[0].equal(&p));
    mem.collect(&mut roots, 7).unwrap();
    assert_eq!(mem.used(), 7);
    assert_eq!(mem.capacity(), 7);
    assert_eq!(render(&mem, &roots[0], 10).unwrap(), "(1 . 2)");
}
