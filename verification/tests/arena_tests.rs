use memtable::arena::{Arena, ArenaPtr};
use memtable::random::Random;

#[test]
fn test_empty() {
    let _arena = Arena::new();
}

#[test]
fn test_simple() {
    let mut allocated: Vec<(usize, ArenaPtr)> = Vec::new();
    let mut arena = Arena::new();
    let n_rounds = 100000;
    let mut bytes = 0;
    let mut rnd = Random::new(301);
    for i in 0..n_rounds {
        let mut s;
        if i % (n_rounds / 10) == 0 {
            s = i;
        } else {
            s = if rnd.one_in(4000) {
                rnd.uniform(6000)
            } else {
                if rnd.one_in(10) {
                    rnd.uniform(100)
                } else {
                    rnd.uniform(20)
                }
            };
        }
        if s == 0 {
            // Our arena disallows size 0 allocation
            s = 1;
        }
        let r;
        if rnd.one_in(10) {
            r = arena.allocate_aligned(s as usize);
        } else {
            r = arena.allocate(s as usize);
        }
        for b in 0..s {
            // Fill the ''i'' th allocation with a known bit pattern
            arena.write(r, b as usize, (i % 256) as u8);
        }
        bytes += s;
        allocated.push((s as usize, r));
        assert!(arena.memory_usage() >= bytes as usize);
        if i > n_rounds / 10 {
            assert!(arena.memory_usage() as f64 <= f64::from(bytes) * 1.10);
        }
    }
    let mut i = 0;
    for (num_bytes, p) in allocated {
        for b in 0..num_bytes {
            assert_eq!(arena.read(p, b) & 0xff, (i % 256) as u8);
        }
        i += 1;
    }
}

#[test]
fn alignment_test() {
    // Every aligned allocation starts at a multiple of the pointer size.
    let mut arena = Arena::new();
    let mut rnd = Random::new(17);
    for _ in 0..500 {
        let s = 1 + rnd.uniform(50) as usize;
        if rnd.one_in(2) {
            let p = arena.allocate_aligned(s);
            assert_eq!(p.offset % 8, 0);
        } else {
            arena.allocate(s);
        }
    }
}

#[test]
fn fresh_arena_scenario_test() {
    // Two allocations from a fresh arena: valid, non-overlapping handles,
    // and at least the requested bytes accounted for.
    let mut arena = Arena::new();
    let a = arena.allocate(10);
    let b = arena.allocate(20);
    let overlap = a.block == b.block && a.offset < b.offset + 20 && b.offset < a.offset + 10;
    assert!(!overlap);
    assert!(arena.memory_usage() >= 30);
}

#[test]
fn no_disturb_test() {
    // Bytes written into one allocation survive later allocations.
    let mut arena = Arena::new();
    let a = arena.allocate(8);
    for i in 0..8 {
        arena.write(a, i, 0xAB);
    }
    // Force both fallback paths: an oversized and a standard refill.
    let _big = arena.allocate(3000);
    let _std = arena.allocate(900);
    let b = arena.allocate_aligned(16);
    for i in 0..16 {
        arena.write(b, i, 0xCD);
    }
    for i in 0..8 {
        assert_eq!(arena.read(a, i), 0xAB);
    }
    for i in 0..16 {
        assert_eq!(arena.read(b, i), 0xCD);
    }
}
