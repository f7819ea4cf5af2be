use basm::fallback::FallbackAllocator;

fn fill(a: &mut FallbackAllocator, p: usize, n: usize, seed: u8) {
    for k in 0..n {
        a.set_byte(p + k, seed.wrapping_add(k as u8));
    }
}

fn holds(a: &FallbackAllocator, p: usize, n: usize, seed: u8) -> bool {
    (0..n).all(|k| a.byte_at(p + k) == seed.wrapping_add(k as u8))
}

#[test]
fn allocate_aligns_and_separates_blocks() {
    let mut a = FallbackAllocator::new();
    let p = a.allocate(10, 16);
    let q = a.allocate(10, 16);
    assert_ne!(0, p);
    assert_ne!(0, q);
    assert_eq!(0, p % 16);
    assert_eq!(0, q % 16);
    assert!(p + 10 <= q || q + 10 <= p);
    assert!(a.memory_len() >= 65536);
}

#[test]
fn allocate_too_large_returns_null() {
    let mut a = FallbackAllocator::new();
    assert_eq!(0, a.allocate(usize::MAX / 2, 8));
    assert_eq!(0, a.memory_len());
}

#[test]
fn round_trip_keeps_other_blocks() {
    let mut a = FallbackAllocator::new();
    let keep = a.allocate(100, 8);
    fill(&mut a, keep, 100, 3);
    let p = a.allocate(50, 32);
    fill(&mut a, p, 50, 200);
    a.deallocate(p, 50, 32);
    let q = a.allocate(64, 4);
    fill(&mut a, q, 64, 90);
    assert!(holds(&a, keep, 100, 3));
    assert!(q + 64 <= keep || keep + 100 <= q);
}

#[test]
fn zeroed_block_is_all_zero() {
    let mut a = FallbackAllocator::new();
    let p = a.allocate(256, 8);
    fill(&mut a, p, 256, 1);
    a.deallocate(p, 256, 8);
    for align in [1usize, 2, 4, 8, 16, 32] {
        let z = a.allocate_zeroed(200, align);
        assert_ne!(0, z);
        assert_eq!(0, z % align);
        assert!((0..200).all(|k| a.byte_at(z + k) == 0));
        a.deallocate(z, 200, align);
    }
}

#[test]
fn realloc_shrink_keeps_prefix() {
    let mut a = FallbackAllocator::new();
    let p = a.allocate(64, 8);
    fill(&mut a, p, 64, 10);
    let q = a.reallocate(p, 64, 8, 16);
    assert_eq!(p, q);
    assert!(holds(&a, q, 16, 10));
}

#[test]
fn realloc_grow_keeps_old_bytes() {
    let mut a = FallbackAllocator::new();
    let p = a.allocate(32, 1);
    fill(&mut a, p, 32, 40);
    let blocker = a.allocate(8, 1);
    assert_eq!(p + 32, blocker);
    fill(&mut a, blocker, 8, 7);
    let q = a.reallocate(p, 32, 16, 4000);
    assert_ne!(0, q);
    assert_ne!(p, q);
    assert_eq!(0, q % 16);
    assert!(holds(&a, q, 32, 40));
    assert!(holds(&a, blocker, 8, 7));
    let r = a.reallocate(q, 4000, 16, 4096);
    assert!(holds(&a, r, 32, 40));
}

#[test]
fn interleaved_blocks_never_overlap() {
    let mut a = FallbackAllocator::new();
    let aligns = [1usize, 2, 4, 8, 16, 32];
    let mut live: Vec<(usize, usize, usize, u8)> = Vec::new();
    let mut state: u32 = 12345;
    for step in 0..400u32 {
        state = state.wrapping_mul(1103515245).wrapping_add(12345);
        let size = (state >> 8) as usize % 4096 + 1;
        let align = aligns[(state >> 4) as usize % 6];
        if live.len() > 0 && state % 3 == 0 {
            let idx = (state as usize >> 12) % live.len();
            let (p, n, al, seed) = live.swap_remove(idx);
            assert!(holds(&a, p, n, seed));
            a.deallocate(p, n, al);
        } else {
            let p = a.allocate(size, align);
            assert_ne!(0, p);
            assert_eq!(0, p % align);
            let seed = step as u8;
            fill(&mut a, p, size, seed);
            live.push((p, size, align, seed));
        }
        for i in 0..live.len() {
            for j in i + 1..live.len() {
                let (p, n, _, _) = live[i];
                let (q, m, _, _) = live[j];
                assert!(p + n <= q || q + m <= p);
            }
        }
    }
    for (p, n, _, seed) in live {
        assert!(holds(&a, p, n, seed));
    }
}
