use secmem_alloc::zeroize::{
    asm_barier_zeroize_mem, fallback_zeroize_mem, nightly_zeroize_mem, DefaultMemZeroizer,
    MemZeroizer, MemsetAsmBarierZeroizer, VolatileMemsetZeroizer, VolatileWrite8Zeroizer,
};

fn test_b127_zeroizer(z: fn(&mut [u8], usize, usize)) {
    let mut array: [u8; 127] = [0xAF; 127];
    z(&mut array[..], 0, 127);
    assert_eq!(array, [0u8; 127]);
}

fn test_b239_lowalign_zeroizer(z: fn(&mut [u8], usize, usize)) {
    // 30 words of 8 bytes; everything but the first byte is wiped, so the
    // range starts 1-byte aligned
    let mut array: [u8; 240] = [0xAF; 240];
    z(&mut array[..], 1, 30 * 8 - 1);
    let mut expected: [u8; 240] = [0; 240];
    expected[0] = 0xAF;
    assert_eq!(&array[..], &expected[..]);
}

#[test]
fn test_b127_nightly_zeroizer() {
    test_b127_zeroizer(nightly_zeroize_mem);
}

#[test]
fn test_b127_asm_barier_zeroizer() {
    test_b127_zeroizer(asm_barier_zeroize_mem);
}

#[test]
fn test_b127_fallback_zeroizer() {
    test_b127_zeroizer(fallback_zeroize_mem);
}

#[test]
fn test_b239_lowalign_volatile_memset_zeroizer() {
    test_b239_lowalign_zeroizer(nightly_zeroize_mem);
}

#[test]
fn test_b239_lowalign_asm_barier_zeroizer() {
    test_b239_lowalign_zeroizer(asm_barier_zeroize_mem);
}

#[test]
fn test_b239_lowalign_fallback_zeroizer() {
    test_b239_lowalign_zeroizer(fallback_zeroize_mem);
}

const LENS: [usize; 15] = [0, 1, 3, 4, 7, 8, 15, 16, 31, 32, 63, 64, 127, 128, 1024];
const ALIGNS: [usize; 7] = [1, 2, 4, 8, 16, 32, 64];

/// Fills a buffer with a non-zero pattern, wipes `len` bytes at `start`
/// and checks exactly that range became zero.
fn check_round_trip(wipe: &dyn Fn(&mut [u8], usize, usize)) {
    for &len in LENS.iter() {
        for &start in ALIGNS.iter() {
            let total = start + len + 64;
            let mut buf: Vec<u8> = (0..total).map(|i| (i % 251) as u8 | 1).collect();
            let before = buf.clone();
            wipe(&mut buf[..], start, len);
            for i in 0..total {
                if i >= start && i < start + len {
                    assert_eq!(buf[i], 0, "len {} start {} byte {}", len, start, i);
                } else {
                    assert_eq!(buf[i], before[i], "len {} start {} byte {}", len, start, i);
                }
            }
        }
    }
}

#[test]
fn round_trip_volatile_memset_zeroizer() {
    check_round_trip(&|m, s, l| VolatileMemsetZeroizer.zeroize_mem(m, s, l));
}

#[test]
fn round_trip_memset_asm_barier_zeroizer() {
    check_round_trip(&|m, s, l| MemsetAsmBarierZeroizer.zeroize_mem(m, s, l));
}

#[test]
fn round_trip_volatile_write8_zeroizer() {
    check_round_trip(&|m, s, l| VolatileWrite8Zeroizer.zeroize_mem(m, s, l));
}

#[test]
fn round_trip_default_zeroizer() {
    check_round_trip(&|m, s, l| DefaultMemZeroizer::default().zeroize_mem(m, s, l));
}

#[test]
fn round_trip_free_functions() {
    check_round_trip(&|m, s, l| nightly_zeroize_mem(m, s, l));
    check_round_trip(&|m, s, l| asm_barier_zeroize_mem(m, s, l));
    check_round_trip(&|m, s, l| fallback_zeroize_mem(m, s, l));
}

#[test]
fn volatile_write8_blocks_with_hints() {
    // start 8-aligned and length a multiple of 8: the block path alone
    let mut buf = vec![0x5Au8; 80];
    VolatileWrite8Zeroizer.zeroize_mem_blocks(&mut buf[..], 8, 64, 3, 3);
    assert!(buf[..8].iter().all(|b| *b == 0x5A));
    assert!(buf[8..72].iter().all(|b| *b == 0));
    assert!(buf[72..].iter().all(|b| *b == 0x5A));
    // start 8-aligned, length 7 past a block: one 4-byte block and 3 bytes
    let mut buf = vec![0x5Au8; 40];
    VolatileWrite8Zeroizer.zeroize_mem_blocks(&mut buf[..], 16, 15, 3, 0);
    assert!(buf[..16].iter().all(|b| *b == 0x5A));
    assert!(buf[16..31].iter().all(|b| *b == 0));
    assert!(buf[31..].iter().all(|b| *b == 0x5A));
}

#[test]
fn zeroize_mem_minaligned_wipes_range() {
    let mut buf = vec![0x11u8; 48];
    VolatileWrite8Zeroizer.zeroize_mem_minaligned(&mut buf[..], 16, 20, 16);
    assert!(buf[..16].iter().all(|b| *b == 0x11));
    assert!(buf[16..36].iter().all(|b| *b == 0));
    assert!(buf[36..].iter().all(|b| *b == 0x11));
    let mut buf = vec![0x11u8; 10];
    MemsetAsmBarierZeroizer.zeroize_mem_minaligned(&mut buf[..], 3, 5, 1);
    assert_eq!(buf, vec![0x11, 0x11, 0x11, 0, 0, 0, 0, 0, 0x11, 0x11]);
}
