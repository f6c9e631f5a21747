use ootr::patch::diff_roms;
use ootr::zpf::{DmaTableError, ZpfError, XOR_END, XOR_START};

/// A 16 MiB base rom whose DMA table holds only its own record, with keys in the XOR range.
fn test_base_rom() -> Vec<u8> {
    let mut rom = vec![0u8; 0x100_0000];
    rom[0x7430..0x7434].copy_from_slice(&0x7430u32.to_be_bytes());
    rom[0x7434..0x7438].copy_from_slice(&0x7440u32.to_be_bytes());
    for b in &mut rom[XOR_START..XOR_END] {
        *b = 0x11;
    }
    rom
}

fn header(xor_start: u32) -> Vec<u8> {
    let mut v = b"ZPFv1".to_vec();
    v.extend_from_slice(&0x7430u32.to_be_bytes());
    v.extend_from_slice(&(XOR_START as u32).to_be_bytes());
    v.extend_from_slice(&(XOR_END as u32).to_be_bytes());
    v.extend_from_slice(&xor_start.to_be_bytes());
    v
}

#[test]
fn zpf_of_one_changed_byte() {
    let base = test_base_rom();
    let mut patched = base.clone();
    patched[0x1000] = 0x22;
    let p = diff_roms(&base, &patched);
    let stream = p.write_zpf_with_xor_start(XOR_START).unwrap();
    let mut expected = header(XOR_START as u32);
    expected.extend_from_slice(&[0xff, 0xff]);
    expected.extend_from_slice(&[0x00, 0x00, 0x10, 0x00, 0x00, 0x01, 0x22 ^ 0x11]);
    assert_eq!(stream, expected);
}

#[test]
fn zpf_of_identical_roms_has_no_blocks() {
    let base = test_base_rom();
    let p = diff_roms(&base, &base);
    let stream = p.write_zpf_with_xor_start(XOR_START).unwrap();
    let mut expected = header(XOR_START as u32);
    expected.extend_from_slice(&[0xff, 0xff]);
    assert_eq!(stream, expected);
}

#[test]
fn zpf_keeps_zero_bytes_and_splits_far_blocks() {
    let base = test_base_rom();
    let mut patched = base.clone();
    patched[0x1000] = 0x05;
    patched[0x1002] = 0x06;
    patched[0x2000] = 0x07;
    let p = diff_roms(&base, &patched);
    let stream = p.write_zpf_with_xor_start(XOR_START).unwrap();
    let mut expected = header(XOR_START as u32);
    expected.extend_from_slice(&[0xff, 0xff]);
    // one block for 0x1000..0x1003 (the unchanged zero byte between is kept as zero)
    expected.extend_from_slice(&[0x00, 0x00, 0x10, 0x00, 0x00, 0x03, 0x05 ^ 0x11, 0x00, 0x06 ^ 0x11]);
    // another for 0x2000
    expected.extend_from_slice(&[0x00, 0x00, 0x20, 0x00, 0x00, 0x01, 0x07 ^ 0x11]);
    assert_eq!(stream, expected);
}

#[test]
fn zpf_changes_key_when_xor_would_be_zero() {
    let mut base = test_base_rom();
    base[XOR_START + 2] = 0x33;
    let mut patched = base.clone();
    patched[0x1000] = 0x11;
    let p = diff_roms(&base, &patched);
    let stream = p.write_zpf_with_xor_start(XOR_START).unwrap();
    let mut expected = header(XOR_START as u32);
    expected.extend_from_slice(&[0xff, 0xff]);
    // an empty first section, then a continued section that skipped one key
    expected.extend_from_slice(&[0x00, 0x00, 0x10, 0x00, 0x00, 0x00]);
    expected.extend_from_slice(&[0xff, 0x01, 0x00, 0x01, 0x11 ^ 0x33]);
    assert_eq!(stream, expected);
}

#[test]
fn zpf_random_key_start_is_in_range() {
    let base = test_base_rom();
    let mut patched = base.clone();
    patched[0x1000] = 0x22;
    let p = diff_roms(&base, &patched);
    let stream = p.write_zpf().unwrap();
    let xor_start = u32::from_be_bytes(stream[17..21].try_into().unwrap()) as usize;
    assert!((XOR_START..XOR_END).contains(&xor_start));
    assert_eq!(stream, p.write_zpf_with_xor_start(xor_start).unwrap());
}

#[test]
fn zpf_without_dma_table_record_fails() {
    let base = vec![0u8; 0x10000];
    let p = diff_roms(&base, &base);
    assert_eq!(p.write_zpf_with_xor_start(XOR_START), Err(ZpfError::DmaTable(DmaTableError)));
}

#[test]
fn zpf_reads_each_dma_record_in_place() {
    let mut base = test_base_rom();
    base[0x7434..0x7438].copy_from_slice(&0x7450u32.to_be_bytes());
    base[0x7440..0x7444].copy_from_slice(&0x1000u32.to_be_bytes());
    base[0x7444..0x7448].copy_from_slice(&0x2000u32.to_be_bytes());
    let p = diff_roms(&base, &base);
    let mut expected = header(XOR_START as u32);
    expected.extend_from_slice(&[0xff, 0xff]);
    assert_eq!(p.write_zpf_with_xor_start(XOR_START), Ok(expected));
}

#[test]
fn zpf_finds_the_table_record_after_another() {
    // The table's own record is the second one; the table lists three records, the last empty.
    let mut base = vec![0u8; 0x7460];
    base[0x7430..0x7434].copy_from_slice(&0x1000u32.to_be_bytes());
    base[0x7434..0x7438].copy_from_slice(&0x2000u32.to_be_bytes());
    base[0x7440..0x7444].copy_from_slice(&0x7430u32.to_be_bytes());
    base[0x7444..0x7448].copy_from_slice(&0x7460u32.to_be_bytes());
    let p = diff_roms(&base, &base);
    let mut expected = header(XOR_START as u32);
    expected.extend_from_slice(&[0xff, 0xff]);
    assert_eq!(p.write_zpf_with_xor_start(XOR_START), Ok(expected));
}

/// The next nonzero key of the key range after `a`, and its address.
fn next_key(base: &[u8], mut a: usize) -> (usize, u8) {
    loop {
        a = if a + 1 >= XOR_END { XOR_START } else { a + 1 };
        if base[a] != 0 {
            return (a, base[a]);
        }
    }
}

/// Writes the XOR blocks of `xor` over `rom`, with keys taken after `key_addr`.
fn apply_xor_blocks(base: &[u8], rom: &mut [u8], xor: &[u8], mut key_addr: usize) {
    let mut pos = 0;
    while pos < xor.len() {
        let mut cur = u32::from_be_bytes(xor[pos..pos + 4].try_into().unwrap()) as usize;
        pos += 4;
        loop {
            let len = u16::from_be_bytes(xor[pos..pos + 2].try_into().unwrap()) as usize;
            pos += 2;
            for &b in &xor[pos..pos + len] {
                rom[cur] = if b == 0 {
                    0
                } else {
                    let (a, k) = next_key(base, key_addr);
                    key_addr = a;
                    assert_ne!(b, k);
                    b ^ k
                };
                cur += 1;
            }
            pos += len;
            if pos < xor.len() && xor[pos] == 0xff {
                for _ in 0..xor[pos + 1] {
                    key_addr = next_key(base, key_addr).0;
                }
                pos += 2;
            } else {
                break;
            }
        }
    }
}

#[test]
fn zpf_blocks_decode_to_the_patched_rom() {
    let mut base = test_base_rom();
    for (i, b) in base[XOR_START..XOR_END].iter_mut().enumerate() {
        *b = ((i % 5) as u8) * 0x21;
    }
    let mut patched = base.clone();
    for i in 0..0x120usize {
        patched[0x1000 + i] = ((i * 0x21) % 0x85) as u8;
    }
    patched[0x1200] = 0x42;
    patched[0x30000] = 0x84;
    patched[0x30003] = 0x00;
    for xor_start in [XOR_START, XOR_START + 3, XOR_END - 2] {
        let p = diff_roms(&base, &patched);
        let stream = p.write_zpf_with_xor_start(xor_start).unwrap();
        assert_eq!(stream[..21], header(xor_start as u32)[..]);
        assert_eq!(stream[21..23], [0xff, 0xff]);
        let mut rom = base.clone();
        apply_xor_blocks(&base, &mut rom, &stream[23..], xor_start);
        assert!(rom == patched);
    }
}
