use ootr::rom_build::{hex_string, normalize_line_endings, rom_changes, rom_patch_line, UnequalChunks, CHUNK_SIZE};

#[test]
fn line_endings_are_normalized() {
    assert_eq!(normalize_line_endings(b"a\r\nb\nc\x1a"), b"a\nb\nc".to_vec());
    assert_eq!(normalize_line_endings(b"\r\r\n\x1a\r"), b"\r\n\r".to_vec());
    assert_eq!(normalize_line_endings(b""), Vec::<u8>::new());
}

#[test]
fn equal_roms_have_no_unequal_chunks() {
    let rom = vec![7u8; 3 * CHUNK_SIZE + 5];
    let mut chunks = UnequalChunks::new(&rom, &rom);
    assert!(chunks.next().is_none());
    assert!(chunks.next().is_none());
}

#[test]
fn unequal_chunks_are_found_in_order() {
    let base = vec![0u8; 3 * CHUNK_SIZE];
    let mut patched = base.clone();
    patched[CHUNK_SIZE + 1] = 1;
    patched[2 * CHUNK_SIZE + 7] = 2;
    let mut chunks = UnequalChunks::new(&base, &patched);
    let (addr, w1, w2) = chunks.next().unwrap();
    assert_eq!(addr, CHUNK_SIZE);
    assert_eq!(w1.len(), CHUNK_SIZE - 3);
    assert_eq!(w2[0], 0x0001_0000);
    assert_eq!(w2[1], 0x0100_0000);
    assert_eq!(w2[2], 0);
    assert_eq!(chunks.next().unwrap().0, 2 * CHUNK_SIZE);
    assert!(chunks.next().is_none());
}

#[test]
fn changed_words_of_roms() {
    let base = vec![0u8; 2 * CHUNK_SIZE];
    let mut patched = base.clone();
    patched[CHUNK_SIZE + 8] = 0xab;
    let changes = rom_changes(&base, &patched);
    // The words overlap byte by byte, and each is listed at four times its index in the chunk.
    assert_eq!(
        changes,
        vec![
            (CHUNK_SIZE + 4 * 5, 0x0000_00ab),
            (CHUNK_SIZE + 4 * 6, 0x0000_ab00),
            (CHUNK_SIZE + 4 * 7, 0x00ab_0000),
            (CHUNK_SIZE + 4 * 8, 0xab00_0000),
        ]
    );
}

#[test]
fn patch_lines_are_lowercase_hex() {
    assert_eq!(rom_patch_line(0x1000, 0xdeadbeef), "1000,deadbeef\n");
    assert_eq!(rom_patch_line(0, 0), "0,0\n");
    assert_eq!(hex_string(255), "ff");
    assert_eq!(hex_string(16), "10");
}
