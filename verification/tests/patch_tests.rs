use ootr::patch::diff_roms;

#[test]
fn diff_roms_reads_patched_bytes() {
    let base: Vec<u8> = (0..16).collect();
    let mut patched = base.clone();
    patched[3] = 0xaa;
    patched[10] = 0xbb;
    let p = diff_roms(&base, &patched);
    for a in 0..16 {
        assert_eq!(p.index(a), patched[a]);
    }
    assert_eq!(p.base_rom(), &base[..]);
}

#[test]
fn diff_roms_shorter_patch_keeps_base_tail() {
    let base: Vec<u8> = vec![1, 2, 3, 4, 5, 6];
    let patched: Vec<u8> = vec![9, 9, 9];
    let p = diff_roms(&base, &patched);
    let bytes: Vec<u8> = (0..6).map(|a| p.index(a)).collect();
    assert_eq!(bytes, vec![9, 9, 9, 4, 5, 6]);
}

#[test]
fn slice_from_start_is_patched() {
    let base: Vec<u8> = vec![0; 8];
    let patched: Vec<u8> = vec![1, 2, 3, 4, 5, 6, 7, 8];
    let p = diff_roms(&base, &patched);
    assert_eq!(p.slice(0, 4), vec![1, 2, 3, 4]);
    assert_eq!(p.slice(0, 8), patched);
}

#[test]
fn slice_after_start_skips_earlier_segments() {
    // A slice only applies segments that start within it: the single segment of a diff starts at 0.
    let base: Vec<u8> = vec![0; 8];
    let patched: Vec<u8> = vec![1, 2, 3, 4, 5, 6, 7, 8];
    let p = diff_roms(&base, &patched);
    assert_eq!(p.slice(2, 6), vec![0, 0, 0, 0]);
}

#[test]
fn iterator_yields_patched_rom() {
    let base: Vec<u8> = vec![10, 20, 30, 40];
    let patched: Vec<u8> = vec![10, 21, 30, 41];
    let p = diff_roms(&base, &patched);
    let mut it = p.into_iter();
    let mut out = Vec::new();
    while let Some(b) = it.next() {
        out.push(b);
    }
    assert_eq!(out, patched);
    assert_eq!(it.next(), None);
}

#[test]
fn empty_slices() {
    let base: Vec<u8> = vec![0; 8];
    let patched: Vec<u8> = vec![1; 8];
    let p = diff_roms(&base, &patched);
    assert_eq!(p.slice(0, 0), Vec::<u8>::new());
    assert_eq!(p.slice(5, 5), Vec::<u8>::new());
}
