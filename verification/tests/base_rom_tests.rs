use ootr::base_rom::{base_rom_kind, BaseRomError, BaseRomKind};

fn rom_with_crc(crc: [u8; 8]) -> Vec<u8> {
    let mut rom = vec![0u8; 0x40];
    rom[0x10..0x18].copy_from_slice(&crc);
    rom
}

#[test]
fn ntsc_roms_are_recognized() {
    assert_eq!(base_rom_kind(&rom_with_crc([0xEC, 0x70, 0x11, 0xB7, 0x76, 0x16, 0xD7, 0x2B])), Ok(BaseRomKind::Compressed));
    assert_eq!(base_rom_kind(&rom_with_crc([0x70, 0xEC, 0xB7, 0x11, 0x16, 0x76, 0x2B, 0xD7])), Ok(BaseRomKind::Compressed));
    assert_eq!(base_rom_kind(&rom_with_crc([0x93, 0x52, 0x2E, 0x7B, 0xE5, 0x06, 0xD4, 0x27])), Ok(BaseRomKind::Decompressed));
}

#[test]
fn pal_and_other_roms_are_refused() {
    assert_eq!(base_rom_kind(&rom_with_crc([0x44, 0xB0, 0x69, 0xB5, 0x3C, 0x37, 0x85, 0x19])), Err(BaseRomError::Pal));
    assert_eq!(base_rom_kind(&rom_with_crc([0xB0, 0x44, 0xB5, 0x69, 0x37, 0x3C, 0x19, 0x85])), Err(BaseRomError::Pal));
    assert_eq!(base_rom_kind(&rom_with_crc([0xEE, 0x9D, 0x53, 0xB5, 0xBC, 0x01, 0xD0, 0x15])), Err(BaseRomError::Pal));
    assert_eq!(base_rom_kind(&rom_with_crc([0; 8])), Err(BaseRomError::NotOot));
}
