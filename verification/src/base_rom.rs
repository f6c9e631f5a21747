//! Recognizing the base rom a patch is made against, by the checksum in its header.

use vstd::prelude::*;

verus! {

/// What kind of NTSC 1.0 rom a base rom is.
#[derive(Debug, Clone, Copy, PartialEq, Eq, Structural)]
pub enum BaseRomKind {
    /// Compressed, in either byte order: it has to be decompressed first.
    Compressed,
    /// Already decompressed.
    Decompressed,
}

/// Why a rom cannot serve as the base rom.
#[derive(Debug, Clone, Copy, PartialEq, Eq, Structural)]
pub enum BaseRomError {
    /// It is not a known NTSC 1.0 or PAL rom of the game.
    NotOot,
    /// It is a PAL rom, but an NTSC rom is needed.
    Pal,
}

/// The checksum of the compressed NTSC 1.0 rom.
pub open spec fn crc_compressed() -> Seq<u8> {
    seq![0xEC, 0x70, 0x11, 0xB7, 0x76, 0x16, 0xD7, 0x2B]
}

/// The checksum of the compressed NTSC 1.0 rom with swapped bytes.
pub open spec fn crc_compressed_swapped() -> Seq<u8> {
    seq![0x70, 0xEC, 0xB7, 0x11, 0x16, 0x76, 0x2B, 0xD7]
}

/// The checksum of the decompressed NTSC 1.0 rom.
pub open spec fn crc_decompressed() -> Seq<u8> {
    seq![0x93, 0x52, 0x2E, 0x7B, 0xE5, 0x06, 0xD4, 0x27]
}

/// The checksums of the PAL roms: compressed, compressed with swapped bytes, and decompressed.
pub open spec fn is_pal_crc(crc: Seq<u8>) -> bool {
    ||| crc == seq![0x44u8, 0xB0, 0x69, 0xB5, 0x3C, 0x37, 0x85, 0x19]
    ||| crc == seq![0xB0u8, 0x44, 0xB5, 0x69, 0x37, 0x3C, 0x19, 0x85]
    ||| crc == seq![0xEEu8, 0x9D, 0x53, 0xB5, 0xBC, 0x01, 0xD0, 0x15]
}

/// What the checksum `crc` (the header's bytes `0x10 .. 0x18`) says of a base rom.
pub open spec fn spec_base_rom_kind(crc: Seq<u8>) -> Result<BaseRomKind, BaseRomError> {
    if crc == crc_compressed() || crc == crc_compressed_swapped() {
        Ok(BaseRomKind::Compressed)
    } else if crc == crc_decompressed() {
        Ok(BaseRomKind::Decompressed)
    } else if is_pal_crc(crc) {
        Err(BaseRomError::Pal)
    } else {
        Err(BaseRomError::NotOot)
    }
}

/// Whether the bytes `rom[0x10 .. 0x18]` are `crc`.
fn crc_is(rom: &[u8], crc: [u8; 8]) -> (r: bool)
    requires
        rom@.len() >= 0x18,
    ensures
        r == (rom@.subrange(0x10, 0x18) == crc@),
{
    let mut k: usize = 0;
    while k < 8
        invariant
            rom@.len() >= 0x18,
            k <= 8,
            forall|m: int| 0 <= m < k ==> rom@[0x10 + m] == crc@[m],
        decreases 8 - k,
    {
        if rom[0x10 + k] != crc[k] {
            proof {
                assert(rom@.subrange(0x10, 0x18)[k as int] != crc@[k as int]);
            }
            return false;
        }
        k = k + 1;
    }
    proof {
        assert(rom@.subrange(0x10, 0x18) =~= crc@);
    }
    true
}

/// What the checksum in the header of `rom` says of it as a base rom.
pub fn base_rom_kind(rom: &[u8]) -> (r: Result<BaseRomKind, BaseRomError>)
    requires
        rom@.len() >= 0x18,
    ensures
        r == spec_base_rom_kind(rom@.subrange(0x10, 0x18)),
{
    let compressed = [0xEC, 0x70, 0x11, 0xB7, 0x76, 0x16, 0xD7, 0x2B];
    let swapped = [0x70, 0xEC, 0xB7, 0x11, 0x16, 0x76, 0x2B, 0xD7];
    let decompressed = [0x93, 0x52, 0x2E, 0x7B, 0xE5, 0x06, 0xD4, 0x27];
    let pal = [0x44, 0xB0, 0x69, 0xB5, 0x3C, 0x37, 0x85, 0x19];
    let pal_swapped = [0xB0, 0x44, 0xB5, 0x69, 0x37, 0x3C, 0x19, 0x85];
    let pal_decompressed = [0xEE, 0x9D, 0x53, 0xB5, 0xBC, 0x01, 0xD0, 0x15];
    proof {
        assert(compressed@ =~= crc_compressed());
        assert(swapped@ =~= crc_compressed_swapped());
        assert(decompressed@ =~= crc_decompressed());
        assert(pal@ =~= seq![0x44u8, 0xB0, 0x69, 0xB5, 0x3C, 0x37, 0x85, 0x19]);
        assert(pal_swapped@ =~= seq![0xB0u8, 0x44, 0xB5, 0x69, 0x37, 0x3C, 0x19, 0x85]);
        assert(pal_decompressed@ =~= seq![0xEEu8, 0x9D, 0x53, 0xB5, 0xBC, 0x01, 0xD0, 0x15]);
    }
    if crc_is(rom, compressed) || crc_is(rom, swapped) {
        Ok(BaseRomKind::Compressed)
    } else if crc_is(rom, decompressed) {
        Ok(BaseRomKind::Decompressed)
    } else if crc_is(rom, pal) || crc_is(rom, pal_swapped) || crc_is(rom, pal_decompressed) {
        Err(BaseRomError::Pal)
    } else {
        Err(BaseRomError::NotOot)
    }
}

} // verus!
