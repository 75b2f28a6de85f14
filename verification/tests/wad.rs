use heretic::patch::Patch;
use heretic::wad::{decode_lump_name, same_text, Wad, WadError};

fn name_field(name: &[u8]) -> [u8; 8] {
    let mut f = [0u8; 8];
    f[..name.len()].copy_from_slice(name);
    f
}

/// A WAD file with the given tag and lumps: header, lump data, directory.
fn build_wad(tag: &[u8; 4], lumps: &[(&[u8], &[u8])]) -> Vec<u8> {
    let mut out = Vec::new();
    out.extend_from_slice(tag);
    out.extend_from_slice(&(lumps.len() as u32).to_le_bytes());
    out.extend_from_slice(&[0, 0, 0, 0]);
    let mut entries = Vec::new();
    for (name, data) in lumps {
        let pos = out.len() as u32;
        out.extend_from_slice(data);
        entries.push((pos, data.len() as u32, name_field(name)));
    }
    let dir = out.len() as u32;
    out[8..12].copy_from_slice(&dir.to_le_bytes());
    for (pos, len, name) in entries {
        out.extend_from_slice(&pos.to_le_bytes());
        out.extend_from_slice(&len.to_le_bytes());
        out.extend_from_slice(&name);
    }
    out
}

#[test]
fn reads_lumps_in_directory_order() {
    let data = build_wad(b"IWAD", &[(b"PLAYPAL", &[1, 2, 3]), (b"TITLE", &[9, 8])]);
    let wad = Wad::from_reader(&data).unwrap();
    assert_eq!(wad.lumps.len(), 2);
    assert_eq!(wad.lumps[0].name, "PLAYPAL");
    assert_eq!(wad.lumps[0].data, vec![1, 2, 3]);
    assert_eq!(wad.lumps[0].pos, 12);
    assert_eq!(wad.lumps[0].len, 3);
    assert_eq!(wad.lumps[1].name, "TITLE");
    assert_eq!(wad.lumps[1].data, vec![9, 8]);
    assert_eq!(wad.lumps[1].pos, 15);
    assert_eq!(wad.lumps[1].len, 2);
}

#[test]
fn accepts_pwad_and_empty_directory() {
    let data = build_wad(b"PWAD", &[]);
    let wad = Wad::from_reader(&data).unwrap();
    assert_eq!(wad.lumps.len(), 0);
}

#[test]
fn full_eight_byte_names_are_kept_whole() {
    let data = build_wad(b"IWAD", &[(b"M_SLCTR1", &[5])]);
    let wad = Wad::from_reader(&data).unwrap();
    assert_eq!(wad.lumps[0].name, "M_SLCTR1");
}

#[test]
fn too_short_for_the_tag_is_eof() {
    assert_eq!(Wad::from_reader(b"IWA").err(), Some(WadError::UnexpectedEof));
    assert_eq!(Wad::from_reader(b"").err(), Some(WadError::UnexpectedEof));
}

#[test]
fn tag_that_is_not_utf8_is_refused() {
    let mut data = build_wad(b"IWAD", &[]);
    data[0] = 0xff;
    assert_eq!(Wad::from_reader(&data).err(), Some(WadError::InvalidUtf8));
}

#[test]
fn unknown_tag_is_refused() {
    let data = build_wad(b"JWAD", &[]);
    assert_eq!(Wad::from_reader(&data).err(), Some(WadError::InvalidMagic));
    assert_eq!(Wad::from_reader(b"iwad").err(), Some(WadError::InvalidMagic));
}

#[test]
fn short_header_is_eof() {
    assert_eq!(Wad::from_reader(b"IWAD\x01\x00").err(), Some(WadError::UnexpectedEof));
}

#[test]
fn truncated_directory_is_eof() {
    let mut data = build_wad(b"IWAD", &[(b"A", &[1])]);
    data.truncate(data.len() - 1);
    assert_eq!(Wad::from_reader(&data).err(), Some(WadError::UnexpectedEof));
}

#[test]
fn directory_past_the_end_is_eof() {
    let mut data = build_wad(b"IWAD", &[(b"A", &[1])]);
    data[8..12].copy_from_slice(&1000u32.to_le_bytes());
    assert_eq!(Wad::from_reader(&data).err(), Some(WadError::UnexpectedEof));
}

#[test]
fn name_that_is_not_utf8_is_refused() {
    let mut data = build_wad(b"IWAD", &[(b"A", &[1])]);
    let n = data.len();
    data[n - 8] = 0xc3; // a lead byte followed by a NUL
    assert_eq!(Wad::from_reader(&data).err(), Some(WadError::InvalidUtf8));
}

#[test]
fn bad_name_before_truncation_is_reported_as_utf8() {
    // Two entries announced, only the first (with a bad name) present.
    let mut data = build_wad(b"IWAD", &[(b"A", &[1])]);
    data[4..8].copy_from_slice(&2u32.to_le_bytes());
    let n = data.len();
    data[n - 8] = 0xff;
    assert_eq!(Wad::from_reader(&data).err(), Some(WadError::InvalidUtf8));
}

#[test]
fn lump_past_the_end_is_eof() {
    let mut data = build_wad(b"IWAD", &[(b"A", &[1, 2])]);
    let n = data.len();
    // length field of the only entry
    data[n - 12..n - 8].copy_from_slice(&100u32.to_le_bytes());
    assert_eq!(Wad::from_reader(&data).err(), Some(WadError::UnexpectedEof));
}

#[test]
fn lumps_may_overlap_and_be_empty() {
    let mut data = build_wad(b"IWAD", &[(b"A", &[1, 2, 3]), (b"B", &[])]);
    let n = data.len();
    // B starts inside A
    data[n - 16..n - 12].copy_from_slice(&13u32.to_le_bytes());
    data[n - 12..n - 8].copy_from_slice(&2u32.to_le_bytes());
    let wad = Wad::from_reader(&data).unwrap();
    assert_eq!(wad.lumps[1].data, vec![2, 3]);
    let empty = build_wad(b"IWAD", &[(b"E", &[])]);
    let wad = Wad::from_reader(&empty).unwrap();
    assert_eq!(wad.lumps[0].data, Vec::<u8>::new());
    assert_eq!(wad.lumps[0].len, 0);
}

#[test]
fn empty_lump_past_the_end_is_read_as_empty() {
    let mut data = build_wad(b"IWAD", &[(b"MARKER", &[])]);
    let n = data.len();
    data[n - 16..n - 12].copy_from_slice(&1000u32.to_le_bytes());
    assert_eq!(data.len(), 28);
    let wad = Wad::from_reader(&data).unwrap();
    assert_eq!(wad.lumps.len(), 1);
    assert_eq!(wad.lumps[0].name, "MARKER");
    assert_eq!(wad.lumps[0].pos, 1000);
    assert_eq!(wad.lumps[0].len, 0);
    assert!(wad.lumps[0].data.is_empty());
    // One byte long, the same lump is past the end.
    data[n - 12..n - 8].copy_from_slice(&1u32.to_le_bytes());
    assert_eq!(Wad::from_reader(&data).err(), Some(heretic::wad::WadError::UnexpectedEof));
}

#[test]
fn lump_names_lose_trailing_nuls_only() {
    assert_eq!(decode_lump_name(b"TITLE\0\0\0"), Some("TITLE".to_string()));
    assert_eq!(decode_lump_name(b"A\0B\0\0\0\0\0"), Some("A\0B".to_string()));
    assert_eq!(decode_lump_name(b"\0\0\0\0\0\0\0\0"), Some(String::new()));
    assert_eq!(decode_lump_name("É\0\0\0\0\0\0".as_bytes()), Some("É".to_string()));
    assert_eq!(decode_lump_name(b"\xc3\0\0\0\0\0\0\0"), None);
}

#[test]
fn same_text_compares_characters() {
    assert!(same_text("FONTB_S", "FONTB_S"));
    assert!(!same_text("FONTB_S", "FONTB_"));
    assert!(!same_text("A", "B"));
    assert!(same_text("", ""));
}

#[test]
fn name_lookup_finds_first_and_cache_finds_last() {
    let data = build_wad(b"IWAD", &[(b"DUP", &[1]), (b"X", &[2]), (b"DUP", &[3])]);
    let wad = Wad::from_reader(&data).unwrap();
    assert_eq!(wad.get_num_for_name("DUP"), Some(0));
    assert_eq!(wad.get_num_for_name("X"), Some(1));
    assert_eq!(wad.get_num_for_name("NOPE"), None);
    assert_eq!(wad.cache_lump_name("DUP"), Some(&[3u8][..]));
    assert_eq!(wad.cache_lump_name("X"), Some(&[2u8][..]));
    assert_eq!(wad.cache_lump_name("NOPE"), None);
}

#[test]
fn unique_name_is_found_the_same_both_ways() {
    let data = build_wad(b"IWAD", &[(b"A", &[1]), (b"B", &[2, 2])]);
    let wad = Wad::from_reader(&data).unwrap();
    let i = wad.get_num_for_name("B").unwrap();
    assert_eq!(wad.cache_lump_num(i), wad.cache_lump_name("B"));
}

#[test]
fn cache_lump_num_checks_the_index() {
    let data = build_wad(b"IWAD", &[(b"A", &[7, 7])]);
    let wad = Wad::from_reader(&data).unwrap();
    assert_eq!(wad.cache_lump_num(0), Some(&[7u8, 7][..]));
    assert_eq!(wad.cache_lump_num(1), None);
}

#[test]
fn read_lumps_hold_their_announced_length() {
    let data = build_wad(b"IWAD", &[(b"A", &[1, 2, 3, 4]), (b"B", &[5])]);
    let wad = Wad::from_reader(&data).unwrap();
    for lump in &wad.lumps {
        assert_eq!(lump.data.len(), lump.len);
        assert!(lump.pos as usize + lump.len <= data.len());
        let pos = lump.pos as usize;
        assert_eq!(&data[pos..pos + lump.len], &lump.data[..]);
    }
}

#[test]
fn patch_header_is_little_endian() {
    // w = 0x0102, h = 0x0304, left = -2, top = 0x7fff
    let lump = [0x02, 0x01, 0x04, 0x03, 0xfe, 0xff, 0xff, 0x7f];
    let p = Patch::from_lump(&lump);
    assert_eq!(p.w, 0x0102);
    assert_eq!(p.h, 0x0304);
    assert_eq!(p.left, -2);
    assert_eq!(p.top, 0x7fff);
    let lump = [1, 0, 1, 0, 0x00, 0x80, 5, 0, 99];
    let p = Patch::from_lump(&lump);
    assert_eq!(p.left, -32768);
    assert_eq!(p.top, 5);
}
