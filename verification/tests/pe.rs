use vostok_pdb_parser::pe::{locate_text, read_text};

/// A 32-bit image with one section.
fn image(name: &[u8; 8], data: &[u8], raw_offset: u32) -> Vec<u8> {
    let mut b: Vec<u8> = vec![0; 0x200];
    b[0..2].copy_from_slice(b"MZ");
    b[0x3c..0x40].copy_from_slice(&0x40u32.to_le_bytes());
    b[0x40..0x44].copy_from_slice(b"PE\0\0");
    b[0x44..0x46].copy_from_slice(&0x14cu16.to_le_bytes());
    b[0x46..0x48].copy_from_slice(&1u16.to_le_bytes());
    b[0x54..0x56].copy_from_slice(&224u16.to_le_bytes());
    b[0x58..0x5a].copy_from_slice(&0x10bu16.to_le_bytes());
    b[0x74..0x78].copy_from_slice(&0x400000u32.to_le_bytes());
    b[0xb4..0xb8].copy_from_slice(&16u32.to_le_bytes());
    let section = 0x58 + 224;
    b[section..section + 8].copy_from_slice(name);
    b[section + 8..section + 12].copy_from_slice(&(data.len() as u32).to_le_bytes());
    b[section + 12..section + 16].copy_from_slice(&0x1000u32.to_le_bytes());
    b[section + 16..section + 20].copy_from_slice(&(data.len() as u32).to_le_bytes());
    b[section + 20..section + 24].copy_from_slice(&raw_offset.to_le_bytes());
    b.extend_from_slice(data);
    b
}

#[test]
fn the_code_section_is_found() {
    let text = match read_text(&image(b".text\0\0\0", &[0x90, 0xc3], 0x200)) {
        Ok(text) => text,
        Err(e) => panic!("{}", e.message),
    };
    assert_eq!(text.image_base, 0x400000);
    assert_eq!(text.rva, 0x1000);
    assert_eq!(text.data, vec![0x90, 0xc3]);
}

#[test]
fn an_image_without_code_is_an_error() {
    match read_text(&image(b".data\0\0\0", &[1], 0x200)) {
        Ok(_) => panic!("there is no code section"),
        Err(e) => assert_eq!(e.message, "EXE has no .text section"),
    }
}

#[test]
fn what_is_no_image_is_an_error() {
    match read_text(b"no image") {
        Ok(_) => panic!("not an image"),
        Err(e) => assert_eq!(e.message, "Invalid DOS header size or alignment"),
    }
}

#[test]
fn bytes_outside_the_file_are_an_error() {
    match read_text(&image(b".text\0\0\0", &[0x90], 0x10000)) {
        Ok(_) => panic!("the bytes are missing"),
        Err(e) => assert_eq!(e.message, "Invalid PE section offset or size"),
    }
}

#[test]
fn addresses_are_made_relative() {
    match locate_text(0x400000, Some((0x405000, Ok(vec![1])))) {
        Ok(text) => assert_eq!((text.image_base, text.rva, text.data), (0x400000, 0x5000, vec![1])),
        Err(e) => panic!("{}", e.message),
    }
    assert!(matches!(locate_text(0x400000, None), Err(_)));
}
