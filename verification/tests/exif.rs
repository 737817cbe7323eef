use resizer::exif::{exif_orientation, jpeg_exif, png_exif, tiff_orientation, webp_exif};

fn tiff(little: bool, kind: u16, value: u32) -> Vec<u8> {
    let two = |n: u16| if little { n.to_le_bytes() } else { n.to_be_bytes() };
    let four = |n: u32| if little { n.to_le_bytes() } else { n.to_be_bytes() };
    let mut t = if little { b"II*\0".to_vec() } else { b"MM\0*".to_vec() };
    t.extend(four(8));
    t.extend(two(2));
    // Some other entry first.
    t.extend(two(0x010F));
    t.extend(two(2));
    t.extend(four(1));
    t.extend(four(0));
    t.extend(two(0x0112));
    t.extend(two(kind));
    t.extend(four(1));
    if kind == 4 {
        t.extend(four(value));
    } else {
        t.extend(two(value as u16));
        t.extend(two(0));
    }
    t
}

fn jpeg(block: &[u8]) -> Vec<u8> {
    let mut d = vec![0xFF, 0xD8];
    // A JFIF segment, a fill byte and a marker without a length first.
    d.extend([0xFF, 0xE0, 0, 4, 1, 2, 0xFF, 0xFF, 0x01]);
    d.extend([0xFF, 0xE1]);
    d.extend(((block.len() + 8) as u16).to_be_bytes());
    d.extend(b"Exif\0\0");
    d.extend(block);
    d.extend([0xFF, 0xDA, 0, 0]);
    d
}

fn png(block: &[u8]) -> Vec<u8> {
    let mut d = b"\x89PNG\r\n\x1a\n".to_vec();
    d.extend([0, 0, 0, 1]);
    d.extend(b"IHDR");
    d.extend([9, 0, 0, 0, 0]);
    d.extend((block.len() as u32).to_be_bytes());
    d.extend(b"eXIf");
    d.extend(block);
    d
}

fn webp(block: &[u8], mark: bool) -> Vec<u8> {
    let mut d = b"RIFF\0\0\0\0WEBP".to_vec();
    // A chunk of odd length, with its padding.
    d.extend(b"VP8X");
    d.extend([1, 0, 0, 0, 7, 0]);
    let mut body = if mark { b"Exif\0\0".to_vec() } else { Vec::new() };
    body.extend(block);
    d.extend(b"EXIF");
    d.extend((body.len() as u32).to_le_bytes());
    d.extend(body);
    d
}

#[test]
fn every_orientation_is_read_back() {
    for o in 1..=8u32 {
        for little in [false, true] {
            for kind in [3, 4] {
                let t = tiff(little, kind, o);
                let want = Some(o as u8);
                assert_eq!(tiff_orientation(&t), want);
                assert_eq!(exif_orientation(&t), want);
                assert_eq!(exif_orientation(&jpeg(&t)), want);
                assert_eq!(exif_orientation(&png(&t)), want);
                assert_eq!(exif_orientation(&webp(&t, false)), want);
                assert_eq!(exif_orientation(&webp(&t, true)), want);
            }
        }
    }
}

#[test]
fn blocks_are_found_whole() {
    let t = tiff(true, 3, 6);
    assert_eq!(jpeg_exif(&jpeg(&t)), Some(&t[..]));
    assert_eq!(png_exif(&png(&t)), Some(&t[..]));
    assert_eq!(webp_exif(&webp(&t, true)), Some(&t[..]));
}

#[test]
fn odd_values_and_types_are_nothing() {
    for v in [0, 9, 300] {
        assert_eq!(tiff_orientation(&tiff(false, 3, v)), None);
        assert_eq!(tiff_orientation(&tiff(true, 4, v)), None);
    }
    assert_eq!(tiff_orientation(&tiff(true, 4, 0x10001)), None);
    assert_eq!(tiff_orientation(&tiff(true, 5, 6)), None);
    assert_eq!(tiff_orientation(b"XX*\0\x08\0\0\0"), None);
}

#[test]
fn malformed_files_are_nothing() {
    let t = tiff(false, 3, 6);
    for whole in [jpeg(&t), png(&t), webp(&t, true), t.clone()] {
        for cut in 0..whole.len() {
            // Never panics; only a cut behind the value still finds it.
            let _ = exif_orientation(&whole[..cut]);
        }
        assert_eq!(exif_orientation(&whole[..whole.len().min(20)]), None);
    }
    assert_eq!(exif_orientation(&[]), None);
    assert_eq!(exif_orientation(&[0xFF, 0xD8]), None);
    assert_eq!(exif_orientation(&[0xFF, 0xD8, 0xFF, 0xE1, 0, 1, 0xFF]), None);
    assert_eq!(exif_orientation(&[0xFF, 0xD8, 0xFF, 0xD9]), None);
    // The image data comes first: nothing behind it counts.
    let mut late = vec![0xFF, 0xD8, 0xFF, 0xDA];
    late.extend(&jpeg(&t)[2..]);
    assert_eq!(exif_orientation(&late), None);
    let mut ended = png(&t);
    ended[16..20].copy_from_slice(b"abcd");
    ended[12..16].copy_from_slice(b"IEND");
    assert_eq!(exif_orientation(&ended), None);
    // Lengths and offsets that reach far out.
    let mut far = b"II*\0".to_vec();
    far.extend([0xFF, 0xFF, 0xFF, 0xFF, 1, 0]);
    assert_eq!(exif_orientation(&far), None);
    let mut long = b"\x89PNG\r\n\x1a\n".to_vec();
    long.extend([0xFF, 0xFF, 0xFF, 0xFF]);
    long.extend(b"eXIf");
    assert_eq!(exif_orientation(&long), None);
}
