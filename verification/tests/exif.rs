use wpic::exif::{media_orientation, tiff_orientation};

fn tiff(le: bool, tag: u16, value: u16) -> Vec<u8> {
    let w = |n: u16| if le { n.to_le_bytes() } else { n.to_be_bytes() };
    let l = |n: u32| if le { n.to_le_bytes() } else { n.to_be_bytes() };
    let mut t: Vec<u8> = Vec::new();
    t.extend_from_slice(if le { b"II" } else { b"MM" });
    t.extend_from_slice(&w(42));
    t.extend_from_slice(&l(8));
    t.extend_from_slice(&w(1));
    t.extend_from_slice(&w(tag));
    t.extend_from_slice(&w(3));
    t.extend_from_slice(&l(1));
    t.extend_from_slice(&w(value));
    t.extend_from_slice(&w(0));
    t
}

fn jpeg(segments: &[(u8, Vec<u8>)]) -> Vec<u8> {
    let mut d: Vec<u8> = vec![0xff, 0xd8];
    for (marker, body) in segments {
        d.push(0xff);
        d.push(*marker);
        let n = (body.len() + 2) as u16;
        d.extend_from_slice(&n.to_be_bytes());
        d.extend_from_slice(body);
    }
    d
}

fn exif(t: Vec<u8>) -> Vec<u8> {
    let mut b = b"Exif\0\0".to_vec();
    b.extend_from_slice(&t);
    b
}

#[test]
fn a_tiff_header_notes_the_orientation() {
    for v in 1..=8u16 {
        assert_eq!(tiff_orientation(&tiff(true, 0x0112, v)), Some(v as u8));
        assert_eq!(tiff_orientation(&tiff(false, 0x0112, v)), Some(v as u8));
        assert_eq!(media_orientation(&tiff(true, 0x0112, v)), v as u8);
    }
    assert_eq!(tiff_orientation(&tiff(true, 0x0112, 0)), None);
    assert_eq!(tiff_orientation(&tiff(true, 0x0112, 9)), None);
    assert_eq!(tiff_orientation(&tiff(true, 0x0113, 6)), None);
    assert_eq!(tiff_orientation(b"II"), None);
    assert_eq!(tiff_orientation(b"XX\0\0\0\0\0\0\0\0"), None);
}

#[test]
fn an_entry_that_is_cut_off_is_not_read() {
    let mut t = tiff(true, 0x0112, 6);
    t.truncate(20);
    assert_eq!(tiff_orientation(&t), None);
    let mut far = tiff(true, 0x0112, 6);
    far[4] = 0xff;
    far[5] = 0xff;
    far[6] = 0xff;
    far[7] = 0xff;
    assert_eq!(tiff_orientation(&far), None);
}

#[test]
fn a_jpeg_notes_the_orientation_in_an_exif_segment() {
    let d = jpeg(&[(0xe0, vec![0; 14]), (0xe1, exif(tiff(false, 0x0112, 8)))]);
    assert_eq!(media_orientation(&d), 8);
    let twice = jpeg(&[
        (0xe1, b"http://ns.adobe.com".to_vec()),
        (0xe1, exif(tiff(true, 0x0112, 0))),
        (0xe1, exif(tiff(true, 0x0112, 3))),
    ]);
    assert_eq!(media_orientation(&twice), 3);
    let scan = jpeg(&[(0xda, vec![1, 2]), (0xe1, exif(tiff(true, 0x0112, 6)))]);
    assert_eq!(media_orientation(&scan), 1);
}

#[test]
fn what_is_no_image_is_upright() {
    assert_eq!(media_orientation(b""), 1);
    assert_eq!(media_orientation(b"\xff\xd8"), 1);
    assert_eq!(media_orientation(b"\xff\xd8\xff"), 1);
    assert_eq!(media_orientation(b"GIF89a"), 1);
    assert_eq!(media_orientation(b"II*\0"), 1);
    assert_eq!(media_orientation(b"\xff\xd8\xff\xe1\x00\x00\xff\xe1"), 1);
}
