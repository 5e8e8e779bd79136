use wpic::xmp::{new_sidecar, read_xmp_rating, write_rating_xmp, RatingWrite};

#[test]
fn ratings_are_read_from_attributes_and_elements() {
    assert_eq!(read_xmp_rating("<x xmp:Rating=\"3\"/>"), Some(3));
    assert_eq!(read_xmp_rating("<xmp:Rating>5</xmp:Rating>"), Some(5));
    assert_eq!(read_xmp_rating("<xmp:Rating> 1 </xmp:Rating>"), Some(1));
    assert_eq!(read_xmp_rating("ü <xmp:Rating>2</xmp:Rating>"), Some(2));
}

#[test]
fn other_numbers_are_no_ratings() {
    assert_eq!(read_xmp_rating("<xmp:Rating>0</xmp:Rating>"), None);
    assert_eq!(read_xmp_rating("<xmp:Rating>-1</xmp:Rating>"), None);
    assert_eq!(read_xmp_rating("<xmp:Rating>6</xmp:Rating>"), None);
    assert_eq!(read_xmp_rating("<xmp:Rating>99999999999</xmp:Rating>"), None);
    assert_eq!(read_xmp_rating("<xmp:Rating>-</xmp:Rating>"), None);
    assert_eq!(read_xmp_rating("no rating"), None);
    assert_eq!(read_xmp_rating("xmp:Rating"), None);
    assert_eq!(read_xmp_rating("xmp:Rating is a long way off: 3"), None);
    assert_eq!(read_xmp_rating("xmp:Rating=              4"), Some(4));
    assert_eq!(read_xmp_rating("xmp:Rating=               4"), None);
}

#[test]
fn a_new_sidecar_is_read_back() {
    for r in 1..=5u8 {
        assert_eq!(read_xmp_rating(&new_sidecar(r)), Some(r));
    }
    assert_eq!(
        new_sidecar(4),
        "<?xpacket begin=\"\" id=\"W5M0MpCehiHzreSzNTczkc9d\"?>\n<x:xmpmeta xmlns:x=\"adobe:ns:meta/\">\n <rdf:RDF xmlns:rdf=\"http://www.w3.org/1999/02/22-rdf-syntax-ns#\">\n  <rdf:Description rdf:about=\"\" xmlns:xmp=\"http://ns.adobe.com/xap/1.0/\">\n   <xmp:Rating>4</xmp:Rating>\n  </rdf:Description>\n </rdf:RDF>\n</x:xmpmeta>\n<?xpacket end=\"w\"?>\n"
    );
}

#[test]
fn an_existing_sidecar_is_changed_in_place() {
    match write_rating_xmp(true, 0) {
        RatingWrite::Change(s) => assert_eq!(s, "set Xmp.xmp.Rating 0"),
        _ => panic!(),
    }
    match write_rating_xmp(false, 2) {
        RatingWrite::Create(s) => assert_eq!(s, new_sidecar(2)),
        _ => panic!(),
    }
    assert!(matches!(write_rating_xmp(false, 0), RatingWrite::Leave));
}
