use luna_nspire::tixml::reformat_xml_doc;

fn compact(xml: &[u8]) -> Option<Vec<u8>> {
    reformat_xml_doc(xml, 0, xml.len())
}

#[test]
fn closing_tags_become_numbers() {
    assert_eq!(
        compact(b"<prob><a>1</a><b></b></prob>"),
        Some(b"<prob><a>1\x0e\x01<b>\x0e\x02\x0e\x00".to_vec())
    );
    assert_eq!(compact(b"<doc></doc >"), Some(b"<doc>\x0e\x00".to_vec()));
}

#[test]
fn what_stands_before_the_root_is_dropped() {
    assert_eq!(
        reformat_xml_doc(b"HD<?xml?>\n<prob>x</prob>", 2, 22),
        Some(b"HD<prob>x\x0e\x00".to_vec())
    );
}

#[test]
fn a_root_has_to_be_there() {
    assert_eq!(compact(b"<Problem></Problem>"), None);
    assert_eq!(compact(b""), None);
    assert_eq!(compact(b"<doc"), None);
    assert_eq!(compact(b"<doc>"), Some(b"<doc>".to_vec()));
    assert_eq!(reformat_xml_doc(b"<prob>", 1, 5), None);
}

#[test]
fn character_data_is_kept() {
    let xml = b"<prob><![CDATA[a</b>]>]]]></prob>";
    assert_eq!(compact(xml), Some(b"<prob><![CDATA[a</b>]>]]]>\x0e\x00".to_vec()));
}

#[test]
fn markup_that_the_compact_form_cannot_hold() {
    assert_eq!(compact(b"<prob><!-- note --></prob>"), None);
    assert_eq!(compact(b"<prob><!DOCTYPE prob></prob>"), None);
    assert_eq!(compact(b"<prob><![CDATA[x"), None);
    assert_eq!(compact(b"<prob></prob></prob>"), None);
    assert_eq!(compact(b"<prob></prob"), None);
    assert_eq!(compact(b"<prob><"), None);
    assert_eq!(compact(b"<prob><!"), None);
}

#[test]
fn empty_elements_stay_open() {
    assert_eq!(compact(b"<prob><a/></prob>"), Some(b"<prob><a/>\x0e\x01".to_vec()));
}

#[test]
fn elements_nest_a_hundred_deep() {
    let nested = |n: usize| {
        let mut xml = b"<prob>".to_vec();
        for _ in 0..n {
            xml.extend_from_slice(b"<a>");
        }
        for _ in 0..n {
            xml.extend_from_slice(b"</a>");
        }
        xml.extend_from_slice(b"</prob>");
        xml
    };
    assert!(compact(&nested(99)).is_some());
    assert_eq!(compact(&nested(100)), None);
}

#[test]
fn large_numbers_keep_their_tags() {
    let mut xml = b"<prob>".to_vec();
    for _ in 0..257 {
        xml.extend_from_slice(b"<a></a>");
    }
    xml.extend_from_slice(b"</prob>");
    let out = compact(&xml).unwrap();
    assert_eq!(out.len(), 6 + 255 * 5 + 2 * 7 + 2);
    assert_eq!(&out[out.len() - 21..], b"<a>\x0e\xff<a></a><a></a>\x0e\x00");
}

#[test]
fn the_compact_form_reads_back() {
    let xml = b"<prob a=\"1\"><card><x>2</x></card><![CDATA[</x>]]></prob>";
    let out = compact(xml).unwrap();
    let closers = [&b"</prob>"[..], b"</card>", b"</x>"];
    let mut text = Vec::new();
    let mut i = 0;
    while i < out.len() {
        if out[i] == 0x0e {
            text.extend_from_slice(closers[out[i + 1] as usize]);
            i += 2;
        } else {
            text.push(out[i]);
            i += 1;
        }
    }
    assert_eq!(text, xml.to_vec());
}

#[test]
fn bytes_without_room_are_lost() {
    // Room for two bytes: the rest of the root does not fit, the number does.
    assert_eq!(
        reformat_xml_doc(b"<prob></prob>", 0, 2),
        Some(b"<p\0\0\0\0\x0e\0".to_vec())
    );
    assert_eq!(reformat_xml_doc(b"<prob>ab", 0, 3), Some(b"<pr".to_vec()));
}
