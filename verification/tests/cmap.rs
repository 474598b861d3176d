use mirzam::cmap::{cmap_tokens, code_value, hex_bytes, to_unicode, utf16be, Token};
use std::collections::HashMap;

fn chars(s: &str) -> Vec<char> {
    s.chars().collect()
}

fn map_of(cmap: &str) -> HashMap<u32, String> {
    to_unicode(cmap.as_bytes()).into_iter().collect()
}

const CMAP: &str = "/CIDInit /ProcSet findresource begin\n12 dict begin\nbegincmap\n\
2 beginbfchar\n<0003> <0020>\n<0011> <D835DC00>\nendbfchar\n\
3 beginbfrange\n<0041> <0043> <0061>\n<0050> <0052> [<0070> <0071> <0072>]\n<0060> <0061> <00660069>\nendbfrange\n\
endcmap\n";

#[test]
fn a_cmap_maps_codes_to_text() {
    let m = map_of(CMAP);
    assert_eq!(m[&0x0003], " ");
    assert_eq!(m[&0x0011], "\u{1D400}", "a surrogate pair is one character");
    assert_eq!(m[&0x0041], "a");
    assert_eq!(m[&0x0042], "b");
    assert_eq!(m[&0x0043], "c");
    assert_eq!(m[&0x0050], "p");
    assert_eq!(m[&0x0052], "r");
    assert_eq!(m[&0x0060], "fi", "a longer string maps whole, to the first code only");
    assert!(!m.contains_key(&0x0061));
    assert_eq!(m.len(), 9);
}

#[test]
fn a_later_entry_replaces_an_earlier_one_and_a_short_one_is_dropped() {
    let list = to_unicode(b"beginbfchar <01> <0041> <01> <0042> <02> endbfchar");
    assert_eq!(list, vec![(1, "A".to_string()), (1, "B".to_string())]);
    let m: HashMap<u32, String> = list.into_iter().collect();
    assert_eq!(m[&1], "B");
}

#[test]
fn hex_strings_read_their_digits_two_to_a_byte() {
    assert_eq!(hex_bytes(&chars("0a FF")), vec![0x0a, 0xff]);
    assert_eq!(hex_bytes(&chars("abc")), vec![0xab, 0xc0]);
    assert_eq!(hex_bytes(&chars("zz")), Vec::<u8>::new());
    assert_eq!(code_value(&vec![0x01, 0x02]), 0x0102);
    assert_eq!(code_value(&vec![1, 2, 3, 4, 5]), 0x02030405, "kept to 32 bits");
}

#[test]
fn utf16_pairs_join_and_lone_surrogates_are_replaced() {
    assert_eq!(utf16be(&[0x00, 0x41, 0xD8, 0x3D, 0xDE, 0x00]), chars("A\u{1F600}"));
    assert_eq!(utf16be(&[0xDC, 0x00, 0x00, 0x42]), chars("\u{FFFD}B"));
    assert_eq!(utf16be(&[0x00]), chars("\u{0}"));
}

#[test]
fn a_section_is_hex_strings_and_lists() {
    let t = cmap_tokens(&chars("<0041> junk [ <01><02> x ] <ff"));
    assert_eq!(t.len(), 3);
    assert!(matches!(&t[0], Token::Hex(b) if b == &vec![0x00, 0x41]));
    assert!(matches!(&t[1], Token::List(l) if l == &vec![vec![0x01], vec![0x02]]));
    assert!(matches!(&t[2], Token::Hex(b) if b == &vec![0xff]));
}

#[test]
fn a_range_past_what_one_character_can_shift_keeps_its_character() {
    // U+D7FF shifted by one lands on a surrogate, which is no character.
    let m = map_of("beginbfrange <10> <11> <D7FF> endbfrange");
    assert_eq!(m[&0x10], "\u{D7FF}");
    assert_eq!(m[&0x11], "\u{D7FF}");
}
