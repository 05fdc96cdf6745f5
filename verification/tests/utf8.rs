use docx_readonly::utf8::{character_length, continues, first_ill_formed};
use docx_readonly::xml_utils::{apply_settings_readonly, ParseCause};

/// Where the standard library stops: the offset up to which the bytes are
/// UTF-8, where they are not UTF-8 to their end.
fn std_fault(bytes: &[u8]) -> Option<usize> {
    std::str::from_utf8(bytes).err().map(|error| error.valid_up_to())
}

#[test]
fn tails_are_80_to_bf() {
    let tails: Vec<u8> = (0..=255u8).filter(|byte| continues(*byte)).collect();
    assert_eq!(tails.first(), Some(&0x80));
    assert_eq!(tails.last(), Some(&0xbf));
    assert_eq!(tails.len(), 64);
}

#[test]
fn character_lengths_of_well_formed_characters() {
    assert_eq!(character_length(b"a", 0), 1);
    assert_eq!(character_length("é".as_bytes(), 0), 2);
    assert_eq!(character_length("€".as_bytes(), 0), 3);
    assert_eq!(character_length("𝄞".as_bytes(), 0), 4);
    assert_eq!(character_length("a€".as_bytes(), 1), 3);
    assert_eq!(character_length(&[0xc3], 0), 0);
    assert_eq!(character_length(&[0xc0, 0x80], 0), 0);
    assert_eq!(character_length(&[0xe0, 0x80, 0x80], 0), 0);
    assert_eq!(character_length(&[0xed, 0xa0, 0x80], 0), 0);
    assert_eq!(character_length(&[0xf4, 0x90, 0x80, 0x80], 0), 0);
    assert_eq!(character_length(&[0xf5, 0x80, 0x80, 0x80], 0), 0);
    assert_eq!(character_length(&[0x80], 0), 0);
}

#[test]
fn every_sequence_of_one_or_two_bytes_is_judged_as_the_standard_library_judges_it() {
    assert_eq!(first_ill_formed(b""), None);
    for first in 0..=255u8 {
        assert_eq!(first_ill_formed(&[first]), std_fault(&[first]));
        for second in 0..=255u8 {
            assert_eq!(first_ill_formed(&[first, second]), std_fault(&[first, second]));
        }
    }
}

#[test]
fn sequences_of_three_and_four_bytes_are_judged_as_the_standard_library_judges_them() {
    let edges = [0x00u8, 0x41, 0x7f, 0x80, 0x8f, 0x90, 0x9f, 0xa0, 0xbf, 0xc0, 0xc2, 0xe0, 0xff];
    for first in 0xc0..=255u8 {
        for second in 0..=255u8 {
            for third in edges {
                let three = [first, second, third];
                assert_eq!(first_ill_formed(&three), std_fault(&three));
                for fourth in edges {
                    let four = [first, second, third, fourth];
                    assert_eq!(first_ill_formed(&four), std_fault(&four));
                }
            }
        }
    }
}

#[test]
fn the_first_fault_is_found_in_longer_text() {
    let text = "<w:settings w:name=\"é€𝄞\"/>".as_bytes().to_vec();
    assert_eq!(first_ill_formed(&text), None);
    for at in 0..text.len() {
        for byte in [0x80u8, 0xc0, 0xe0, 0xf8, 0xff] {
            let mut damaged = text.clone();
            damaged[at] = byte;
            assert_eq!(first_ill_formed(&damaged), std_fault(&damaged));
        }
        assert_eq!(first_ill_formed(&text[..at]), std_fault(&text[..at]));
    }
}

#[test]
fn a_document_that_is_not_utf8_is_refused() {
    let error = apply_settings_readonly(b"<w:settings a=\"\xff\"></w:settings>").unwrap_err();
    assert!(matches!(error.cause, ParseCause::InvalidUtf8));
    assert_eq!(error.position, 15);
    let error = apply_settings_readonly(b"\xff\xfe<\x00a\x00/\x00>\x00").unwrap_err();
    assert!(matches!(error.cause, ParseCause::InvalidUtf8));
    assert_eq!(error.position, 0);
    let error = apply_settings_readonly(b"<a><b></c>\xc3").unwrap_err();
    assert!(matches!(error.cause, ParseCause::InvalidUtf8));
    assert_eq!(error.position, 10);
    let accepted = apply_settings_readonly("<w:settings a=\"é€𝄞\"></w:settings>".as_bytes());
    assert!(accepted.is_ok());
    let with_mark = apply_settings_readonly("\u{feff}<w:settings/>".as_bytes());
    assert!(with_mark.is_ok());
}
