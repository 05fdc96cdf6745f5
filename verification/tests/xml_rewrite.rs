use docx_readonly::xml_utils::{
    apply_settings_readonly, open_tag_at_end, protection_element_content, rewrite_element, ParseCause,
};
use quick_xml::events::{BytesStart, Event};
use quick_xml::{Reader, Writer};

const PROTECTION: &str = "<w:documentProtection w:edit=\"readOnly\" w:enforcement=\"1\" \
w:cryptProviderType=\"rsaFull\" w:cryptAlgorithmClass=\"hash\" w:cryptAlgorithmType=\"typeAny\" \
w:cryptAlgorithmSid=\"4\" w:cryptSpinCount=\"0\" w:hash=\"i1Ge4q/1mFrm4dpp3YwuD26Jte4=\" \
w:salt=\"ql69CaZ9XBh8gn1wvmwi+Q==\"/>";

const SETTINGS_HEAD: &str = "<?xml version=\"1.0\" encoding=\"UTF-8\" standalone=\"yes\"?>\
<w:settings xmlns:w=\"http://schemas.openxmlformats.org/wordprocessingml/2006/main\">";

/// The settings of a document that is protected by a password already.
fn protected_settings() -> String {
    format!(
        "{}<w:zoom w:percent=\"100\"/><w:documentProtection w:edit=\"readOnly\" \
w:enforcement=\"1\" w:cryptProviderType=\"rsaAES\" w:cryptAlgorithmClass=\"hash\" \
w:cryptAlgorithmType=\"typeAny\" w:cryptAlgorithmSid=\"14\" w:cryptSpinCount=\"100000\" \
w:hash=\"abc\" w:salt=\"def\"/><w:defaultTabStop w:val=\"708\"/>\
<w:compat><w:compatSetting w:name=\"compatibilityMode\" w:val=\"15\"/></w:compat></w:settings>",
        SETTINGS_HEAD
    )
}

/// The events of a document as the parser yields them, each as kind and bytes.
fn events_of(xml: &[u8]) -> Vec<(String, Vec<u8>)> {
    let mut reader = Reader::from_reader(xml);
    reader.trim_text(true);
    let mut events = Vec::new();
    loop {
        let event = reader.read_event().unwrap();
        let kind = match &event {
            Event::Start(_) => "start",
            Event::End(_) => "end",
            Event::Empty(_) => "empty",
            Event::Text(_) => "text",
            Event::CData(_) => "cdata",
            Event::Comment(_) => "comment",
            Event::Decl(_) => "decl",
            Event::PI(_) => "pi",
            Event::DocType(_) => "doctype",
            Event::Eof => break,
        };
        events.push((kind.to_string(), event.to_vec()));
    }
    events
}

/// The number of self-closing elements of the given name in a document.
fn count_empty(xml: &[u8], name: &[u8]) -> usize {
    let mut reader = Reader::from_reader(xml);
    reader.trim_text(true);
    let mut count = 0;
    loop {
        match reader.read_event().unwrap() {
            Event::Empty(e) if e.name().as_ref() == name => count += 1,
            Event::Eof => break,
            _ => {}
        }
    }
    count
}

/// The edit written with the parser's own writer: every protection element is
/// dropped and a new one follows the opening tag of the settings element.
fn rewrite_with_writer(xml: &[u8]) -> Vec<u8> {
    let mut reader = Reader::from_reader(xml);
    reader.trim_text(true);
    let mut writer = Writer::new(Vec::new());
    loop {
        match reader.read_event().unwrap() {
            Event::Empty(e) if e.name().as_ref() == b"w:documentProtection" => {}
            Event::Start(e) if e.name().as_ref() == b"w:settings" => {
                writer.write_event(Event::Start(e.into_owned())).unwrap();
                let mut element = BytesStart::new("w:documentProtection");
                element.push_attribute(("w:edit", "readOnly"));
                element.push_attribute(("w:enforcement", "1"));
                element.push_attribute(("w:cryptProviderType", "rsaFull"));
                element.push_attribute(("w:cryptAlgorithmClass", "hash"));
                element.push_attribute(("w:cryptAlgorithmType", "typeAny"));
                element.push_attribute(("w:cryptAlgorithmSid", "4"));
                element.push_attribute(("w:cryptSpinCount", "0"));
                element.push_attribute(("w:hash", "i1Ge4q/1mFrm4dpp3YwuD26Jte4="));
                element.push_attribute(("w:salt", "ql69CaZ9XBh8gn1wvmwi+Q=="));
                writer.write_event(Event::Empty(element)).unwrap();
            }
            Event::Eof => break,
            e => writer.write_event(e).unwrap(),
        }
    }
    writer.into_inner()
}

#[test]
fn apply_settings_readonly_test() {
    let settings_bytes = protected_settings().into_bytes();
    let rewritten = apply_settings_readonly(&settings_bytes).unwrap();
    let expected = format!(
        "{}{}<w:zoom w:percent=\"100\"/><w:defaultTabStop w:val=\"708\"/>\
<w:compat><w:compatSetting w:name=\"compatibilityMode\" w:val=\"15\"/></w:compat></w:settings>",
        SETTINGS_HEAD, PROTECTION
    );
    assert_eq!(String::from_utf8(rewritten).unwrap(), expected);
}

#[test]
fn absent_element_becomes_first_child_of_root() {
    let input = format!("{}<w:zoom w:percent=\"100\"/></w:settings>", SETTINGS_HEAD);
    let rewritten = apply_settings_readonly(input.as_bytes()).unwrap();
    let expected =
        format!("{}{}<w:zoom w:percent=\"100\"/></w:settings>", SETTINGS_HEAD, PROTECTION);
    assert_eq!(String::from_utf8(rewritten.clone()).unwrap(), expected);
    assert_eq!(count_empty(&rewritten, b"w:documentProtection"), 1);
    let again = apply_settings_readonly(&rewritten).unwrap();
    assert_eq!(again, rewritten);
    assert_eq!(count_empty(&again, b"w:documentProtection"), 1);
}

#[test]
fn present_element_is_normalized_and_stays_alone() {
    let rewritten = apply_settings_readonly(protected_settings().as_bytes()).unwrap();
    assert_eq!(count_empty(&rewritten, b"w:documentProtection"), 1);
    let text = String::from_utf8(rewritten).unwrap();
    assert!(text.contains(PROTECTION));
    assert!(!text.contains("rsaAES"));
    assert!(!text.contains("100000"));
    assert!(!text.contains("w:hash=\"abc\""));
}

#[test]
fn other_events_are_not_altered() {
    let input = protected_settings().into_bytes();
    let rewritten = apply_settings_readonly(&input).unwrap();
    let keep = |events: Vec<(String, Vec<u8>)>| -> Vec<(String, Vec<u8>)> {
        events
            .into_iter()
            .filter(|(kind, bytes)| {
                !(kind == "empty" && bytes.starts_with(b"w:documentProtection "))
            })
            .collect()
    };
    assert_eq!(keep(events_of(&rewritten)), keep(events_of(&input)));
}

#[test]
fn rewrite_is_idempotent_on_documents() {
    let documents = vec![
        protected_settings(),
        format!("{}</w:settings>", SETTINGS_HEAD),
        "<w:settings><a>text</a><!-- note --><w:documentProtection/><b/></w:settings>"
            .to_string(),
        "<other><w:documentProtection w:edit=\"none\"/></other>".to_string(),
        "<other/>".to_string(),
        String::new(),
    ];
    for document in documents {
        let once = apply_settings_readonly(document.as_bytes()).unwrap();
        let twice = apply_settings_readonly(&once).unwrap();
        assert_eq!(twice, once);
    }
}

#[test]
fn several_elements_leave_one() {
    let input = b"<w:settings><w:documentProtection a=\"1\"/><x/><w:documentProtection b=\"2\"/></w:settings>";
    let rewritten = apply_settings_readonly(input).unwrap();
    let expected = format!("<w:settings>{}<x/></w:settings>", PROTECTION);
    assert_eq!(String::from_utf8(rewritten).unwrap(), expected);
}

#[test]
fn element_before_the_root_is_replaced_in_place() {
    let out = rewrite_element(b"<t old=\"1\"/><r><a/><t/></r>", b"r", b"t", b"t new=\"2\"").unwrap();
    assert_eq!(out, b"<t new=\"2\"/><r><a/></r>".to_vec());
}

#[test]
fn only_the_first_root_tag_receives_the_element() {
    let out = rewrite_element(b"<r><r><a/></r></r>", b"r", b"t", b"t").unwrap();
    assert_eq!(out, b"<r><t/><r><a/></r></r>".to_vec());
}

#[test]
fn document_without_root_or_element_is_unchanged() {
    let out = rewrite_element(b"<a><b/>text</a>", b"r", b"t", b"t").unwrap();
    assert_eq!(out, b"<a><b/>text</a>".to_vec());
    let empty = rewrite_element(b"", b"r", b"t", b"t").unwrap();
    assert_eq!(empty, Vec::<u8>::new());
}

#[test]
fn names_are_compared_whole() {
    let out = rewrite_element(b"<root><tt/><t x=\"1\"/><t/></root>", b"roo", b"t", b"t y=\"2\"")
        .unwrap();
    assert_eq!(out, b"<root><tt/><t y=\"2\"/></root>".to_vec());
    let start_tag = rewrite_element(b"<r><t></t></r>", b"r", b"t", b"t").unwrap();
    assert_eq!(start_tag, b"<r><t/><t></t></r>".to_vec());
}

#[test]
fn every_kind_of_event_is_written_back() {
    let input = b"<?xml version=\"1.0\"?><!DOCTYPE r><r a=\"1\"><?pi data?><!--note--><![CDATA[<raw>]]>text<e b=\"2\"/></r>";
    let out = rewrite_element(input, b"none", b"nothing", b"nothing").unwrap();
    assert_eq!(out, input.to_vec());
}

#[test]
fn white_space_between_tags_is_trimmed() {
    let out = rewrite_element(b"<r>\n  <a>  kept text \t</a>\n</r >\n", b"r", b"t", b"t").unwrap();
    assert_eq!(out, b"<r><t/><a>kept text</a></r>".to_vec());
}

#[test]
fn truncated_document_is_refused() {
    let input = b"<w:settings><w:zoom w:percent=\"100\"";
    let error = apply_settings_readonly(input).unwrap_err();
    assert_eq!(error.position, 13);
    assert!(matches!(error.cause, ParseCause::Parser(quick_xml::Error::UnexpectedEof(_))));
}

#[test]
fn mismatched_end_tag_is_refused() {
    let input = b"<w:settings><a></b></w:settings>";
    let error = apply_settings_readonly(input).unwrap_err();
    assert!(matches!(
        error.cause,
        ParseCause::Parser(quick_xml::Error::EndEventMismatch { .. })
    ));
    assert_eq!(error.position, 17);
}

#[test]
fn protection_element_has_the_fixed_content() {
    let content = protection_element_content();
    let expected = &PROTECTION.as_bytes()[1..PROTECTION.len() - 2];
    assert_eq!(content, expected.to_vec());
    let mut element = BytesStart::new("w:documentProtection");
    element.push_attribute(("w:edit", "readOnly"));
    element.push_attribute(("w:enforcement", "1"));
    element.push_attribute(("w:cryptProviderType", "rsaFull"));
    element.push_attribute(("w:cryptAlgorithmClass", "hash"));
    element.push_attribute(("w:cryptAlgorithmType", "typeAny"));
    element.push_attribute(("w:cryptAlgorithmSid", "4"));
    element.push_attribute(("w:cryptSpinCount", "0"));
    element.push_attribute(("w:hash", "i1Ge4q/1mFrm4dpp3YwuD26Jte4="));
    element.push_attribute(("w:salt", "ql69CaZ9XBh8gn1wvmwi+Q=="));
    assert_eq!(content, element.to_vec());
    let attributes: Vec<(Vec<u8>, Vec<u8>)> = element
        .attributes()
        .map(|a| {
            let a = a.unwrap();
            (a.key.as_ref().to_vec(), a.value.to_vec())
        })
        .collect();
    assert_eq!(attributes.len(), 9);
}

#[test]
fn output_matches_the_parser_s_own_writer() {
    let documents = vec![
        protected_settings(),
        format!("{}<w:zoom w:percent=\"100\"/></w:settings>", SETTINGS_HEAD),
        "<?xml version=\"1.0\"?>\n<!DOCTYPE w:settings>\n<w:settings >\n <!-- c --> <a x='1' >t &amp; u</a >\n <![CDATA[ raw ]]> <?pi?> <w:documentProtection />\n</w:settings>\n".to_string(),
    ];
    for document in documents {
        let ours = apply_settings_readonly(document.as_bytes()).unwrap();
        assert_eq!(ours, rewrite_with_writer(document.as_bytes()));
    }
}

#[test]
fn document_that_ends_inside_a_tag_is_refused() {
    let error = apply_settings_readonly(b"<w:settings></w:settings").unwrap_err();
    assert!(matches!(error.cause, ParseCause::EndsInsideTag));
    assert_eq!(error.position, 12);
    let error = apply_settings_readonly(b"<w:settings><a/></w:settings><?pi ?").unwrap_err();
    assert!(matches!(error.cause, ParseCause::EndsInsideTag));
    assert_eq!(error.position, 29);
    let error = rewrite_element(b"<r></r", b"r", b"t", b"t").unwrap_err();
    assert!(matches!(error.cause, ParseCause::EndsInsideTag));
    assert_eq!(error.position, 3);
}

#[test]
fn document_with_an_element_left_open_is_refused() {
    let input = b"<w:settings><w:zoom w:percent=\"100\"/>";
    let error = apply_settings_readonly(input).unwrap_err();
    assert!(matches!(error.cause, ParseCause::Unclosed));
    assert_eq!(error.position, input.len());
    let error = rewrite_element(b"<a><b></b>", b"r", b"t", b"t").unwrap_err();
    assert!(matches!(error.cause, ParseCause::Unclosed));
    assert_eq!(error.position, 10);
    assert!(rewrite_element(b"<a><b></b></a>", b"r", b"t", b"t").is_ok());
    assert!(rewrite_element(b"<a/>text", b"r", b"t", b"t").is_ok());
}

#[test]
fn the_parser_s_fault_comes_before_the_other_refusals() {
    let error = apply_settings_readonly(b"<a><b></c><d").unwrap_err();
    assert!(matches!(error.cause, ParseCause::Parser(_)));
    let error = apply_settings_readonly(b"<a><w:zoom").unwrap_err();
    assert!(matches!(error.cause, ParseCause::Parser(_)));
    assert_eq!(error.position, 4);
}

#[test]
fn open_tag_at_end_finds_the_last_unclosed_bracket() {
    assert_eq!(open_tag_at_end(b""), None);
    assert_eq!(open_tag_at_end(b"text"), None);
    assert_eq!(open_tag_at_end(b"<a>"), None);
    assert_eq!(open_tag_at_end(b"<a> 1 > 0"), None);
    assert_eq!(open_tag_at_end(b"<"), Some(0));
    assert_eq!(open_tag_at_end(b"<a></a"), Some(3));
    assert_eq!(open_tag_at_end(b"<a><<"), Some(4));
}
