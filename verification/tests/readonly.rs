use docx_readonly::{make_docx_readonly_from_buf, DocxError};
use quick_xml::events::Event;
use quick_xml::Reader;
use std::io::{Cursor, Read, Write};
use zip::write::FileOptions;
use zip::{CompressionMethod, ZipArchive, ZipWriter};

const SETTINGS_WITHOUT_PROTECTION: &[u8] =
    b"<?xml version=\"1.0\" encoding=\"UTF-8\" standalone=\"yes\"?>\r\n\
<w:settings xmlns:w=\"http://schemas.openxmlformats.org/wordprocessingml/2006/main\">\
<w:zoom w:percent=\"100\"/><w:defaultTabStop w:val=\"708\"/></w:settings>";

fn source_docx(settings: Option<&[u8]>) -> Vec<u8> {
    let mut writer = ZipWriter::new(Cursor::new(Vec::new()));
    let deflated = FileOptions::default().compression_method(CompressionMethod::Deflated);
    let stored = FileOptions::default().compression_method(CompressionMethod::Stored);
    writer.start_file("[Content_Types].xml", deflated).unwrap();
    writer.write_all(b"<Types xmlns=\"http://schemas.openxmlformats.org/package/2006/content-types\"/>").unwrap();
    writer.add_directory("_rels/", FileOptions::default()).unwrap();
    writer.start_file("_rels/.rels", deflated).unwrap();
    writer.write_all(b"<Relationships/>").unwrap();
    writer.start_file("word/document.xml", deflated).unwrap();
    writer.write_all(&b"<w:p><w:r><w:t>Hello</w:t></w:r></w:p>".repeat(50)).unwrap();
    if let Some(settings) = settings {
        writer.start_file("word/settings.xml", deflated).unwrap();
        writer.write_all(settings).unwrap();
    }
    writer.start_file("word/media/image1.png", stored).unwrap();
    writer.write_all(&[0x89, 0x50, 0x4e, 0x47, 0x0d, 0x0a, 0x1a, 0x0a, 0, 1, 2, 3, 255]).unwrap();
    writer.finish().unwrap().into_inner()
}

/// Name, stored bytes, checksum and method of every member.
fn raw_members(docx: &[u8]) -> Vec<(String, Vec<u8>, u32, CompressionMethod)> {
    let mut archive = ZipArchive::new(Cursor::new(docx)).unwrap();
    let mut members = Vec::new();
    for i in 0..archive.len() {
        let mut file = archive.by_index_raw(i).unwrap();
        let mut stored = Vec::new();
        file.read_to_end(&mut stored).unwrap();
        members.push((file.name().to_string(), stored, file.crc32(), file.compression()));
    }
    members
}

fn member(docx: &[u8], name: &str) -> Vec<u8> {
    let mut archive = ZipArchive::new(Cursor::new(docx)).unwrap();
    let mut file = archive.by_name(name).unwrap();
    let mut content = Vec::new();
    file.read_to_end(&mut content).unwrap();
    content
}

/// The attributes of every self-closing `w:documentProtection` element.
fn protection_elements(settings: &[u8]) -> Vec<Vec<(String, String)>> {
    let mut reader = Reader::from_reader(settings);
    let mut elements = Vec::new();
    loop {
        match reader.read_event().unwrap() {
            Event::Empty(e) if e.name().as_ref() == b"w:documentProtection" => {
                let attributes = e
                    .attributes()
                    .map(|a| {
                        let a = a.unwrap();
                        (
                            String::from_utf8(a.key.as_ref().to_vec()).unwrap(),
                            String::from_utf8(a.value.to_vec()).unwrap(),
                        )
                    })
                    .collect();
                elements.push(attributes);
            }
            Event::Start(e) => assert_ne!(e.name().as_ref(), b"w:documentProtection"),
            Event::Eof => break,
            _ => {}
        }
    }
    elements
}

fn fixed_attributes() -> Vec<(String, String)> {
    vec![
        ("w:edit", "readOnly"),
        ("w:enforcement", "1"),
        ("w:cryptProviderType", "rsaFull"),
        ("w:cryptAlgorithmClass", "hash"),
        ("w:cryptAlgorithmType", "typeAny"),
        ("w:cryptAlgorithmSid", "4"),
        ("w:cryptSpinCount", "0"),
        ("w:hash", "i1Ge4q/1mFrm4dpp3YwuD26Jte4="),
        ("w:salt", "ql69CaZ9XBh8gn1wvmwi+Q=="),
    ]
    .into_iter()
    .map(|(name, value)| (name.to_string(), value.to_string()))
    .collect()
}

#[test]
fn make_docx_readonly_from_buf_test() {
    let file_content = source_docx(Some(SETTINGS_WITHOUT_PROTECTION));
    let readonly_file_content = make_docx_readonly_from_buf(&file_content).unwrap();
    assert!(ZipArchive::new(Cursor::new(readonly_file_content)).is_ok());
}

#[test]
fn readonly_document_holds_the_protection_element() {
    let source = source_docx(Some(SETTINGS_WITHOUT_PROTECTION));
    let readonly = make_docx_readonly_from_buf(&source).unwrap();
    let settings = member(&readonly, "word/settings.xml");
    assert_eq!(protection_elements(&settings), vec![fixed_attributes()]);
    let text = String::from_utf8(settings).unwrap();
    assert!(text.starts_with(
        "<?xml version=\"1.0\" encoding=\"UTF-8\" standalone=\"yes\"?><w:settings xmlns:w=\"http://schemas.openxmlformats.org/wordprocessingml/2006/main\"><w:documentProtection w:edit=\"readOnly\""
    ));
    assert!(text.ends_with("/><w:zoom w:percent=\"100\"/><w:defaultTabStop w:val=\"708\"/></w:settings>"));
}

#[test]
fn readonly_document_keeps_every_other_member() {
    let source = source_docx(Some(SETTINGS_WITHOUT_PROTECTION));
    let readonly = make_docx_readonly_from_buf(&source).unwrap();
    let before = raw_members(&source);
    let after = raw_members(&readonly);
    assert_eq!(after.len(), 6);
    assert_eq!(after.len(), before.len());
    for (old, new) in before.iter().zip(after.iter()) {
        assert_eq!(old.0, new.0);
        if old.0 != "word/settings.xml" {
            assert_eq!(old, new);
        }
    }
    assert_eq!(member(&readonly, "word/document.xml"), member(&source, "word/document.xml"));
    assert_eq!(
        member(&readonly, "word/media/image1.png"),
        vec![0x89, 0x50, 0x4e, 0x47, 0x0d, 0x0a, 0x1a, 0x0a, 0, 1, 2, 3, 255]
    );
}

#[test]
fn readonly_twice_is_readonly_once() {
    let source = source_docx(Some(SETTINGS_WITHOUT_PROTECTION));
    let once = make_docx_readonly_from_buf(&source).unwrap();
    let twice = make_docx_readonly_from_buf(&once).unwrap();
    assert_eq!(member(&twice, "word/settings.xml"), member(&once, "word/settings.xml"));
    assert_eq!(twice, once);
}

#[test]
fn document_without_settings_is_copied() {
    let source = source_docx(None);
    let readonly = make_docx_readonly_from_buf(&source).unwrap();
    let before = raw_members(&source);
    let after = raw_members(&readonly);
    assert_eq!(before.len(), 5);
    assert_eq!(after.len(), 5);
    for (old, new) in before.iter().zip(after.iter()) {
        assert_eq!(old.0, new.0);
        if !old.0.ends_with('/') {
            assert_eq!(old, new);
        }
    }
    let mut archive = ZipArchive::new(Cursor::new(readonly)).unwrap();
    assert!(archive.by_name("word/settings.xml").is_err());
}

#[test]
fn malformed_settings_are_reported_as_xml_error() {
    let source = source_docx(Some(b"<w:settings><w:zoom w:percent=\"100\""));
    match make_docx_readonly_from_buf(&source) {
        Err(DocxError::XmlError(e)) => assert_eq!(e.position, 13),
        other => panic!("unexpected: {:?}", other),
    }
}

#[test]
fn what_is_no_archive_is_reported_as_zip_error() {
    let result = make_docx_readonly_from_buf(SETTINGS_WITHOUT_PROTECTION);
    assert!(matches!(result, Err(DocxError::ZipError(_))));
}

#[test]
fn settings_that_end_inside_a_tag_or_leave_an_element_open_are_refused() {
    let cut = source_docx(Some(b"<w:settings><w:zoom w:percent=\"100\"/></w:settings"));
    match make_docx_readonly_from_buf(&cut) {
        Err(DocxError::XmlError(e)) => assert_eq!(e.position, 37),
        other => panic!("unexpected: {:?}", other),
    }
    let open = source_docx(Some(b"<w:settings><w:zoom w:percent=\"100\"/>"));
    match make_docx_readonly_from_buf(&open) {
        Err(DocxError::XmlError(e)) => assert_eq!(e.position, 37),
        other => panic!("unexpected: {:?}", other),
    }
}
