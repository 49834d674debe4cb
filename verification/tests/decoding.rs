use std::io::Cursor;
use textrank::decode::{decode, extension_of, format_of, DecodeError, FormatKind};
use textrank::params::Params;

#[test]
fn extensions_follow_the_last_dot_of_the_file_name() {
    assert_eq!(extension_of(&"dir/file.txt".to_string()), "txt");
    assert_eq!(extension_of(&"archive.tar.gz".to_string()), "gz");
    assert_eq!(extension_of(&"no_extension".to_string()), "");
    assert_eq!(extension_of(&"dir.d/no_extension".to_string()), "");
    assert_eq!(extension_of(&".hidden".to_string()), "");
    assert_eq!(extension_of(&"a/b/c.PDF".to_string()), "PDF");
}

#[test]
fn formats_dispatch_by_extension() {
    assert_eq!(format_of(&"txt".to_string()), FormatKind::Plain);
    assert_eq!(format_of(&"".to_string()), FormatKind::Plain);
    assert_eq!(format_of(&"pdf".to_string()), FormatKind::Pdf);
    assert_eq!(format_of(&"docx".to_string()), FormatKind::Docx);
    assert_eq!(format_of(&"md".to_string()), FormatKind::Unknown);
    // the match is case-sensitive, as the dispatch in the indexer is
    assert_eq!(format_of(&"TXT".to_string()), FormatKind::Unknown);
}

#[test]
fn plain_text_decodes_exactly() {
    let bytes: Vec<u8> = "Hi there".bytes().collect();
    let cs = decode(FormatKind::Plain, &bytes).unwrap();
    assert_eq!(cs, "Hi there".chars().collect::<Vec<char>>());
}

#[test]
fn invalid_utf8_decodes_lossily() {
    let bytes: Vec<u8> = vec![b'a', 0xff, b'b'];
    let cs = decode(FormatKind::Unknown, &bytes).unwrap();
    assert_eq!(cs, vec!['a', '\u{fffd}', 'b']);
}

#[test]
fn docx_paragraphs_join_with_spaces() {
    let docx = docx_rs::Docx::new()
        .add_paragraph(
            docx_rs::Paragraph::new().add_run(docx_rs::Run::new().add_text("Hello world")),
        )
        .add_paragraph(
            docx_rs::Paragraph::new().add_run(docx_rs::Run::new().add_text("Second paragraph")),
        );
    let mut buf: Cursor<Vec<u8>> = Cursor::new(Vec::new());
    docx.build().pack(&mut buf).unwrap();
    let bytes = buf.into_inner();
    let cs = decode(FormatKind::Docx, &bytes).unwrap();
    let text: String = cs.into_iter().collect();
    assert_eq!(text, "Hello world Second paragraph");
}

#[test]
fn malformed_docx_is_rejected() {
    let bytes: Vec<u8> = vec![1, 2, 3, 4, 5];
    assert_eq!(decode(FormatKind::Docx, &bytes), Err(DecodeError::Malformed));
}

#[test]
fn params_take_a_folder_and_a_joined_query() {
    let args = vec![
        "prog".to_string(),
        "some/dir".to_string(),
        "hello".to_string(),
        "world".to_string(),
    ];
    let p = Params::new(&args).unwrap();
    assert_eq!(p.path, "some/dir");
    assert_eq!(p.query, "hello world".chars().collect::<Vec<char>>());
}

#[test]
fn too_few_arguments_yield_a_usage_line() {
    let args = vec!["prog".to_string(), "dir".to_string()];
    let e = Params::new(&args).unwrap_err();
    assert_eq!(e, "Usage: prog [filename] [query]");
}
