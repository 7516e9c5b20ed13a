use pdfmeta::reader::ObjType;
use pdfmeta::reader::PdfError;
use pdfmeta::reader::PdfReader;
use pdfmeta::reader::XrefRecord;

#[test]
fn obj_type_new_reads_the_flag() {
    assert_eq!(ObjType::new("f"), Ok(ObjType::F));
    assert_eq!(ObjType::new("n"), Ok(ObjType::N));
    assert_eq!(ObjType::new("x"), Err(()));
    assert_eq!(ObjType::new(""), Err(()));
    assert_eq!(ObjType::new("fn"), Err(()));
}

#[test]
fn parse_xref_table_builds_three_entries() {
    let bytes = b"xref\n0 3\n0000000017 00000 n \n0000000081 00007 n \n0000000000 00005 f \n";
    let pdf = PdfReader::new(bytes.to_vec());
    let table = pdf.parse_xref_table(0).unwrap();
    assert_eq!(table.len(), 3);
    assert_eq!(
        table.get(0, 0),
        Some(XrefRecord {
            byte: 17,
            obj_type: ObjType::N
        })
    );
    assert_eq!(
        table.get(1, 7),
        Some(XrefRecord {
            byte: 81,
            obj_type: ObjType::N
        })
    );
    assert_eq!(
        table.get(2, 5),
        Some(XrefRecord {
            byte: 0,
            obj_type: ObjType::F
        })
    );
    assert_eq!(table.get(1, 0), None);
}

#[test]
fn parse_xref_table_rejects_two_token_entry() {
    let bytes = b"xref\n0 1\n0000000017 n\n";
    let pdf = PdfReader::new(bytes.to_vec());
    assert!(matches!(
        pdf.parse_xref_table(0),
        Err(PdfError::MalformedXref)
    ));
}

#[test]
fn parse_xref_table_rejects_bad_flag_and_bad_numbers() {
    let pdf = PdfReader::new(b"xref\n0 1\n0000000017 00000 q \n".to_vec());
    assert!(matches!(
        pdf.parse_xref_table(0),
        Err(PdfError::MalformedXref)
    ));
    let pdf = PdfReader::new(b"xref\n0 1\nxxxxxxxxxx 00000 n \n".to_vec());
    assert!(matches!(
        pdf.parse_xref_table(0),
        Err(PdfError::MalformedXref)
    ));
}

#[test]
fn parse_xref_table_rejects_bad_header() {
    let pdf = PdfReader::new(b"xref\nnocount\n".to_vec());
    assert!(matches!(
        pdf.parse_xref_table(0),
        Err(PdfError::MalformedXref)
    ));
    let pdf = PdfReader::new(b"xref\n0 x\n".to_vec());
    assert!(matches!(
        pdf.parse_xref_table(0),
        Err(PdfError::MalformedXref)
    ));
}

#[test]
fn parse_xref_table_tolerates_a_missing_keyword() {
    // The offset may point directly at the subsection header.
    let bytes = b"0 1\n0000000003 00002 n \n";
    let pdf = PdfReader::new(bytes.to_vec());
    let table = pdf.parse_xref_table(0).unwrap();
    assert_eq!(table.len(), 1);
    assert_eq!(
        table.get(0, 2),
        Some(XrefRecord {
            byte: 3,
            obj_type: ObjType::N
        })
    );
}

#[test]
fn parse_xref_table_rejects_truncated_entries() {
    // The header declares more entries than the stream holds.
    let pdf = PdfReader::new(b"xref\n0 2\n0000000017 00000 n \n".to_vec());
    assert!(matches!(
        pdf.parse_xref_table(0),
        Err(PdfError::MalformedXref)
    ));
}

#[test]
fn parse_xref_table_header_splits_on_whitespace_runs() {
    // The count is the second whitespace-delimited token: runs of spaces
    // or a tab separate the fields just as a single space does.
    let pdf = PdfReader::new(b"xref\n0  1\n0000000003 00002 n \n".to_vec());
    assert_eq!(pdf.parse_xref_table(0).unwrap().len(), 1);
    let pdf = PdfReader::new(b"xref\n0\t1\n0000000003 00002 n \n".to_vec());
    assert_eq!(pdf.parse_xref_table(0).unwrap().len(), 1);
}

#[test]
fn parse_xref_table_with_zero_count_is_empty() {
    let pdf = PdfReader::new(b"xref\n0 0\ntrailer\n".to_vec());
    let table = pdf.parse_xref_table(0).unwrap();
    assert_eq!(table.len(), 0);
    assert_eq!(table.get(0, 0), None);
}

#[test]
fn parse_xref_table_is_idempotent() {
    let bytes = b"xref\n0 2\n0000000017 00000 n \n0000000081 00007 f \n";
    let pdf = PdfReader::new(bytes.to_vec());
    let t1 = pdf.parse_xref_table(0).unwrap();
    let t2 = pdf.parse_xref_table(0).unwrap();
    assert_eq!(t1.len(), t2.len());
    assert_eq!(t1.get(0, 0), t2.get(0, 0));
    assert_eq!(t1.get(1, 7), t2.get(1, 7));
}
