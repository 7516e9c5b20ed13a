use pdfmeta::reader::PdfError;
use pdfmeta::reader::PdfReader;

#[test]
fn locate_eof_finds_marker_and_returns_preceding_offset() {
    // "AB\n9\n%%EOF\n": the byte before the %%EOF line is the '9' at index 3.
    let pdf = PdfReader::new(b"AB\n9\n%%EOF\n".to_vec());
    assert_eq!(pdf.locate_eof(), Ok(3));
}

#[test]
fn locate_eof_without_marker_is_structure_not_found() {
    let pdf = PdfReader::new(b"nothing here\njust lines\n".to_vec());
    assert_eq!(pdf.locate_eof(), Err(PdfError::StructureNotFound));
}

#[test]
fn locate_eof_beyond_search_limit_is_structure_not_found() {
    // %%EOF exists but more than 16 lines separate it from the end.
    let mut bytes = b"%%EOF\n".to_vec();
    for _ in 0..17 {
        bytes.extend_from_slice(b"filler\n");
    }
    let pdf = PdfReader::new(bytes);
    assert_eq!(pdf.locate_eof(), Err(PdfError::StructureNotFound));
}

#[test]
fn locate_eof_on_empty_stream_is_structure_not_found() {
    let pdf = PdfReader::new(Vec::new());
    assert_eq!(pdf.locate_eof(), Err(PdfError::StructureNotFound));
}

#[test]
fn locate_xref_offset_reads_the_number_line() {
    let bytes = b"AB\n1234\n%%EOF\n".to_vec();
    let pdf = PdfReader::new(bytes);
    let eof_pos = pdf.locate_eof().unwrap();
    assert_eq!(pdf.locate_xref_offset(eof_pos), Ok(1234));
}

#[test]
fn locate_xref_offset_rejects_a_non_number() {
    let pdf = PdfReader::new(b"AB\nnine\n%%EOF\n".to_vec());
    let eof_pos = pdf.locate_eof().unwrap();
    assert_eq!(pdf.locate_xref_offset(eof_pos), Err(PdfError::MalformedXref));
}

#[test]
fn locate_trailer_returns_position_of_dict_open() {
    let bytes = b"data\ntrailer\n<< /Size 1 /Info 1 0 >>\n%%EOF\n".to_vec();
    let lt = bytes.iter().position(|&b| b == b'<').unwrap();
    let pdf = PdfReader::new(bytes);
    assert_eq!(pdf.locate_trailer(), Ok(lt));
}

#[test]
fn locate_trailer_without_keyword_is_structure_not_found() {
    let pdf = PdfReader::new(b"no dictionary here\n<<>>\n".to_vec());
    assert_eq!(pdf.locate_trailer(), Err(PdfError::StructureNotFound));
}

#[test]
fn locate_operations_are_idempotent() {
    let bytes = b"data\ntrailer\n<< /Size 1 /Info 1 0 >>\nstartxref\n9\n%%EOF\n".to_vec();
    let pdf = PdfReader::new(bytes);
    assert_eq!(pdf.locate_eof(), pdf.locate_eof());
    assert_eq!(pdf.locate_trailer(), pdf.locate_trailer());
    let eof_pos = pdf.locate_eof().unwrap();
    assert_eq!(
        pdf.locate_xref_offset(eof_pos),
        pdf.locate_xref_offset(eof_pos)
    );
}
