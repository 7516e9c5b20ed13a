use pdfmeta::reader::ObjType;
use pdfmeta::reader::PdfReader;
use pdfmeta::reader::XrefRecord;

fn minimal_file() -> Vec<u8> {
    // A minimal synthetic file whose startxref line points at the xref
    // keyword (byte 9).
    b"1 0 obj\n\nxref\n0 1\n0000000000 00000 f \ntrailer\n<< /Size 1 /Info 1 0 >>\nstartxref\n9\n%%EOF"
        .to_vec()
}

#[test]
fn end_to_end_minimal_file() {
    let pdf = PdfReader::new(minimal_file());
    let eof_pos = pdf.locate_eof().unwrap();
    let xref_off = pdf.locate_xref_offset(eof_pos).unwrap();
    assert_eq!(xref_off, 9);
    let table = pdf.parse_xref_table(xref_off).unwrap();
    assert_eq!(table.len(), 1);
    assert_eq!(
        table.get(0, 0),
        Some(XrefRecord {
            byte: 0,
            obj_type: ObjType::F
        })
    );
    let trailer_pos = pdf.locate_trailer().unwrap();
    let trailer = pdf.parse_trailer(trailer_pos).unwrap();
    assert_eq!(trailer.size, 1);
    assert_eq!(trailer.info.id, 1);
    assert_eq!(trailer.info.generation, 0);
}

#[test]
fn end_to_end_operations_are_idempotent() {
    let pdf = PdfReader::new(minimal_file());
    assert_eq!(pdf.locate_eof(), pdf.locate_eof());
    let eof_pos = pdf.locate_eof().unwrap();
    assert_eq!(
        pdf.locate_xref_offset(eof_pos),
        pdf.locate_xref_offset(eof_pos)
    );
    let xref_off = pdf.locate_xref_offset(eof_pos).unwrap();
    let t1 = pdf.parse_xref_table(xref_off).unwrap();
    let t2 = pdf.parse_xref_table(xref_off).unwrap();
    assert_eq!(t1.len(), t2.len());
    assert_eq!(t1.get(0, 0), t2.get(0, 0));
    assert_eq!(pdf.locate_trailer(), pdf.locate_trailer());
    let trailer_pos = pdf.locate_trailer().unwrap();
    assert_eq!(pdf.parse_trailer(trailer_pos), pdf.parse_trailer(trailer_pos));
}
