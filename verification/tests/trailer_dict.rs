use pdfmeta::reader::PdfError;
use pdfmeta::reader::PdfReader;
use pdfmeta::reader::TrailerField;
use pdfmeta::trailer::ObjectRef;
use pdfmeta::trailer::TrailerObject;

#[test]
fn parse_trailer_extracts_size_and_info() {
    let pdf = PdfReader::new(b"<< /Size 7 /Info 3 0 >>".to_vec());
    assert_eq!(
        pdf.parse_trailer(0),
        Ok(TrailerObject {
            size: 7,
            info: ObjectRef {
                id: 3,
                generation: 0
            }
        })
    );
}

#[test]
fn parse_trailer_without_info_is_missing_field() {
    let pdf = PdfReader::new(b"<< /Size 7 >>".to_vec());
    assert_eq!(
        pdf.parse_trailer(0),
        Err(PdfError::MissingField(TrailerField::Info))
    );
}

#[test]
fn parse_trailer_without_size_is_missing_field() {
    let pdf = PdfReader::new(b"<< /Info 3 0 >>".to_vec());
    assert_eq!(
        pdf.parse_trailer(0),
        Err(PdfError::MissingField(TrailerField::Size))
    );
}

#[test]
fn parse_trailer_unterminated_dict_is_malformed() {
    let pdf = PdfReader::new(b"<< /Size 7 /Info 3 0 ".to_vec());
    assert_eq!(pdf.parse_trailer(0), Err(PdfError::MalformedTrailer));
}

#[test]
fn parse_trailer_non_ascii_byte_is_malformed() {
    let mut bytes = b"<< /Size 7 ".to_vec();
    bytes.push(0xC3);
    bytes.extend_from_slice(b" /Info 3 0 >>");
    let pdf = PdfReader::new(bytes);
    assert_eq!(pdf.parse_trailer(0), Err(PdfError::MalformedTrailer));
}

#[test]
fn parse_trailer_overlarge_number_is_malformed() {
    let pdf = PdfReader::new(b"<< /Size 99999999999999999999 /Info 3 0 >>".to_vec());
    assert_eq!(pdf.parse_trailer(0), Err(PdfError::MalformedTrailer));
}

#[test]
fn parse_trailer_takes_the_leftmost_match() {
    // Two /Size occurrences: the first one wins.
    let pdf = PdfReader::new(b"<< /Size 11 /Size 22 /Info 4 5 >>".to_vec());
    assert_eq!(
        pdf.parse_trailer(0),
        Ok(TrailerObject {
            size: 11,
            info: ObjectRef {
                id: 4,
                generation: 5
            }
        })
    );
}

#[test]
fn parse_trailer_stops_at_the_closing_delimiter() {
    // The /Info after the first >> is not part of the dictionary.
    let pdf = PdfReader::new(b"<< /Size 7 >> /Info 3 0 >>".to_vec());
    assert_eq!(
        pdf.parse_trailer(0),
        Err(PdfError::MissingField(TrailerField::Info))
    );
}

#[test]
fn parse_trailer_is_idempotent() {
    let pdf = PdfReader::new(b"<< /Size 7 /Info 3 0 >>".to_vec());
    assert_eq!(pdf.parse_trailer(0), pdf.parse_trailer(0));
}
