//! The Trailer Parser: accumulates the trailer dictionary's text up to its
//! closing `>>` delimiter, then extracts the `/Size` and `/Info` fields by
//! pattern matching and reads their numbers.

use vstd::prelude::*;

use crate::reader::PdfError;
use crate::reader::TrailerField;
use crate::text::all_ascii;
use crate::text::digit_run_end;
use crate::text::is_digit_byte;
use crate::text::parse_u64;
use crate::text::parse_u64_spec;

verus! {

/// A reference to an object revision in the trailer dictionary.
#[derive(Clone, Copy, Debug, PartialEq, Eq, Structural)]
pub struct ObjectRef {
    pub id: u64,
    pub generation: u64,
}

/// The trailer fields the core cares about: the declared table size and the
/// reference to the document-information object.
#[derive(Clone, Copy, Debug, PartialEq, Eq, Structural)]
pub struct TrailerObject {
    pub size: u64,
    pub info: ObjectRef,
}

/// The dictionary text collected from `p` up to and including the first
/// `>>` pair, where a lone `>` and the byte after it are both kept. Running
/// off the end of the stream, or meeting a non-ASCII byte, yields nothing.
pub open spec fn scan_dict(b: Seq<u8>, p: int) -> Option<Seq<u8>>
    decreases b.len() - p,
{
    if !(0 <= p < b.len()) {
        None
    } else if b[p] == 62 {
        if p + 1 >= b.len() {
            None
        } else if b[p + 1] == 62 {
            Some(seq![62u8, 62u8])
        } else if b[p + 1] >= 128 {
            None
        } else {
            match scan_dict(b, p + 2) {
                None => None,
                Some(rest) => Some(seq![b[p], b[p + 1]] + rest),
            }
        }
    } else if b[p] >= 128 {
        None
    } else {
        match scan_dict(b, p + 1) {
            None => None,
            Some(rest) => Some(seq![b[p]] + rest),
        }
    }
}

/// The bytes of `/Size `.
pub open spec fn size_lit() -> Seq<u8> {
    seq![47u8, 83u8, 105u8, 122u8, 101u8, 32u8]
}

/// The bytes of `/Info `.
pub open spec fn info_lit() -> Seq<u8> {
    seq![47u8, 73u8, 110u8, 102u8, 111u8, 32u8]
}

/// Does `/Size ` followed by a digit stand at index `i`?
pub open spec fn size_match_at(s: Seq<u8>, i: int) -> bool {
    0 <= i && i + 6 < s.len() && s.subrange(i, i + 6) == size_lit() && is_digit_byte(s[i + 6])
}

/// The smallest index `>= i` where `/Size ` followed by a digit stands.
pub open spec fn first_size_match(s: Seq<u8>, i: int) -> Option<int>
    decreases s.len() - i,
{
    if !(0 <= i && i + 7 <= s.len()) {
        None
    } else if size_match_at(s, i) {
        Some(i)
    } else {
        first_size_match(s, i + 1)
    }
}

/// The digits that the pattern `/Size (\d+)` captures at its leftmost
/// match: the whole digit run after the literal.
pub open spec fn size_capture_spec(s: Seq<u8>) -> Option<Seq<u8>> {
    match first_size_match(s, 0) {
        None => None,
        Some(i) => Some(s.subrange(i + 6, digit_run_end(s, i + 6))),
    }
}

/// Does `/Info ` followed by a digit run, a space and another digit stand
/// at index `i`?
pub open spec fn info_match_at(s: Seq<u8>, i: int) -> bool {
    let j = digit_run_end(s, i + 6);
    0 <= i && i + 6 < s.len() && s.subrange(i, i + 6) == info_lit() && is_digit_byte(s[i + 6])
        && j < s.len() && s[j] == 32 && j + 1 < s.len() && is_digit_byte(s[j + 1])
}

/// The smallest index `>= i` where the `/Info ` pattern matches.
pub open spec fn first_info_match(s: Seq<u8>, i: int) -> Option<int>
    decreases s.len() - i,
{
    if !(0 <= i && i + 7 <= s.len()) {
        None
    } else if info_match_at(s, i) {
        Some(i)
    } else {
        first_info_match(s, i + 1)
    }
}

/// The two digit groups that the pattern `/Info (\d+) (\d+)` captures at
/// its leftmost match.
pub open spec fn info_captures_spec(s: Seq<u8>) -> Option<(Seq<u8>, Seq<u8>)> {
    match first_info_match(s, 0) {
        None => None,
        Some(i) => {
            let j = digit_run_end(s, i + 6);
            Some((s.subrange(i + 6, j), s.subrange(j + 1, digit_run_end(s, j + 1))))
        },
    }
}

/// Relies on `regex::Regex::new` and `Regex::captures` with the pattern
/// `/Size (\d+)`: `captures` finds the leftmost match, and on ASCII text
/// `\d` is the decimal digits, so the group holds the whole digit run that
/// follows the first `/Size ` standing before a digit.
#[verifier::external_body]
fn capture_size(text: &[u8]) -> (r: Option<Vec<u8>>)
    requires
        all_ascii(text@),
    ensures
        r is Some <==> size_capture_spec(text@) is Some,
        r matches Some(v) ==> size_capture_spec(text@) == Some(v@),
{
    let s = core::str::from_utf8(text).unwrap();
    let re = regex::Regex::new(r"/Size (\d+)").unwrap();
    re.captures(s).map(|c| c.get(1).unwrap().as_str().as_bytes().to_vec())
}

/// Relies on `regex::Regex::new` and `Regex::captures` with the pattern
/// `/Info (\d+) (\d+)`: at the leftmost match the first group is the whole
/// digit run after the literal — the following space forbids a shorter
/// one — and the second is the digit run after that space.
#[verifier::external_body]
fn capture_info(text: &[u8]) -> (r: Option<(Vec<u8>, Vec<u8>)>)
    requires
        all_ascii(text@),
    ensures
        r is Some <==> info_captures_spec(text@) is Some,
        r matches Some(v) ==> info_captures_spec(text@) == Some((v.0@, v.1@)),
{
    let s = core::str::from_utf8(text).unwrap();
    let re = regex::Regex::new(r"/Info (\d+) (\d+)").unwrap();
    re.captures(s).map(
        |c|
            (
                c.get(1).unwrap().as_str().as_bytes().to_vec(),
                c.get(2).unwrap().as_str().as_bytes().to_vec(),
            ),
    )
}

/// The trailer object read off an accumulated dictionary text: each capture
/// that is absent is a missing field, and a number too large for 64 bits
/// makes the trailer malformed.
pub open spec fn trailer_fields_spec(buf: Seq<u8>) -> Result<TrailerObject, PdfError> {
    match size_capture_spec(buf) {
        None => Err(PdfError::MissingField(TrailerField::Size)),
        Some(sd) => match info_captures_spec(buf) {
            None => Err(PdfError::MissingField(TrailerField::Info)),
            Some(ds) => match (parse_u64_spec(sd), parse_u64_spec(ds.0), parse_u64_spec(ds.1)) {
                (Some(size), Some(id), Some(generation)) => Ok(
                    TrailerObject { size, info: ObjectRef { id, generation } },
                ),
                _ => Err(PdfError::MalformedTrailer),
            },
        },
    }
}

/// What `parse_trailer` returns for the dictionary at `pos`.
pub open spec fn parse_trailer_spec(b: Seq<u8>, pos: int) -> Result<TrailerObject, PdfError> {
    match scan_dict(b, pos) {
        None => Err(PdfError::MalformedTrailer),
        Some(buf) => trailer_fields_spec(buf),
    }
}

/// Collects the dictionary text starting at `pos` up to its `>>`.
#[verifier::loop_isolation(false)]
fn scan_dict_exec(bytes: &[u8], pos: usize) -> (r: Option<Vec<u8>>)
    ensures
        match scan_dict(bytes@, pos as int) {
            None => r is None,
            Some(s) => r matches Some(v) && v@ == s && all_ascii(s),
        },
{
    let n = bytes.len();
    let mut cur = if pos > n {
        n
    } else {
        pos
    };
    let mut acc: Vec<u8> = Vec::new();
    loop
        invariant
            cur <= n,
            all_ascii(acc@),
            (match scan_dict(bytes@, cur as int) {
                None => scan_dict(bytes@, pos as int) is None,
                Some(rest) => scan_dict(bytes@, pos as int) == Some(acc@ + rest),
            }),
        decreases n - cur,
    {
        if cur >= n {
            return None;
        }
        let c = bytes[cur];
        if c == 62 {
            if cur + 1 >= n {
                return None;
            }
            let nb = bytes[cur + 1];
            if nb == 62 {
                let ghost old_acc = acc@;
                acc.push(62);
                acc.push(62);
                proof {
                    assert(acc@ =~= old_acc + seq![62u8, 62u8]);
                }
                return Some(acc);
            }
            if nb >= 128 {
                return None;
            }
            let ghost old_acc = acc@;
            acc.push(c);
            acc.push(nb);
            proof {
                assert(acc@ =~= old_acc + seq![c, nb]);
                if scan_dict(bytes@, cur as int + 2) is Some {
                    assert(old_acc + (seq![c, nb] + scan_dict(bytes@, cur as int + 2).unwrap())
                        =~= acc@ + scan_dict(bytes@, cur as int + 2).unwrap());
                }
            }
            cur = cur + 2;
        } else {
            if c >= 128 {
                return None;
            }
            let ghost old_acc = acc@;
            acc.push(c);
            proof {
                assert(acc@ =~= old_acc + seq![c]);
                if scan_dict(bytes@, cur as int + 1) is Some {
                    assert(old_acc + (seq![c] + scan_dict(bytes@, cur as int + 1).unwrap()) =~= acc@
                        + scan_dict(bytes@, cur as int + 1).unwrap());
                }
            }
            cur = cur + 1;
        }
    }
}

/// Extracts the `/Size` and `/Info` fields from a collected dictionary.
fn trailer_fields_exec(buf: &Vec<u8>) -> (r: Result<TrailerObject, PdfError>)
    requires
        all_ascii(buf@),
    ensures
        r == trailer_fields_spec(buf@),
{
    let sd = match capture_size(buf.as_slice()) {
        None => {
            return Err(PdfError::MissingField(TrailerField::Size));
        },
        Some(v) => v,
    };
    let ds = match capture_info(buf.as_slice()) {
        None => {
            return Err(PdfError::MissingField(TrailerField::Info));
        },
        Some(v) => v,
    };
    let size = match parse_u64(sd.as_slice()) {
        None => {
            return Err(PdfError::MalformedTrailer);
        },
        Some(v) => v,
    };
    let id = match parse_u64(ds.0.as_slice()) {
        None => {
            return Err(PdfError::MalformedTrailer);
        },
        Some(v) => v,
    };
    let generation = match parse_u64(ds.1.as_slice()) {
        None => {
            return Err(PdfError::MalformedTrailer);
        },
        Some(v) => v,
    };
    Ok(TrailerObject { size, info: ObjectRef { id, generation } })
}

/// Reads the trailer dictionary that starts at `pos` in `bytes`.
pub(crate) fn parse_trailer_at(bytes: &[u8], pos: usize) -> (r: Result<TrailerObject, PdfError>)
    ensures
        r == parse_trailer_spec(bytes@, pos as int),
{
    match scan_dict_exec(bytes, pos) {
        None => Err(PdfError::MalformedTrailer),
        Some(buf) => trailer_fields_exec(&buf),
    }
}

} // verus!
