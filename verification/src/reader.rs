//! The reader over an in-memory PDF byte source: the Structural Locator for
//! the `%%EOF` marker and the `trailer` keyword, and the Xref Table Parser.
//! Every operation opens its own cursor into the shared bytes, so calls are
//! independent and repeatable.

use vstd::prelude::*;
use vstd::slice::slice_subrange;
use vstd::string::StrSliceExecFns;

use crate::text::is_term_byte;
use crate::text::parse_u64;
use crate::text::parse_u64_spec;
use crate::text::skip_ws_from;
use crate::text::starts_with_bytes;
use crate::text::token_end_from;
use crate::text::trim_end_spec;
use crate::utils::prev_line_bytes;
use crate::utils::prev_line_raw;

verus! {

/// How many lines the bounded backward searches scan before giving up.
pub const SEARCH_LINE_LIMIT: usize = 16;

/// Why an operation failed.
#[derive(Clone, Copy, Debug, PartialEq, Eq, Structural)]
pub enum PdfError {
    /// The `%%EOF` marker or the `trailer` keyword was not found within the
    /// bounded backward search.
    StructureNotFound,
    /// The xref keyword area, subsection header or an entry line violates
    /// the expected shape.
    MalformedXref,
    /// A required trailer-dictionary field is absent.
    MissingField(TrailerField),
    /// The trailer dictionary is unterminated, holds a non-ASCII byte, or a
    /// field's number does not fit in 64 bits.
    MalformedTrailer,
}

/// The trailer fields the core extracts.
#[derive(Clone, Copy, Debug, PartialEq, Eq, Structural)]
pub enum TrailerField {
    Size,
    Info,
}

/// Whether an xref entry is on the free list or points at a live object.
#[derive(Clone, Copy, Debug, PartialEq, Eq, Structural)]
pub enum ObjType {
    F,
    N,
}

/// What `ObjType::new` yields for a given type-flag token.
pub open spec fn obj_type_spec(s: Seq<char>) -> Result<ObjType, ()> {
    if s == seq!['f'] {
        Ok(ObjType::F)
    } else if s == seq!['n'] {
        Ok(ObjType::N)
    } else {
        Err(())
    }
}

impl ObjType {
    /// Reads a type flag: `"f"` is a free entry, `"n"` an in-use one, and
    /// anything else is rejected.
    pub fn new(str: &str) -> (r: Result<Self, ()>)
        ensures
            r == obj_type_spec(str@),
    {
        if str.unicode_len() == 1 {
            let c = str.get_char(0);
            if c == 'f' {
                proof {
                    assert(str@ =~= seq!['f']);
                }
                return Ok(Self::F);
            }
            if c == 'n' {
                proof {
                    assert(str@ =~= seq!['n']);
                }
                return Ok(Self::N);
            }
        }
        proof {
            if str@ == seq!['f'] {
                assert(str@.len() == 1 && str@[0] == 'f');
            }
            if str@ == seq!['n'] {
                assert(str@.len() == 1 && str@[0] == 'n');
            }
        }
        Err(())
    }
}

/// Identifies one object revision: its id and its generation number.
#[derive(Clone, Copy, Debug, PartialEq, Eq, Structural, Hash)]
pub struct XrefTableKey {
    pub id: u64,
    pub generation: u64,
}

/// One row of the xref table: a byte offset and the free/in-use flag.
#[derive(Clone, Copy, Debug, PartialEq, Eq, Structural)]
pub struct XrefRecord {
    pub byte: u64,
    pub obj_type: ObjType,
}

/// The xref table: object keys mapped to their records, in entry order.
/// A later row with the same key overrides an earlier one.
pub struct XrefTable {
    rows: Vec<(XrefTableKey, XrefRecord)>,
}

impl View for XrefTable {
    type V = Seq<(XrefTableKey, XrefRecord)>;

    closed spec fn view(&self) -> Seq<(XrefTableKey, XrefRecord)> {
        self.rows@
    }
}

/// The record the last row with the given key holds, if any row has it.
pub open spec fn rows_get(
    rows: Seq<(XrefTableKey, XrefRecord)>,
    id: u64,
    generation: u64,
) -> Option<XrefRecord>
    decreases rows.len(),
{
    if rows.len() == 0 {
        None
    } else if rows.last().0 == (XrefTableKey { id, generation }) {
        Some(rows.last().1)
    } else {
        rows_get(rows.drop_last(), id, generation)
    }
}

impl XrefTable {
    /// How many rows the table holds.
    pub fn len(&self) -> (n: usize)
        ensures
            n == self@.len(),
    {
        self.rows.len()
    }

    /// Looks a key up, later rows taking precedence.
    #[verifier::loop_isolation(false)]
    pub fn get(&self, id: u64, generation: u64) -> (r: Option<XrefRecord>)
        ensures
            r == rows_get(self@, id, generation),
    {
        let mut i = self.rows.len();
        proof {
            assert(self@.subrange(0, self@.len() as int) =~= self@);
        }
        while i > 0
            invariant
                i <= self@.len(),
                self@ == self.rows@,
                rows_get(self@, id, generation) == rows_get(
                    self@.subrange(0, i as int),
                    id,
                    generation,
                ),
            decreases i,
        {
            let k = self.rows[i - 1].0;
            let ghost pre = self@.subrange(0, i as int);
            proof {
                assert(pre.last() == self@[i - 1]);
                assert(pre.drop_last() =~= self@.subrange(0, i - 1));
            }
            if k.id == id && k.generation == generation {
                return Some(self.rows[i - 1].1);
            }
            i = i - 1;
        }
        proof {
            assert(self@.subrange(0, 0) =~= Seq::<(XrefTableKey, XrefRecord)>::empty());
        }
        None
    }
}

/// The bytes of `%%EOF`.
pub open spec fn eof_marker() -> Seq<u8> {
    seq![37u8, 37u8, 69u8, 79u8, 70u8]
}

/// The bytes of `trailer`.
pub open spec fn trailer_keyword() -> Seq<u8> {
    seq![116u8, 114u8, 97u8, 105u8, 108u8, 101u8, 114u8]
}

/// The bytes of `xref`.
pub open spec fn xref_keyword() -> Seq<u8> {
    seq![120u8, 114u8, 101u8, 102u8]
}

/// The cursor left by the backward call that first yields a line starting
/// with `marker`, scanning at most `fuel` lines back from cursor `s`.
pub open spec fn find_marker_from(b: Seq<u8>, s: int, fuel: nat, marker: Seq<u8>) -> Option<int>
    decreases fuel,
{
    if fuel == 0 {
        None
    } else {
        let r = prev_line_raw(b, s);
        if starts_with_bytes(r.0, marker) {
            Some(r.1)
        } else {
            find_marker_from(b, r.1, (fuel - 1) as nat, marker)
        }
    }
}

/// What `locate_eof` returns on byte source `b`.
pub open spec fn locate_eof_spec(b: Seq<u8>) -> Result<usize, PdfError> {
    if b.len() == 0 {
        Err(PdfError::StructureNotFound)
    } else {
        match find_marker_from(b, b.len() - 1, SEARCH_LINE_LIMIT as nat, eof_marker()) {
            Some(p) => Ok(p as usize),
            None => Err(PdfError::StructureNotFound),
        }
    }
}

/// What `locate_xref_offset` returns: the line before `eof_pos`, with its
/// trailing whitespace trimmed, read as an unsigned decimal number.
pub open spec fn locate_xref_offset_spec(b: Seq<u8>, eof_pos: int) -> Result<u64, PdfError> {
    let p = if 0 <= eof_pos <= b.len() {
        eof_pos
    } else {
        b.len() as int
    };
    match parse_u64_spec(trim_end_spec(prev_line_raw(b, p).0)) {
        Some(v) => Ok(v),
        None => Err(PdfError::MalformedXref),
    }
}

/// The first index `>= p` holding `<`, if any.
pub open spec fn find_lt_from(b: Seq<u8>, p: int) -> Option<int>
    decreases b.len() - p,
{
    if 0 <= p < b.len() {
        if b[p] == 60 {
            Some(p)
        } else {
            find_lt_from(b, p + 1)
        }
    } else {
        None
    }
}

/// The position of the `<` that opens the trailer dictionary: found by
/// scanning back at most `fuel` lines for one starting with `trailer`, then
/// forward from the cursor that call left for the first `<`.
pub open spec fn find_trailer_from(b: Seq<u8>, s: int, fuel: nat) -> Option<int>
    decreases fuel,
{
    if fuel == 0 {
        None
    } else {
        let r = prev_line_raw(b, s);
        if starts_with_bytes(r.0, trailer_keyword()) {
            find_lt_from(b, r.1)
        } else {
            find_trailer_from(b, r.1, (fuel - 1) as nat)
        }
    }
}

/// What `locate_trailer` returns on byte source `b`.
pub open spec fn locate_trailer_spec(b: Seq<u8>) -> Result<usize, PdfError> {
    if b.len() == 0 {
        Err(PdfError::StructureNotFound)
    } else {
        match find_trailer_from(b, b.len() - 1, SEARCH_LINE_LIMIT as nat) {
            Some(p) => Ok(p as usize),
            None => Err(PdfError::StructureNotFound),
        }
    }
}

/// The position after the literal `xref`, where that keyword stands at `p`;
/// otherwise `p` itself, the offset being taken as already past the keyword.
pub open spec fn skip_xref_keyword(b: Seq<u8>, p: int) -> int {
    if p + 4 <= b.len() && b.subrange(p, p + 4) == xref_keyword() {
        p + 4
    } else {
        p
    }
}

/// The first index `>= p` that is not a line-terminator byte.
pub open spec fn skip_term_bytes(b: Seq<u8>, p: int) -> int
    decreases b.len() - p,
{
    if 0 <= p < b.len() && is_term_byte(b[p]) {
        skip_term_bytes(b, p + 1)
    } else {
        p
    }
}

/// The index just past the LF that ends the line starting at `p`, or the
/// end of the stream.
pub open spec fn line_end(b: Seq<u8>, p: int) -> int
    decreases b.len() - p,
{
    if 0 <= p < b.len() {
        if b[p] == 10 {
            p + 1
        } else {
            line_end(b, p + 1)
        }
    } else {
        p
    }
}

/// The second whitespace-delimited token of `s`, if `s` has at least two.
pub open spec fn second_token(s: Seq<u8>) -> Option<Seq<u8>> {
    let a0 = skip_ws_from(s, 0);
    let a1 = token_end_from(s, a0);
    let b0 = skip_ws_from(s, a1);
    let b1 = token_end_from(s, b0);
    if a0 < s.len() && b0 < s.len() {
        Some(s.subrange(b0, b1))
    } else {
        None
    }
}

/// The object count a subsection header line declares: its second
/// whitespace-delimited token read as a number.
pub open spec fn header_count(line: Seq<u8>) -> Option<u64> {
    match second_token(line) {
        None => None,
        Some(tok) => parse_u64_spec(tok),
    }
}

/// What an entry's type-flag token denotes.
pub open spec fn obj_type_of_token(t: Seq<u8>) -> Option<ObjType> {
    if t == seq![102u8] {
        Some(ObjType::F)
    } else if t == seq![110u8] {
        Some(ObjType::N)
    } else {
        None
    }
}

/// The exactly three whitespace-separated tokens of an entry line, if the
/// line has exactly three.
pub open spec fn entry_tokens(s: Seq<u8>) -> Option<(Seq<u8>, Seq<u8>, Seq<u8>)> {
    let a0 = skip_ws_from(s, 0);
    let a1 = token_end_from(s, a0);
    let b0 = skip_ws_from(s, a1);
    let b1 = token_end_from(s, b0);
    let c0 = skip_ws_from(s, b1);
    let c1 = token_end_from(s, c0);
    let d0 = skip_ws_from(s, c1);
    if a0 < s.len() && b0 < s.len() && c0 < s.len() && d0 >= s.len() {
        Some((s.subrange(a0, a1), s.subrange(b0, b1), s.subrange(c0, c1)))
    } else {
        None
    }
}

/// An entry line read as byte offset, generation and type flag.
pub open spec fn entry_fields(s: Seq<u8>) -> Option<(u64, u64, ObjType)> {
    match entry_tokens(s) {
        None => None,
        Some(toks) => match (parse_u64_spec(toks.0), parse_u64_spec(toks.1), obj_type_of_token(
            toks.2,
        )) {
            (Some(byte), Some(generation), Some(ty)) => Some((byte, generation, ty)),
            _ => None,
        },
    }
}

/// The rows of entries `k .. count`, read line by line from `p`; entry `k`
/// gets object id `k`, counting from the subsection's start id of zero.
pub open spec fn entry_rows(b: Seq<u8>, p: int, k: int, count: int) -> Option<
    Seq<(XrefTableKey, XrefRecord)>,
>
    decreases count - k,
{
    if k >= count {
        Some(Seq::<(XrefTableKey, XrefRecord)>::empty())
    } else {
        let e = line_end(b, p);
        match entry_fields(b.subrange(p, e)) {
            None => None,
            Some(t) => match entry_rows(b, e, k + 1, count) {
                None => None,
                Some(rest) => Some(
                    seq![
                        (
                            XrefTableKey { id: k as u64, generation: t.1 },
                            XrefRecord { byte: t.0, obj_type: t.2 },
                        ),
                    ] + rest,
                ),
            },
        }
    }
}

/// Appends rows already built in front of what a parse tail yields.
pub open spec fn rows_concat(
    pre: Seq<(XrefTableKey, XrefRecord)>,
    o: Option<Seq<(XrefTableKey, XrefRecord)>>,
) -> Option<Seq<(XrefTableKey, XrefRecord)>> {
    match o {
        None => None,
        Some(r) => Some(pre + r),
    }
}

/// The rows `parse_xref_table` builds from the section at `xref_pos`: the
/// optional `xref` keyword and following terminators are skipped, the header
/// declares the count, and that many entry lines follow.
pub open spec fn xref_rows_spec(b: Seq<u8>, xref_pos: int) -> Option<
    Seq<(XrefTableKey, XrefRecord)>,
> {
    let p0 = if 0 <= xref_pos <= b.len() {
        xref_pos
    } else {
        b.len() as int
    };
    let p1 = skip_term_bytes(b, skip_xref_keyword(b, p0));
    let e = line_end(b, p1);
    match header_count(b.subrange(p1, e)) {
        None => None,
        Some(count) => entry_rows(b, e, 0, count as int),
    }
}

/// Does this line begin with `%%EOF`?
fn line_starts_with_eof(line: &[u8]) -> (r: bool)
    ensures
        r == starts_with_bytes(line@, eof_marker()),
{
    if line.len() < 5 {
        return false;
    }
    let r = line[0] == 37 && line[1] == 37 && line[2] == 69 && line[3] == 79 && line[4] == 70;
    proof {
        if r {
            assert(line@.subrange(0, 5) =~= eof_marker());
        } else {
            if line@.subrange(0, 5) == eof_marker() {
                assert(line@[0] == 37 && line@[1] == 37 && line@[2] == 69 && line@[3] == 79
                    && line@[4] == 70) by {
                    assert(forall|i: int|
                        0 <= i < 5 ==> line@.subrange(0, 5)[i] == eof_marker()[i]);
                }
            }
        }
    }
    r
}

/// Does this line begin with `trailer`?
fn line_starts_with_trailer(line: &[u8]) -> (r: bool)
    ensures
        r == starts_with_bytes(line@, trailer_keyword()),
{
    if line.len() < 7 {
        return false;
    }
    let r = line[0] == 116 && line[1] == 114 && line[2] == 97 && line[3] == 105 && line[4] == 108
        && line[5] == 101 && line[6] == 114;
    proof {
        if r {
            assert(line@.subrange(0, 7) =~= trailer_keyword());
        } else {
            if line@.subrange(0, 7) == trailer_keyword() {
                assert(line@[0] == 116 && line@[1] == 114 && line@[2] == 97 && line@[3] == 105
                    && line@[4] == 108 && line@[5] == 101 && line@[6] == 114) by {
                    assert(forall|i: int|
                        0 <= i < 7 ==> line@.subrange(0, 7)[i] == trailer_keyword()[i]);
                }
            }
        }
    }
    r
}

/// The index just past the LF ending the line at `p`, or the stream's end.
fn line_end_exec(bytes: &[u8], p: usize) -> (r: usize)
    requires
        p <= bytes@.len(),
    ensures
        r == line_end(bytes@, p as int),
        p <= r <= bytes@.len(),
{
    let mut q = p;
    while q < bytes.len() && bytes[q] != 10
        invariant
            p <= q <= bytes@.len(),
            line_end(bytes@, p as int) == line_end(bytes@, q as int),
        decreases bytes@.len() - q,
    {
        q = q + 1;
    }
    if q < bytes.len() {
        q + 1
    } else {
        q
    }
}

/// Reads a subsection header line's declared object count.
fn header_count_exec(line: &[u8]) -> (r: Option<u64>)
    ensures
        r == header_count(line@),
{
    let n = line.len();
    let a0 = crate::text::skip_ws(line, 0);
    let a1 = crate::text::token_end(line, a0);
    let b0 = crate::text::skip_ws(line, a1);
    let b1 = crate::text::token_end(line, b0);
    if !(a0 < n && b0 < n) {
        return None;
    }
    let tok = slice_subrange(line, b0, b1);
    parse_u64(tok)
}

/// Reads one entry line's byte offset, generation and type flag.
fn entry_fields_exec(line: &[u8]) -> (r: Option<(u64, u64, ObjType)>)
    ensures
        r == entry_fields(line@),
{
    let n = line.len();
    let a0 = crate::text::skip_ws(line, 0);
    let a1 = crate::text::token_end(line, a0);
    let b0 = crate::text::skip_ws(line, a1);
    let b1 = crate::text::token_end(line, b0);
    let c0 = crate::text::skip_ws(line, b1);
    let c1 = crate::text::token_end(line, c0);
    let d0 = crate::text::skip_ws(line, c1);
    if !(a0 < n && b0 < n && c0 < n && d0 >= n) {
        return None;
    }
    let t0 = slice_subrange(line, a0, a1);
    let t1 = slice_subrange(line, b0, b1);
    let t2 = slice_subrange(line, c0, c1);
    let byte = match parse_u64(t0) {
        None => {
            return None;
        },
        Some(v) => v,
    };
    let generation = match parse_u64(t1) {
        None => {
            return None;
        },
        Some(v) => v,
    };
    let ty: ObjType;
    if t2.len() == 1 && t2[0] == 102 {
        proof {
            assert(t2@ =~= seq![102u8]);
        }
        ty = ObjType::F;
    } else if t2.len() == 1 && t2[0] == 110 {
        proof {
            assert(t2@ =~= seq![110u8]);
            assert(t2@ != seq![102u8]);
        }
        ty = ObjType::N;
    } else {
        proof {
            if t2@ == seq![102u8] {
                assert(t2@.len() == 1 && t2@[0] == 102);
            }
            if t2@ == seq![110u8] {
                assert(t2@.len() == 1 && t2@[0] == 110);
            }
        }
        return None;
    }
    Some((byte, generation, ty))
}

/// The core reader: holds the PDF's bytes and answers the locate and parse
/// operations, each from its own cursor.
pub struct PdfReader {
    bytes: Vec<u8>,
}

impl View for PdfReader {
    type V = Seq<u8>;

    closed spec fn view(&self) -> Seq<u8> {
        self.bytes@
    }
}

impl PdfReader {
    /// Wraps an in-memory byte source. Opening a file and reading it belongs
    /// to the caller.
    pub fn new(bytes: Vec<u8>) -> (r: Self)
        ensures
            r@ == bytes@,
    {
        Self { bytes }
    }

    /// Scans backward from the end of the file for a line starting with
    /// `%%EOF`, at most `SEARCH_LINE_LIMIT` lines, and returns the cursor
    /// just before that line, where the xref offset line can be read.
    pub fn locate_eof(&self) -> (r: Result<usize, PdfError>)
        ensures
            r == locate_eof_spec(self@),
    {
        let n = self.bytes.len();
        if n == 0 {
            return Err(PdfError::StructureNotFound);
        }
        let mut cur: usize = n - 1;
        let mut k: usize = 0;
        while k < SEARCH_LINE_LIMIT
            invariant
                k <= SEARCH_LINE_LIMIT,
                n == self@.len(),
                n > 0,
                self.bytes@ == self@,
                find_marker_from(self@, n - 1, SEARCH_LINE_LIMIT as nat, eof_marker())
                    == find_marker_from(
                    self@,
                    cur as int,
                    (SEARCH_LINE_LIMIT - k) as nat,
                    eof_marker(),
                ),
            decreases SEARCH_LINE_LIMIT - k,
        {
            let (line, c) = prev_line_bytes(self.bytes.as_slice(), cur);
            if line_starts_with_eof(line.as_slice()) {
                return Ok(c);
            }
            cur = c;
            k = k + 1;
        }
        Err(PdfError::StructureNotFound)
    }

    /// Reads the line immediately before `eof_pos` — the xref offset line —
    /// as an unsigned decimal number.
    pub fn locate_xref_offset(&self, eof_pos: usize) -> (r: Result<u64, PdfError>)
        ensures
            r == locate_xref_offset_spec(self@, eof_pos as int),
    {
        let n = self.bytes.len();
        let p = if eof_pos > n {
            n
        } else {
            eof_pos
        };
        let (line, _c) = prev_line_bytes(self.bytes.as_slice(), p);
        let trimmed = crate::text::trim_end_bytes(line.as_slice());
        match parse_u64(trimmed.as_slice()) {
            Some(v) => Ok(v),
            None => Err(PdfError::MalformedXref),
        }
    }

    /// Scans backward for a line starting with `trailer`, then forward for
    /// the `<` that opens the trailer dictionary, and returns its position.
    #[verifier::loop_isolation(false)]
    pub fn locate_trailer(&self) -> (r: Result<usize, PdfError>)
        ensures
            r == locate_trailer_spec(self@),
    {
        let n = self.bytes.len();
        if n == 0 {
            return Err(PdfError::StructureNotFound);
        }
        let mut cur: usize = n - 1;
        let mut k: usize = 0;
        while k < SEARCH_LINE_LIMIT
            invariant
                k <= SEARCH_LINE_LIMIT,
                n == self@.len(),
                n > 0,
                self.bytes@ == self@,
                find_trailer_from(self@, n - 1, SEARCH_LINE_LIMIT as nat) == find_trailer_from(
                    self@,
                    cur as int,
                    (SEARCH_LINE_LIMIT - k) as nat,
                ),
            decreases SEARCH_LINE_LIMIT - k,
        {
            let (line, c) = prev_line_bytes(self.bytes.as_slice(), cur);
            if line_starts_with_trailer(line.as_slice()) {
                let mut p = c;
                while p < n
                    invariant
                        n == self@.len(),
                        self.bytes@ == self@,
                        find_lt_from(self@, c as int) == find_lt_from(self@, p as int),
                    decreases n - p,
                {
                    if self.bytes[p] == 60 {
                        return Ok(p);
                    }
                    p = p + 1;
                }
                return Err(PdfError::StructureNotFound);
            }
            cur = c;
            k = k + 1;
        }
        Err(PdfError::StructureNotFound)
    }

    /// Parses the xref section at `xref_pos` into a table: entry `k` of the
    /// single subsection gets object id `k`, keyed with the generation its
    /// line declares. Any shape violation is `MalformedXref`.
    #[verifier::loop_isolation(false)]
    pub fn parse_xref_table(&self, xref_pos: u64) -> (r: Result<XrefTable, PdfError>)
        ensures
            match xref_rows_spec(self@, xref_pos as int) {
                Some(rows) => r matches Ok(t) && t@ == rows,
                None => r == Err::<XrefTable, PdfError>(PdfError::MalformedXref),
            },
    {
        let bytes = self.bytes.as_slice();
        let n = self.bytes.len();
        let mut p: usize = if xref_pos > n as u64 {
            n
        } else {
            xref_pos as usize
        };
        let ghost p0 = p as int;
        if n >= 4 && p <= n - 4 && bytes[p] == 120 && bytes[p + 1] == 114 && bytes[p + 2] == 101
            && bytes[p + 3] == 102 {
            proof {
                assert(self@.subrange(p as int, p as int + 4) =~= xref_keyword());
            }
            p = p + 4;
        } else {
            proof {
                if p0 + 4 <= self@.len() && self@.subrange(p0, p0 + 4) == xref_keyword() {
                    assert(self@[p0] == 120 && self@[p0 + 1] == 114 && self@[p0 + 2] == 101
                        && self@[p0 + 3] == 102) by {
                        assert(forall|i: int|
                            0 <= i < 4 ==> self@.subrange(p0, p0 + 4)[i] == xref_keyword()[i]);
                    }
                }
            }
        }
        proof {
            assert(p as int == skip_xref_keyword(self@, p0));
        }
        let ghost p1 = p as int;
        while p < n && (bytes[p] == 10 || bytes[p] == 13)
            invariant
                p <= n == self@.len(),
                bytes@ == self@,
                skip_term_bytes(self@, p1) == skip_term_bytes(self@, p as int),
            decreases n - p,
        {
            p = p + 1;
        }
        let e = line_end_exec(bytes, p);
        let header = slice_subrange(bytes, p, e);
        let count = match header_count_exec(header) {
            None => {
                return Err(PdfError::MalformedXref);
            },
            Some(c) => c,
        };
        let mut rows: Vec<(XrefTableKey, XrefRecord)> = Vec::new();
        let ghost e0 = e as int;
        let mut q = e;
        let mut k: u64 = 0;
        proof {
            let init = entry_rows(self@, e0, 0, count as int);
            if init is Some {
                assert(rows@ + init.unwrap() =~= init.unwrap());
            }
            assert(rows_concat(rows@, entry_rows(self@, q as int, k as int, count as int))
                == entry_rows(self@, e0, 0, count as int));
        }
        while k < count
            invariant
                k <= count,
                q <= n == self@.len(),
                bytes@ == self@,
                rows_concat(rows@, entry_rows(self@, q as int, k as int, count as int))
                    == entry_rows(self@, e0, 0, count as int),
            decreases count - k,
        {
            let le = line_end_exec(bytes, q);
            let line = slice_subrange(bytes, q, le);
            match entry_fields_exec(line) {
                None => {
                    return Err(PdfError::MalformedXref);
                },
                Some((byte, generation, ty)) => {
                    let ghost old_rows = rows@;
                    let ghost tail = entry_rows(self@, le as int, k as int + 1, count as int);
                    rows.push(
                        (
                            XrefTableKey { id: k, generation },
                            XrefRecord { byte, obj_type: ty },
                        ),
                    );
                    proof {
                        if tail is Some {
                            assert(old_rows + (seq![
                                (
                                    XrefTableKey { id: k, generation },
                                    XrefRecord { byte, obj_type: ty },
                                ),
                            ] + tail.unwrap()) =~= rows@ + tail.unwrap());
                        }
                    }
                    q = le;
                    k = k + 1;
                },
            }
        }
        proof {
            assert(entry_rows(self@, q as int, k as int, count as int) == Some(
                Seq::<(XrefTableKey, XrefRecord)>::empty(),
            ));
            assert(rows@ + Seq::<(XrefTableKey, XrefRecord)>::empty() =~= rows@);
        }
        Ok(XrefTable { rows })
    }

    /// Reads the trailer dictionary that starts at `trailer_pos`: its text
    /// up to the closing `>>`, then the `/Size` number and the `/Info`
    /// object reference.
    pub fn parse_trailer(&self, trailer_pos: usize) -> (r: Result<
        crate::trailer::TrailerObject,
        PdfError,
    >)
        ensures
            r == crate::trailer::parse_trailer_spec(self@, trailer_pos as int),
    {
        crate::trailer::parse_trailer_at(self.bytes.as_slice(), trailer_pos)
    }
}

} // verus!
