//! The Backward Line Reader: reads the line of text that ends at a cursor,
//! scanning byte by byte toward the start of the stream, and leaves the
//! cursor just after the previous line's terminator so that repeated calls
//! walk the stream backward one line at a time.
//!
//! A cursor is the index of the next byte a call will read; the stream is a
//! byte slice. A line is delimited by LF or CR; a two-byte `\r\n` or `\n\r`
//! pair counts as one terminator, and runs of terminator bytes are consumed
//! together. A NUL byte acts as a start-of-stream sentinel.
//!
//! The reader treats the stream as bytes: a line's trailing whitespace is
//! trimmed at the byte level, over the ASCII whitespace characters, before
//! the line is decoded — whitespace encoded above the ASCII range is kept.

use vstd::prelude::*;

use crate::text::is_term_byte;
use crate::text::trim_end_spec;

verus! {

/// What the lossy UTF-8 decoding of a byte sequence yields; see
/// `decode_lossy` for the one fact stated about it.
pub uninterp spec fn lossy_utf8(b: Seq<u8>) -> Seq<char>;

/// Relies on `String::from_utf8_lossy`: the decoding is a pure function of
/// the bytes, and bytes below 128 are valid UTF-8 that decodes to the
/// characters with the same code points.
#[verifier::external_body]
fn decode_lossy(b: &[u8]) -> (r: String)
    ensures
        r@ == lossy_utf8(b@),
        (forall|i: int| 0 <= i < b@.len() ==> b@[i] < 128) ==> r@ == b@.map_values(
            |x: u8| x as char,
        ),
{
    String::from_utf8_lossy(b).into_owned()
}

/// Where the cursor lands after a terminator byte was read at index `m + 1`
/// or later: it walks down over terminator bytes and stops on the first
/// content byte, or at the stream's first two positions.
pub open spec fn skip_terms_from(b: Seq<u8>, m: int) -> int
    recommends
        m < b.len(),
    decreases m,
{
    if m >= 2 {
        if is_term_byte(b[m]) {
            skip_terms_from(b, m - 1)
        } else {
            m
        }
    } else {
        m
    }
}

/// The cursor after a terminator byte was read at index `s`.
pub open spec fn skip_terms_cursor(b: Seq<u8>, s: int) -> int
    recommends
        0 <= s < b.len(),
{
    if s >= 1 {
        skip_terms_from(b, s - 1)
    } else {
        1
    }
}

/// The backward read that starts with the byte at index `s`: the collected
/// line in forward order, and the cursor for the next backward call.
/// Reading at or past the end of the stream collects nothing; a NUL byte or
/// a terminator ends the line; reaching index 0 ends it with the cursor at 1.
pub open spec fn prev_line_raw(b: Seq<u8>, s: int) -> (Seq<u8>, int)
    decreases s,
{
    if s < 0 || s >= b.len() {
        (Seq::<u8>::empty(), s)
    } else if b[s] == 0 {
        (Seq::<u8>::empty(), s + 1)
    } else if is_term_byte(b[s]) {
        (Seq::<u8>::empty(), skip_terms_cursor(b, s))
    } else if s == 0 {
        (seq![b[0]], 1)
    } else {
        let r = prev_line_raw(b, s - 1);
        (r.0.push(b[s]), r.1)
    }
}

/// The cursor a backward read leaves stays within the stream: at least
/// zero and at most the stream's length, so it can be fed to the next call.
pub proof fn lemma_prev_line_cursor_range(b: Seq<u8>, s: int)
    requires
        0 <= s <= b.len(),
    ensures
        0 <= prev_line_raw(b, s).1 <= b.len(),
    decreases s,
{
    if 0 <= s < b.len() && b[s] != 0 && is_term_byte(b[s]) {
        lemma_skip_terms_range(b, s);
    } else if 0 <= s < b.len() && b[s] != 0 && s > 0 {
        lemma_prev_line_cursor_range(b, s - 1);
    }
}

proof fn lemma_skip_terms_range(b: Seq<u8>, s: int)
    requires
        0 <= s < b.len(),
    ensures
        0 <= skip_terms_cursor(b, s) <= b.len(),
{
    if s >= 1 {
        lemma_skip_terms_from_range(b, s - 1);
    }
}

proof fn lemma_skip_terms_from_range(b: Seq<u8>, m: int)
    requires
        0 <= m < b.len(),
    ensures
        0 <= skip_terms_from(b, m) <= m,
    decreases m,
{
    if m >= 2 && is_term_byte(b[m]) {
        lemma_skip_terms_from_range(b, m - 1);
    }
}

/// Collects the line that ends at cursor `pos` in the order the backward
/// scan visits its bytes (last byte first), with the new cursor.
fn collect_back(bytes: &[u8], pos: usize) -> (r: (Vec<u8>, usize))
    ensures
        prev_line_raw(bytes@, pos as int).0 == r.0@.reverse(),
        r.1 as int == prev_line_raw(bytes@, pos as int).1,
{
    let mut cur = pos;
    let mut acc: Vec<u8> = Vec::new();
    proof {
        assert(prev_line_raw(bytes@, pos as int).0 =~= prev_line_raw(bytes@, pos as int).0
            + Seq::<u8>::empty().reverse());
    }
    loop
        invariant
            cur <= pos,
            prev_line_raw(bytes@, pos as int).0 == prev_line_raw(bytes@, cur as int).0
                + acc@.reverse(),
            prev_line_raw(bytes@, pos as int).1 == prev_line_raw(bytes@, cur as int).1,
        decreases cur,
    {
        if cur >= bytes.len() {
            proof {
                assert(prev_line_raw(bytes@, cur as int).0 + acc@.reverse() =~= acc@.reverse());
            }
            return (acc, cur);
        }
        let c = bytes[cur];
        if c == 0 {
            proof {
                assert(prev_line_raw(bytes@, cur as int).0 + acc@.reverse() =~= acc@.reverse());
            }
            return (acc, cur + 1);
        }
        if c == 10 || c == 13 {
            proof {
                assert(prev_line_raw(bytes@, cur as int).0 + acc@.reverse() =~= acc@.reverse());
            }
            if cur >= 1 {
                let mut m = cur - 1;
                while m >= 2 && (bytes[m] == 10 || bytes[m] == 13)
                    invariant
                        1 <= cur < bytes@.len(),
                        m < bytes@.len(),
                        skip_terms_from(bytes@, cur as int - 1) == skip_terms_from(
                            bytes@,
                            m as int,
                        ),
                    decreases m,
                {
                    m = m - 1;
                }
                return (acc, m);
            } else {
                return (acc, 1);
            }
        }
        let ghost old_acc = acc@;
        acc.push(c);
        proof {
            assert(acc@.reverse() =~= seq![c] + old_acc.reverse());
        }
        if cur == 0 {
            proof {
                assert(prev_line_raw(bytes@, 0).0 + old_acc.reverse() =~= acc@.reverse());
            }
            return (acc, 1);
        }
        proof {
            assert(prev_line_raw(bytes@, cur as int).0 == prev_line_raw(
                bytes@,
                cur as int - 1,
            ).0.push(c));
            assert(prev_line_raw(bytes@, cur as int - 1).0 + acc@.reverse() =~= prev_line_raw(
                bytes@,
                cur as int,
            ).0 + old_acc.reverse());
        }
        cur = cur - 1;
    }
}

/// Collects the line that ends at cursor `pos`, in forward byte order, and
/// returns the cursor for the next backward call.
pub fn prev_line_bytes(bytes: &[u8], pos: usize) -> (r: (Vec<u8>, usize))
    ensures
        r.0@ == prev_line_raw(bytes@, pos as int).0,
        r.1 as int == prev_line_raw(bytes@, pos as int).1,
{
    let (acc, ret_cur) = collect_back(bytes, pos);
    let mut line: Vec<u8> = Vec::new();
    let n = acc.len();
    let mut i: usize = 0;
    while i < n
        invariant
            i <= n == acc@.len(),
            line@ == acc@.reverse().subrange(0, i as int),
        decreases n - i,
    {
        line.push(acc[n - 1 - i]);
        proof {
            assert(line@ =~= acc@.reverse().subrange(0, i + 1));
        }
        i = i + 1;
    }
    proof {
        assert(line@ =~= acc@.reverse());
    }
    (line, ret_cur)
}

/// Every byte of a collected raw line is a content byte: no terminator and
/// no NUL stands inside a line the backward reader yields.
pub proof fn lemma_prev_line_content(b: Seq<u8>, s: int)
    ensures
        forall|i: int|
            0 <= i < prev_line_raw(b, s).0.len() ==> crate::text::is_content_byte(
                #[trigger] prev_line_raw(b, s).0[i],
            ),
    decreases s,
{
    if 0 <= s < b.len() && b[s] != 0 && !is_term_byte(b[s]) && s > 0 {
        lemma_prev_line_content(b, s - 1);
        assert(prev_line_raw(b, s).0 == prev_line_raw(b, s - 1).0.push(b[s]));
    }
}

/// Reads the line immediately preceding cursor `pos`: the line's bytes are
/// collected backward, restored to forward order, trailing ASCII whitespace
/// is trimmed, and the result is decoded as UTF-8 with lossy substitution.
/// When the trimmed line is pure ASCII — every PDF structure line is — the
/// returned text is exactly those bytes, character for character. Also
/// returns the cursor for the next backward call. An empty stream yields an
/// empty line and leaves the cursor in place.
pub fn read_previous_line(bytes: &[u8], pos: usize) -> (r: (String, usize))
    ensures
        r.0@ == lossy_utf8(trim_end_spec(prev_line_raw(bytes@, pos as int).0)),
        (forall|i: int|
            0 <= i < trim_end_spec(prev_line_raw(bytes@, pos as int).0).len()
                ==> trim_end_spec(prev_line_raw(bytes@, pos as int).0)[i] < 128) ==> r.0@
            == trim_end_spec(prev_line_raw(bytes@, pos as int).0).map_values(|x: u8| x as char),
        r.1 as int == prev_line_raw(bytes@, pos as int).1,
{
    let (raw, cur) = prev_line_bytes(bytes, pos);
    let trimmed = crate::text::trim_end_bytes(raw.as_slice());
    let line = decode_lossy(trimmed.as_slice());
    (line, cur)
}

} // verus!
