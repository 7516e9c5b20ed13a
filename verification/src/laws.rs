//! Properties of the whole library that hold across calls: the backward
//! line reader replays a stream's lines in reverse order, and every locate
//! and parse operation is a pure function of the byte source and its
//! arguments, so repeating a call changes nothing.

use vstd::prelude::*;

use crate::reader::locate_eof_spec;
use crate::reader::locate_trailer_spec;
use crate::reader::locate_xref_offset_spec;
use crate::reader::xref_rows_spec;
use crate::reader::PdfError;
use crate::reader::XrefRecord;
use crate::reader::XrefTableKey;
use crate::text::is_content_byte;
use crate::text::is_term_byte;
use crate::text::trim_end_spec;
use crate::trailer::parse_trailer_spec;
use crate::trailer::TrailerObject;
use crate::utils::prev_line_raw;
use crate::utils::skip_terms_cursor;
use crate::utils::skip_terms_from;

verus! {

/// A line as it stands in a stream: nonempty, with no terminator and no
/// NUL byte inside it.
pub open spec fn clean_line(l: Seq<u8>) -> bool {
    l.len() > 0 && forall|i: int| 0 <= i < l.len() ==> is_content_byte(l[i])
}

/// One line terminator: a single LF or CR, or the two-byte pair `\r\n` or
/// `\n\r`, which the reader consumes as one.
pub open spec fn is_terminator(t: Seq<u8>) -> bool {
    (t.len() == 1 && is_term_byte(t[0])) || (t.len() == 2 && is_term_byte(t[0]) && is_term_byte(
        t[1],
    ) && t[0] != t[1])
}

/// The lines and their terminators, interleaved in stream order.
pub open spec fn cat_lines(lines: Seq<Seq<u8>>, terms: Seq<Seq<u8>>) -> Seq<u8>
    recommends
        lines.len() == terms.len(),
    decreases lines.len(),
{
    if lines.len() == 0 {
        Seq::<u8>::empty()
    } else {
        cat_lines(lines.drop_last(), terms.drop_last()) + lines.last() + terms.last()
    }
}

/// A well-formed decomposition: as many terminators as lines, every line
/// clean and every terminator valid.
pub open spec fn lines_wf(lines: Seq<Seq<u8>>, terms: Seq<Seq<u8>>) -> bool {
    &&& lines.len() == terms.len()
    &&& forall|i: int| 0 <= i < lines.len() ==> clean_line(#[trigger] lines[i])
    &&& forall|i: int| 0 <= i < terms.len() ==> is_terminator(#[trigger] terms[i])
}

/// The raw lines that `n` successive backward calls yield, starting at
/// cursor `s`.
pub open spec fn backward_lines(b: Seq<u8>, s: int, n: nat) -> Seq<Seq<u8>>
    decreases n,
{
    if n == 0 {
        Seq::<Seq<u8>>::empty()
    } else {
        let r = prev_line_raw(b, s);
        seq![r.0] + backward_lines(b, r.1, (n - 1) as nat)
    }
}

/// Interleaving one line and one terminator per index makes the stream at
/// least two bytes per line.
proof fn lemma_cat_lines_min_len(lines: Seq<Seq<u8>>, terms: Seq<Seq<u8>>)
    requires
        lines_wf(lines, terms),
    ensures
        cat_lines(lines, terms).len() >= 2 * lines.len(),
    decreases lines.len(),
{
    if lines.len() > 0 {
        lemma_cat_lines_min_len(lines.drop_last(), terms.drop_last());
    }
}

/// Reading backward from the last byte of a clean line `l` that follows
/// `p` collects exactly `l`, whatever comes after; the cursor then depends
/// only on what ends `p`.
proof fn lemma_prev_line_at(p: Seq<u8>, l: Seq<u8>, s: Seq<u8>, b: Seq<u8>)
    requires
        clean_line(l),
        b == p + l + s,
        p.len() == 0 || !is_content_byte(p.last()),
    ensures
        prev_line_raw(b, p.len() + l.len() - 1).0 == l,
        prev_line_raw(b, p.len() + l.len() - 1).1 == (if p.len() == 0 {
            1int
        } else if p.last() == 0 {
            p.len() as int
        } else {
            skip_terms_cursor(b, p.len() - 1)
        }),
    decreases l.len(),
{
    let j = p.len() + l.len() - 1;
    assert(is_content_byte(l[l.len() - 1]));
    assert(b[j] == l[l.len() - 1]);
    if l.len() == 1 {
        if p.len() == 0 {
            assert(prev_line_raw(b, 0).0 =~= l);
        } else {
            assert(b[p.len() - 1] == p.last());
            let c = prev_line_raw(b, j - 1);
            if p.last() == 0 {
                assert(c.0 =~= Seq::<u8>::empty());
            } else {
                assert(is_term_byte(p.last()));
                assert(c.0 =~= Seq::<u8>::empty());
            }
            assert(prev_line_raw(b, j).0 == c.0.push(b[j]));
            assert(c.0.push(b[j]) =~= l);
        }
    } else {
        let l2 = l.drop_last();
        let s2 = seq![l.last()] + s;
        assert(b =~= p + l2 + s2);
        assert(clean_line(l2)) by {
            assert(forall|i: int| 0 <= i < l2.len() ==> l2[i] == l[i] && is_content_byte(l[i]));
        }
        lemma_prev_line_at(p, l2, s2, b);
        assert(prev_line_raw(b, j).0 == prev_line_raw(b, j - 1).0.push(b[j]));
        assert(l2.push(l[l.len() - 1]) =~= l);
    }
}

/// After a terminator whose bytes sit at `q .. q + tl`, preceded by a
/// content byte, the backward reader's cursor lands on that content byte —
/// provided the terminator does not start at index 1 with two bytes.
proof fn lemma_skip_over_terminator(b: Seq<u8>, q: int, tl: int)
    requires
        1 <= q,
        q + tl <= b.len(),
        tl == 1 || tl == 2,
        forall|k: int| q <= k < q + tl ==> is_term_byte(b[k]),
        !is_term_byte(b[q - 1]),
        q >= 2 || tl == 1,
    ensures
        skip_terms_cursor(b, q + tl - 1) == q - 1,
{
    if tl == 1 {
        assert(skip_terms_from(b, q - 1) == q - 1);
    } else {
        assert(is_term_byte(b[q]));
        assert(skip_terms_from(b, q) == skip_terms_from(b, q - 1));
        assert(skip_terms_from(b, q - 1) == q - 1);
    }
}

/// Reading backward from the last byte of the last line replays the lines
/// in reverse, one full line per call, whatever `suffix` follows them.
#[verifier::rlimit(100)]
proof fn lemma_chain(
    prefix: Seq<u8>,
    lines: Seq<Seq<u8>>,
    terms: Seq<Seq<u8>>,
    suffix: Seq<u8>,
    b: Seq<u8>,
)
    requires
        lines_wf(lines, terms),
        lines.len() >= 1,
        b == prefix + cat_lines(lines, terms) + suffix,
        prefix.len() == 0 || is_term_byte(prefix.last()) || prefix.last() == 0,
        prefix.len() + lines[0].len() >= 2 || terms[0].len() == 1,
    ensures
        backward_lines(
            b,
            prefix.len() + cat_lines(lines, terms).len() - terms.last().len() - 1,
            lines.len() as nat,
        ) == lines.reverse(),
    decreases lines.len(),
{
    let n = lines.len() as int;
    let cat = cat_lines(lines, terms);
    let l = lines.last();
    let t = terms.last();
    let catp = cat_lines(lines.drop_last(), terms.drop_last());
    assert(cat == catp + l + t);
    let p2 = prefix + catp;
    let s2 = t + suffix;
    assert(b =~= p2 + l + s2);
    let start = prefix.len() + cat.len() - t.len() - 1;
    assert(start == p2.len() + l.len() - 1);
    if n == 1 {
        assert(catp =~= Seq::<u8>::empty());
        assert(p2 =~= prefix);
        lemma_prev_line_at(p2, l, s2, b);
        assert(backward_lines(b, prev_line_raw(b, start).1, 0) =~= Seq::<Seq<u8>>::empty());
        assert(backward_lines(b, start, 1) =~= seq![l]);
        assert(seq![l] =~= lines.reverse());
    } else {
        let lp = lines.drop_last();
        let tp = terms.drop_last();
        let tprev = terms[n - 2];
        let lprev = lines[n - 2];
        assert(catp == cat_lines(lp.drop_last(), tp.drop_last()) + lprev + tprev);
        assert(p2.len() >= 1 && p2.last() == tprev.last());
        assert(is_terminator(tprev));
        assert(!is_content_byte(p2.last()));
        lemma_prev_line_at(p2, l, s2, b);
        let q = p2.len() - tprev.len();
        assert(forall|k: int| q <= k < q + tprev.len() ==> b[k] == tprev[k - q]);
        assert(b[q - 1] == lprev.last());
        assert(clean_line(lprev));
        if n == 2 {
            assert(cat_lines(lp.drop_last(), tp.drop_last()).len() == 0);
            assert(q == prefix.len() + lprev.len());
            assert(lprev == lines[0] && tprev == terms[0]);
        } else {
            lemma_cat_lines_min_len(lp.drop_last(), tp.drop_last());
            assert(q >= 2);
        }
        lemma_skip_over_terminator(b, q, tprev.len() as int);
        assert(prev_line_raw(b, start).1 == q - 1);
        let suffix2 = l + t + suffix;
        assert(b =~= prefix + cat_lines(lp, tp) + suffix2);
        assert(lp[0] == lines[0] && tp[0] == terms[0]);
        lemma_chain(prefix, lp, tp, suffix2, b);
        assert(q - 1 == prefix.len() + cat_lines(lp, tp).len() - tp.last().len() - 1);
        assert(backward_lines(b, start, n as nat) == seq![l] + backward_lines(
            b,
            q - 1,
            (n - 1) as nat,
        ));
        assert(seq![l] + lp.reverse() =~= lines.reverse());
    }
}

/// For every byte stream that ends in a sequence of terminated lines —
/// anything before them ending in a terminator or a NUL — backward reads
/// starting at the stream's last byte first yield one empty line for the
/// final terminator, then the lines in reverse order of appearance, each
/// byte for byte as it stands in the stream. `read_previous_line` returns
/// each such raw line with trailing ASCII whitespace trimmed and then
/// lossily decoded, at the same cursors. The one shape left out is a
/// two-byte terminator whose first byte sits at index 1 of the whole
/// stream, where the reader instead reports an extra empty line.
pub proof fn lemma_backward_line_reads(
    prefix: Seq<u8>,
    lines: Seq<Seq<u8>>,
    terms: Seq<Seq<u8>>,
    b: Seq<u8>,
)
    requires
        lines_wf(lines, terms),
        lines.len() >= 1,
        b == prefix + cat_lines(lines, terms),
        prefix.len() == 0 || is_term_byte(prefix.last()) || prefix.last() == 0,
        prefix.len() + lines[0].len() >= 2 || terms[0].len() == 1,
    ensures
        backward_lines(b, b.len() - 1, (lines.len() + 1) as nat) == seq![Seq::<u8>::empty()]
            + lines.reverse(),
{
    let n = lines.len() as int;
    let cat = cat_lines(lines, terms);
    let l = lines.last();
    let t = terms.last();
    let catp = cat_lines(lines.drop_last(), terms.drop_last());
    assert(cat == catp + l + t);
    let q = b.len() - t.len();
    assert(forall|k: int| q <= k < q + t.len() ==> b[k] == t[k - q]);
    assert(b[q - 1] == l.last());
    assert(clean_line(l));
    if n == 1 {
        assert(catp.len() == 0);
        assert(q == prefix.len() + lines[0].len());
    } else {
        lemma_cat_lines_min_len(lines.drop_last(), terms.drop_last());
        assert(q >= 2);
    }
    lemma_skip_over_terminator(b, q, t.len() as int);
    assert(b.len() >= 1);
    assert(is_term_byte(b[b.len() - 1]));
    assert(prev_line_raw(b, b.len() - 1).0 =~= Seq::<u8>::empty());
    assert(prev_line_raw(b, b.len() - 1).1 == q - 1);
    lemma_chain(prefix, lines, terms, Seq::<u8>::empty(), b);
    assert(b =~= prefix + cat);
    assert(q - 1 == prefix.len() + cat.len() - t.len() - 1);
    assert(backward_lines(b, b.len() - 1, (n + 1) as nat) =~= seq![Seq::<u8>::empty()]
        + lines.reverse());
}

/// The bounded marker search succeeds exactly when one of the lines its
/// backward reads yield begins with the marker.
pub proof fn lemma_find_marker_scans_lines(b: Seq<u8>, s: int, fuel: nat, marker: Seq<u8>)
    ensures
        (crate::reader::find_marker_from(b, s, fuel, marker) is Some) <==> (exists|k: int|
            0 <= k < fuel && crate::text::starts_with_bytes(
                #[trigger] backward_lines(b, s, fuel)[k],
                marker,
            )),
    decreases fuel,
{
    if fuel > 0 {
        let r = prev_line_raw(b, s);
        let tail = backward_lines(b, r.1, (fuel - 1) as nat);
        lemma_backward_lines_len(b, r.1, (fuel - 1) as nat);
        assert(backward_lines(b, s, fuel) == seq![r.0] + tail);
        assert(backward_lines(b, s, fuel)[0] == r.0);
        if crate::text::starts_with_bytes(r.0, marker) {
            assert(crate::text::starts_with_bytes(backward_lines(b, s, fuel)[0], marker));
        } else {
            lemma_find_marker_scans_lines(b, r.1, (fuel - 1) as nat, marker);
            assert(crate::reader::find_marker_from(b, s, fuel, marker)
                == crate::reader::find_marker_from(b, r.1, (fuel - 1) as nat, marker));
            if crate::reader::find_marker_from(b, s, fuel, marker) is Some {
                let k = choose|k: int|
                    0 <= k < ((fuel - 1) as nat) && crate::text::starts_with_bytes(
                        #[trigger] backward_lines(b, r.1, (fuel - 1) as nat)[k],
                        marker,
                    );
                assert(backward_lines(b, s, fuel)[k + 1] == (seq![r.0] + tail)[k + 1]);
                assert((seq![r.0] + tail)[k + 1] == tail[k]);
                assert(crate::text::starts_with_bytes(
                    backward_lines(b, s, fuel)[k + 1],
                    marker,
                ));
            } else {
                assert forall|k: int| 0 <= k < fuel implies !crate::text::starts_with_bytes(
                    backward_lines(b, s, fuel)[k],
                    marker,
                ) by {
                    if k >= 1 {
                        assert(backward_lines(b, s, fuel)[k] == (seq![r.0] + tail)[k]);
                        assert((seq![r.0] + tail)[k] == backward_lines(
                            b,
                            r.1,
                            (fuel - 1) as nat,
                        )[k - 1]);
                    }
                }
            }
        }
    }
}

/// `n` backward calls yield `n` lines.
pub proof fn lemma_backward_lines_len(b: Seq<u8>, s: int, n: nat)
    ensures
        backward_lines(b, s, n).len() == n,
    decreases n,
{
    if n > 0 {
        lemma_backward_lines_len(b, prev_line_raw(b, s).1, (n - 1) as nat);
    }
}

/// `locate_eof` reports `StructureNotFound` exactly when none of the lines
/// read by its sixteen backward calls begins with `%%EOF`; together with
/// `lemma_backward_line_reads` those lines are the file's last lines in
/// reverse order.
pub proof fn lemma_locate_eof_scans_lines(b: Seq<u8>)
    requires
        b.len() > 0,
    ensures
        locate_eof_spec(b) == Err::<usize, PdfError>(PdfError::StructureNotFound) <==> (forall|
            k: int,
        |
            0 <= k < crate::reader::SEARCH_LINE_LIMIT ==> !crate::text::starts_with_bytes(
                #[trigger] backward_lines(
                    b,
                    b.len() - 1,
                    crate::reader::SEARCH_LINE_LIMIT as nat,
                )[k],
                crate::reader::eof_marker(),
            )),
{
    lemma_find_marker_scans_lines(
        b,
        b.len() - 1,
        crate::reader::SEARCH_LINE_LIMIT as nat,
        crate::reader::eof_marker(),
    );
}

/// The shape of a returned line: the trimmed bytes the reader hands to the
/// decoder are a prefix of the raw collected line, hold no terminator and
/// no NUL, and are unchanged by trimming again — so on ASCII lines the
/// returned string holds no line break and equals its own trim.
pub proof fn lemma_line_shape(b: Seq<u8>, s: int)
    ensures
        trim_end_spec(trim_end_spec(prev_line_raw(b, s).0)) == trim_end_spec(
            prev_line_raw(b, s).0,
        ),
        trim_end_spec(prev_line_raw(b, s).0).len() <= prev_line_raw(b, s).0.len(),
        forall|i: int|
            0 <= i < trim_end_spec(prev_line_raw(b, s).0).len() ==> is_content_byte(
                #[trigger] trim_end_spec(prev_line_raw(b, s).0)[i],
            ),
{
    let line = prev_line_raw(b, s).0;
    crate::utils::lemma_prev_line_content(b, s);
    crate::text::lemma_trim_end_is_prefix(line);
    crate::text::lemma_trim_end_idempotent(line);
    assert forall|i: int| 0 <= i < trim_end_spec(line).len() implies is_content_byte(
        trim_end_spec(line)[i],
    ) by {
        assert(trim_end_spec(line)[i] == line.subrange(0, trim_end_spec(line).len() as int)[i]);
    }
}

/// Entries `k .. count` parse into exactly `count - k` rows whose ids are
/// the sequential values `k`, `k + 1`, and so on.
proof fn lemma_entry_rows_shape(b: Seq<u8>, p: int, k: int, count: int)
    requires
        0 <= k <= count <= u64::MAX,
        crate::reader::entry_rows(b, p, k, count) is Some,
    ensures
        crate::reader::entry_rows(b, p, k, count).unwrap().len() == count - k,
        forall|i: int|
            0 <= i < count - k ==> (#[trigger] crate::reader::entry_rows(
                b,
                p,
                k,
                count,
            ).unwrap()[i]).0.id as int == k + i,
    decreases count - k,
{
    if k < count {
        let e = crate::reader::line_end(b, p);
        let rows = crate::reader::entry_rows(b, p, k, count).unwrap();
        let rest = crate::reader::entry_rows(b, e, k + 1, count).unwrap();
        lemma_entry_rows_shape(b, e, k + 1, count);
        assert forall|i: int| 0 <= i < count - k implies (#[trigger] rows[i]).0.id as int == k
            + i by {
            if i >= 1 {
                assert(rows[i] == rest[i - 1]);
            }
        }
    }
}

/// A parsed xref table holds exactly the number of rows its subsection
/// header declares, keyed by the sequential object ids 0, 1, 2, and so on
/// — so its keys are pairwise distinct and the table maps each key to the
/// one record its entry line declared.
pub proof fn lemma_xref_rows_sequential_ids(b: Seq<u8>, xref_pos: int)
    requires
        xref_rows_spec(b, xref_pos) is Some,
    ensures
        forall|i: int|
            0 <= i < xref_rows_spec(b, xref_pos).unwrap().len() ==> (#[trigger] xref_rows_spec(
                b,
                xref_pos,
            ).unwrap()[i]).0.id as int == i,
        forall|i: int, j: int|
            0 <= i < j < xref_rows_spec(b, xref_pos).unwrap().len() ==> xref_rows_spec(
                b,
                xref_pos,
            ).unwrap()[i].0 != xref_rows_spec(b, xref_pos).unwrap()[j].0,
{
    let p0 = if 0 <= xref_pos <= b.len() {
        xref_pos
    } else {
        b.len() as int
    };
    let p1 = crate::reader::skip_term_bytes(b, crate::reader::skip_xref_keyword(b, p0));
    let e = crate::reader::line_end(b, p1);
    let count = crate::reader::header_count(b.subrange(p1, e)).unwrap();
    lemma_entry_rows_shape(b, e, 0, count as int);
}

/// Idempotence of `locate_eof`: its contract pins the result to a function
/// of the byte source, so two calls on the same bytes agree.
pub proof fn lemma_locate_eof_idempotent(
    b: Seq<u8>,
    r1: Result<usize, PdfError>,
    r2: Result<usize, PdfError>,
)
    requires
        r1 == locate_eof_spec(b),
        r2 == locate_eof_spec(b),
    ensures
        r1 == r2,
{
}

/// Idempotence of `locate_xref_offset` on equal arguments.
pub proof fn lemma_locate_xref_offset_idempotent(
    b: Seq<u8>,
    eof_pos: int,
    r1: Result<u64, PdfError>,
    r2: Result<u64, PdfError>,
)
    requires
        r1 == locate_xref_offset_spec(b, eof_pos),
        r2 == locate_xref_offset_spec(b, eof_pos),
    ensures
        r1 == r2,
{
}

/// Idempotence of `locate_trailer`.
pub proof fn lemma_locate_trailer_idempotent(
    b: Seq<u8>,
    r1: Result<usize, PdfError>,
    r2: Result<usize, PdfError>,
)
    requires
        r1 == locate_trailer_spec(b),
        r2 == locate_trailer_spec(b),
    ensures
        r1 == r2,
{
}

/// Idempotence of `parse_xref_table`: two runs on the same bytes and
/// offset build tables with the same rows, or fail the same way.
pub proof fn lemma_parse_xref_table_idempotent(
    b: Seq<u8>,
    xref_pos: int,
    r1: Option<Seq<(XrefTableKey, XrefRecord)>>,
    r2: Option<Seq<(XrefTableKey, XrefRecord)>>,
)
    requires
        r1 == xref_rows_spec(b, xref_pos),
        r2 == xref_rows_spec(b, xref_pos),
    ensures
        r1 == r2,
{
}

/// Idempotence of `parse_trailer`.
pub proof fn lemma_parse_trailer_idempotent(
    b: Seq<u8>,
    pos: int,
    r1: Result<TrailerObject, PdfError>,
    r2: Result<TrailerObject, PdfError>,
)
    requires
        r1 == parse_trailer_spec(b, pos),
        r2 == parse_trailer_spec(b, pos),
    ensures
        r1 == r2,
{
}

} // verus!
