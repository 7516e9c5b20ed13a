//! Byte-level text helpers shared by the locator and the parsers: classifying
//! bytes, trimming ASCII whitespace, finding tokens, and reading unsigned
//! decimal numbers.

use vstd::prelude::*;

verus! {

/// A line-terminator byte: LF or CR.
pub open spec fn is_term_byte(b: u8) -> bool {
    b == 10 || b == 13
}

/// ASCII whitespace, the characters that `char::is_whitespace` accepts below
/// code point 128: HT, LF, VT, FF, CR and space.
pub open spec fn is_ws_byte(b: u8) -> bool {
    b == 32 || (9 <= b && b <= 13)
}

/// A byte that can stand inside a line: neither a terminator nor the NUL
/// start-of-stream sentinel.
pub open spec fn is_content_byte(b: u8) -> bool {
    b != 0 && !is_term_byte(b)
}

/// An ASCII decimal digit.
pub open spec fn is_digit_byte(b: u8) -> bool {
    48 <= b && b <= 57
}

pub open spec fn all_ascii(s: Seq<u8>) -> bool {
    forall|i: int| 0 <= i < s.len() ==> s[i] < 128
}

pub open spec fn all_digits(s: Seq<u8>) -> bool {
    forall|i: int| 0 <= i < s.len() ==> is_digit_byte(s[i])
}

/// `s` with its trailing ASCII whitespace removed.
pub open spec fn trim_end_spec(s: Seq<u8>) -> Seq<u8>
    decreases s.len(),
{
    if s.len() > 0 && is_ws_byte(s.last()) {
        trim_end_spec(s.drop_last())
    } else {
        s
    }
}

/// The trimmed line is a prefix of the line: trimming removes bytes from
/// the end only.
pub proof fn lemma_trim_end_is_prefix(s: Seq<u8>)
    ensures
        trim_end_spec(s).len() <= s.len(),
        trim_end_spec(s) == s.subrange(0, trim_end_spec(s).len() as int),
    decreases s.len(),
{
    if s.len() > 0 && is_ws_byte(s.last()) {
        lemma_trim_end_is_prefix(s.drop_last());
        assert(s.drop_last().subrange(0, trim_end_spec(s).len() as int) =~= s.subrange(
            0,
            trim_end_spec(s).len() as int,
        ));
    } else {
        assert(s =~= s.subrange(0, s.len() as int));
    }
}

/// Trimming is idempotent: a trimmed line equals its own trim.
pub proof fn lemma_trim_end_idempotent(s: Seq<u8>)
    ensures
        trim_end_spec(trim_end_spec(s)) == trim_end_spec(s),
    decreases s.len(),
{
    if s.len() > 0 && is_ws_byte(s.last()) {
        lemma_trim_end_idempotent(s.drop_last());
    }
}

/// Does `s` begin with `p`?
pub open spec fn starts_with_bytes(s: Seq<u8>, p: Seq<u8>) -> bool {
    p.len() <= s.len() && s.subrange(0, p.len() as int) == p
}

/// The first index `>= i` whose byte is not ASCII whitespace, or `s.len()`.
pub open spec fn skip_ws_from(s: Seq<u8>, i: int) -> int
    decreases s.len() - i,
{
    if 0 <= i < s.len() {
        if is_ws_byte(s[i]) {
            skip_ws_from(s, i + 1)
        } else {
            i
        }
    } else {
        s.len() as int
    }
}

/// The first index `>= i` whose byte is ASCII whitespace, or `s.len()`.
pub open spec fn token_end_from(s: Seq<u8>, i: int) -> int
    decreases s.len() - i,
{
    if 0 <= i < s.len() {
        if is_ws_byte(s[i]) {
            i
        } else {
            token_end_from(s, i + 1)
        }
    } else {
        s.len() as int
    }
}

/// The first index `>= i` that is not an ASCII digit, or `s.len()`.
pub open spec fn digit_run_end(s: Seq<u8>, i: int) -> int
    decreases s.len() - i,
{
    if 0 <= i < s.len() {
        if is_digit_byte(s[i]) {
            digit_run_end(s, i + 1)
        } else {
            i
        }
    } else {
        s.len() as int
    }
}

/// The value of a sequence of ASCII digits read as a decimal number.
pub open spec fn digits_value(s: Seq<u8>) -> nat
    decreases s.len(),
{
    if s.len() == 0 {
        0
    } else {
        digits_value(s.drop_last()) * 10 + (s.last() - 48) as nat
    }
}

/// The digit part of a decimal number as `u64::from_str` reads it: an
/// optional leading `+` sign followed by the digits.
pub open spec fn unsigned_digits(s: Seq<u8>) -> Seq<u8> {
    if s.len() > 0 && s[0] == 43 {
        s.drop_first()
    } else {
        s
    }
}

/// Does `s` read as an unsigned 64-bit decimal number: a nonempty digit run
/// after the optional sign, whose value fits in a `u64`?
pub open spec fn parses_as_u64(s: Seq<u8>) -> bool {
    let d = unsigned_digits(s);
    d.len() > 0 && all_digits(d) && digits_value(d) <= u64::MAX
}

/// What `parse_u64` returns on `s`.
pub open spec fn parse_u64_spec(s: Seq<u8>) -> Option<u64> {
    if parses_as_u64(s) {
        Some(digits_value(unsigned_digits(s)) as u64)
    } else {
        None
    }
}

/// Extending a digit run never lowers its value.
proof fn lemma_digits_value_prefix_le(s: Seq<u8>, n: int)
    requires
        0 <= n <= s.len(),
        all_digits(s),
    ensures
        digits_value(s.subrange(0, n)) <= digits_value(s),
    decreases s.len() - n,
{
    if n < s.len() {
        lemma_digits_value_prefix_le(s, n + 1);
        let p = s.subrange(0, n + 1);
        assert(p.drop_last() =~= s.subrange(0, n));
        assert(digits_value(s.subrange(0, n)) <= digits_value(p));
    } else {
        assert(s.subrange(0, n) =~= s);
    }
}

/// Reads `s` as an unsigned decimal number the way `u64::from_str` does:
/// an optional `+` sign, then at least one ASCII digit, rejecting anything
/// else and any value that does not fit in 64 bits.
pub fn parse_u64(s: &[u8]) -> (r: Option<u64>)
    ensures
        r == parse_u64_spec(s@),
{
    let n = s.len();
    let mut i: usize = 0;
    if n > 0 && s[0] == 43 {
        i = 1;
    }
    let ghost d = unsigned_digits(s@);
    proof {
        assert(d =~= s@.subrange(i as int, n as int));
    }
    if i == n {
        return None;
    }
    let start = i;
    let mut acc: u64 = 0;
    while i < n
        invariant
            start <= i <= n == s@.len(),
            start == (if n > 0 && s@[0] == 43 { 1int } else { 0int }),
            d == unsigned_digits(s@),
            d == s@.subrange(start as int, n as int),
            n > start,
            all_digits(d.subrange(0, i - start)),
            acc == digits_value(d.subrange(0, i - start)),
        decreases n - i,
    {
        let b = s[i];
        if !(48 <= b && b <= 57) {
            proof {
                assert(d[i - start] == b);
                assert(!is_digit_byte(d[i - start]));
            }
            return None;
        }
        let dv: u64 = (b - 48) as u64;
        let ghost p1 = d.subrange(0, i + 1 - start);
        proof {
            assert(p1.drop_last() =~= d.subrange(0, i - start));
            assert(p1.last() == b);
        }
        if acc > (u64::MAX - dv) / 10 {
            proof {
                let q = ((u64::MAX - dv) / 10) as int;
                vstd::arithmetic::div_mod::lemma_fundamental_div_mod((u64::MAX - dv) as int, 10);
                assert(acc as int >= q + 1);
                vstd::arithmetic::mul::lemma_mul_inequality(q + 1, acc as int, 10);
                assert(digits_value(p1) > u64::MAX);
                if all_digits(d) {
                    lemma_digits_value_prefix_le(d, i + 1 - start);
                }
                assert(!parses_as_u64(s@));
            }
            return None;
        }
        proof {
            let q = ((u64::MAX - dv) / 10) as int;
            vstd::arithmetic::div_mod::lemma_fundamental_div_mod((u64::MAX - dv) as int, 10);
            vstd::arithmetic::mul::lemma_mul_inequality(acc as int, q, 10);
        }
        acc = acc * 10 + dv;
        i = i + 1;
    }
    proof {
        assert(d.subrange(0, i - start) =~= d);
    }
    Some(acc)
}

/// Removes trailing ASCII whitespace from a byte line.
pub fn trim_end_bytes(s: &[u8]) -> (r: Vec<u8>)
    ensures
        r@ == trim_end_spec(s@),
{
    let mut end = s.len();
    proof {
        assert(s@.subrange(0, s@.len() as int) =~= s@);
    }
    while end > 0 && (s[end - 1] == 32 || (9 <= s[end - 1] && s[end - 1] <= 13))
        invariant
            end <= s@.len(),
            trim_end_spec(s@) == trim_end_spec(s@.subrange(0, end as int)),
        decreases end,
    {
        proof {
            let p = s@.subrange(0, end as int);
            assert(p.last() == s@[end - 1]);
            assert(p.drop_last() =~= s@.subrange(0, end - 1));
        }
        end = end - 1;
    }
    proof {
        let p = s@.subrange(0, end as int);
        if end > 0 {
            assert(p.last() == s@[end - 1]);
        }
        assert(trim_end_spec(p) == p);
    }
    let mut out: Vec<u8> = Vec::new();
    let mut i: usize = 0;
    while i < end
        invariant
            i <= end <= s@.len(),
            out@ == s@.subrange(0, i as int),
        decreases end - i,
    {
        out.push(s[i]);
        proof {
            assert(out@ =~= s@.subrange(0, i + 1));
        }
        i = i + 1;
    }
    out
}

/// The first index `>= from` that is not ASCII whitespace, or the length.
pub fn skip_ws(s: &[u8], from: usize) -> (r: usize)
    requires
        from <= s@.len(),
    ensures
        r == skip_ws_from(s@, from as int),
        from <= r <= s@.len(),
{
    let mut i = from;
    while i < s.len() && (s[i] == 32 || (9 <= s[i] && s[i] <= 13))
        invariant
            from <= i <= s@.len(),
            skip_ws_from(s@, from as int) == skip_ws_from(s@, i as int),
        decreases s@.len() - i,
    {
        i = i + 1;
    }
    i
}

/// The first ASCII-whitespace index `>= from`, or the length.
pub fn token_end(s: &[u8], from: usize) -> (r: usize)
    requires
        from <= s@.len(),
    ensures
        r == token_end_from(s@, from as int),
        from <= r <= s@.len(),
{
    let mut i = from;
    while i < s.len() && !(s[i] == 32 || (9 <= s[i] && s[i] <= 13))
        invariant
            from <= i <= s@.len(),
            token_end_from(s@, from as int) == token_end_from(s@, i as int),
        decreases s@.len() - i,
    {
        i = i + 1;
    }
    i
}

} // verus!
