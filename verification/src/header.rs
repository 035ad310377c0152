//! Strict parser for the header of a binary PPM ("P6") stream.
//!
//! The header grammar, byte for byte: the magic bytes `P` `6`, one
//! whitespace byte, then three numeric tokens (width, height, maximum
//! colour value).  Each token is zero or more whitespace bytes, a run of
//! one or more ASCII digits, and exactly one terminating whitespace byte.
//! The maximum colour value must not need more than three digits, and a
//! three-digit value must be at most 255.  The byte offset just past the
//! last token's terminating whitespace is where pixel data starts.

use vstd::prelude::*;

verus! {

/// Failure while reading a PPM stream: the header does not follow the
/// grammar, or the underlying source could not be read at all.
#[derive(Debug)]
pub enum PPMError {
    BadHeader(String),
    BadFile(String),
}

/// The four fields of a PPM header, in the order they appear in the stream.
#[derive(Debug, Clone, Copy)]
pub struct PPMHeader {
    pub magic_number: [u8; 2],
    pub width: u32,
    pub height: u32,
    pub max_color_value: u32,
}

/// Whitespace bytes that may separate header tokens: space, tab, line
/// feed, carriage return.
pub open spec fn is_ws_byte(b: u8) -> bool {
    b == 32 || b == 9 || b == 10 || b == 13
}

/// ASCII digit bytes `0` through `9`.
pub open spec fn is_digit_byte(b: u8) -> bool {
    48 <= b && b <= 57
}

/// The first position at or after `i` that does not hold a whitespace
/// byte, or the end of the stream.
pub open spec fn skip_ws(s: Seq<u8>, i: int) -> int
    decreases s.len() - i,
{
    if i < s.len() && is_ws_byte(s[i]) {
        skip_ws(s, i + 1)
    } else {
        i
    }
}

/// The first position at or after `i` that does not hold a digit byte,
/// or the end of the stream.
pub open spec fn digit_run_end(s: Seq<u8>, i: int) -> int
    decreases s.len() - i,
{
    if i < s.len() && is_digit_byte(s[i]) {
        digit_run_end(s, i + 1)
    } else {
        i
    }
}

/// Base-10 value of a run of digit bytes, most significant digit first.
pub open spec fn digits_value(s: Seq<u8>) -> int
    decreases s.len(),
{
    if s.len() == 0 {
        0
    } else {
        digits_value(s.drop_last()) * 10 + (s.last() - 48)
    }
}

/// One numeric token starting at `i`: optional whitespace, at least one
/// digit, and a terminating whitespace byte before the stream ends.
pub open spec fn token_ok(s: Seq<u8>, i: int) -> bool {
    let d0 = skip_ws(s, i);
    let d1 = digit_run_end(s, d0);
    d0 < s.len() && is_digit_byte(s[d0]) && d1 < s.len() && is_ws_byte(s[d1])
}

/// Numeric value of the token starting at `i`.
pub open spec fn token_value(s: Seq<u8>, i: int) -> int {
    digits_value(s.subrange(skip_ws(s, i), digit_run_end(s, skip_ws(s, i))))
}

/// Number of digits in the token starting at `i`.
pub open spec fn token_digits(s: Seq<u8>, i: int) -> int {
    digit_run_end(s, skip_ws(s, i)) - skip_ws(s, i)
}

/// Position just past the token's terminating whitespace byte.
pub open spec fn token_end(s: Seq<u8>, i: int) -> int {
    digit_run_end(s, skip_ws(s, i)) + 1
}

/// The stream opens with the magic bytes `P` (80) and `6` (54).
pub open spec fn magic_ok(s: Seq<u8>) -> bool {
    s.len() >= 2 && s[0] == 80 && s[1] == 54
}

/// The maximum colour value token: after width and height, a token of at
/// most three digits, and a three-digit value no larger than 255.
pub open spec fn maxval_ok(s: Seq<u8>) -> bool {
    let i = token_end(s, token_end(s, 3));
    token_ok(s, i) && (token_digits(s, i) <= 2 || (token_digits(s, i) == 3 && token_value(s, i)
        <= 255))
}

/// The stream fails only the maximum colour value bound: everything up
/// to and including the maxval token's grammar holds, but the token
/// needs more than three digits, or spells a three-digit value above 255.
pub open spec fn maxval_too_large(s: Seq<u8>) -> bool {
    &&& magic_ok(s)
    &&& s.len() >= 3
    &&& is_ws_byte(s[2])
    &&& token_ok(s, 3)
    &&& token_value(s, 3) <= u32::MAX
    &&& token_ok(s, token_end(s, 3))
    &&& token_value(s, token_end(s, 3)) <= u32::MAX
    &&& token_ok(s, token_end(s, token_end(s, 3)))
    &&& !maxval_ok(s)
}

/// The whole header grammar: magic bytes, one whitespace byte, then the
/// width, height and maximum colour value tokens in fixed order, with the
/// width and height values fitting in a `u32`.
pub open spec fn header_ok(s: Seq<u8>) -> bool {
    &&& magic_ok(s)
    &&& s.len() >= 3
    &&& is_ws_byte(s[2])
    &&& token_ok(s, 3)
    &&& token_value(s, 3) <= u32::MAX
    &&& token_ok(s, token_end(s, 3))
    &&& token_value(s, token_end(s, 3)) <= u32::MAX
    &&& maxval_ok(s)
}

/// Width value of a well-formed header.
pub open spec fn width_of(s: Seq<u8>) -> int {
    token_value(s, 3)
}

/// Height value of a well-formed header.
pub open spec fn height_of(s: Seq<u8>) -> int {
    token_value(s, token_end(s, 3))
}

/// Maximum colour value of a well-formed header.
pub open spec fn maxval_of(s: Seq<u8>) -> int {
    token_value(s, token_end(s, token_end(s, 3)))
}

/// Offset of the first pixel-data byte: just past the maximum colour
/// value token's terminating whitespace.
pub open spec fn pixel_start(s: Seq<u8>) -> int {
    token_end(s, token_end(s, token_end(s, 3)))
}

/// The parsed record carries exactly the values the stream spells out.
pub open spec fn header_matches(h: PPMHeader, s: Seq<u8>) -> bool {
    &&& h.magic_number@ == seq![80u8, 54u8]
    &&& h.width == width_of(s)
    &&& h.height == height_of(s)
    &&& h.max_color_value == maxval_of(s)
}

/// Digit characters `0` through `9`.
pub open spec fn is_digit_char(c: char) -> bool {
    48 <= c as u32 && c as u32 <= 57
}

/// Base-10 value of a run of digit characters, most significant first.
pub open spec fn char_digits_value(s: Seq<char>) -> int
    decreases s.len(),
{
    if s.len() == 0 {
        0
    } else {
        char_digits_value(s.drop_last()) * 10 + (s.last() as u32 - 48)
    }
}

/// A string that `string_to_u32` accepts: nonempty, all digits, and a
/// value that fits in a `u32`.
pub open spec fn u32_string_ok(s: Seq<char>) -> bool {
    &&& s.len() > 0
    &&& forall|i: int| 0 <= i < s.len() ==> is_digit_char(s[i])
    &&& char_digits_value(s) <= u32::MAX
}

/// The value of a run of digit characters is never negative.
pub proof fn lemma_char_digits_value_nonneg(s: Seq<char>)
    requires
        forall|k: int| 0 <= k < s.len() ==> is_digit_char(s[k]),
    ensures
        char_digits_value(s) >= 0,
    decreases s.len(),
{
    if s.len() > 0 {
        assert(forall|k: int| 0 <= k < s.drop_last().len() ==> is_digit_char(
            #[trigger] s.drop_last()[k],
        ));
        lemma_char_digits_value_nonneg(s.drop_last());
    }
}

/// Extending a run of digit characters on the right never shrinks its value.
pub proof fn lemma_char_digits_value_prefix(s: Seq<char>, j: int, k: int)
    requires
        0 <= j <= k <= s.len(),
        forall|x: int| 0 <= x < k ==> is_digit_char(s[x]),
    ensures
        char_digits_value(s.subrange(0, j)) <= char_digits_value(s.subrange(0, k)),
    decreases k - j,
{
    if j < k {
        assert(s.subrange(0, k).drop_last() =~= s.subrange(0, k - 1));
        lemma_char_digits_value_prefix(s, j, k - 1);
        assert(forall|x: int| 0 <= x < k - 1 ==> is_digit_char(
            #[trigger] s.subrange(0, k - 1)[x],
        ));
        lemma_char_digits_value_nonneg(s.subrange(0, k - 1));
        assert(char_digits_value(s.subrange(0, k)) == char_digits_value(s.subrange(0, k - 1)) * 10
            + (s[k - 1] as u32 - 48));
    }
}

impl PPMHeader {
    /// Parses a string of decimal digits as a base-10 `u32`, as the header
    /// fields are parsed: accepted exactly when the string is nonempty,
    /// holds only digits, and its value fits.
    pub fn string_to_u32(s: String) -> (r: Result<u32, PPMError>)
        ensures
            match r {
                Ok(v) => u32_string_ok(s@) && v == char_digits_value(s@),
                Err(e) => !u32_string_ok(s@) && e is BadHeader,
            },
    {
        let st = s.as_str();
        let n = st.unicode_len();
        if n == 0 {
            return Err(PPMError::BadHeader("Invalid number in header".to_owned()));
        }
        let mut j: usize = 0;
        let mut v: u32 = 0;
        while j < n
            invariant
                0 <= j <= n,
                n == s@.len(),
                st@ == s@,
                forall|x: int| 0 <= x < j ==> is_digit_char(s@[x]),
                v == char_digits_value(s@.subrange(0, j as int)),
            decreases n - j,
        {
            let c = st.get_char(j);
            let d32 = c as u32;
            if d32 < 48 || d32 > 57 {
                return Err(PPMError::BadHeader("Invalid number in header".to_owned()));
            }
            let d: u32 = d32 - 48;
            let nv: u64 = v as u64 * 10 + d as u64;
            proof {
                assert(s@.subrange(0, j + 1).drop_last() =~= s@.subrange(0, j as int));
                assert(char_digits_value(s@.subrange(0, j + 1)) == v * 10 + d);
            }
            if nv > u32::MAX as u64 {
                proof {
                    if forall|x: int| 0 <= x < s@.len() ==> is_digit_char(s@[x]) {
                        lemma_char_digits_value_prefix(s@, j + 1, s@.len() as int);
                        assert(s@.subrange(0, s@.len() as int) =~= s@);
                    }
                }
                return Err(PPMError::BadHeader("Invalid number in header".to_owned()));
            }
            v = nv as u32;
            j = j + 1;
        }
        proof {
            assert(s@.subrange(0, n as int) =~= s@);
        }
        Ok(v)
    }
}

/// Every byte of a digit run, up to `digit_run_end`, is a digit, and the
/// run stays inside the stream.
pub proof fn lemma_digit_run_end_props(s: Seq<u8>, i: int)
    requires
        0 <= i <= s.len(),
    ensures
        i <= digit_run_end(s, i) <= s.len(),
        forall|k: int| i <= k < digit_run_end(s, i) ==> is_digit_byte(s[k]),
    decreases s.len() - i,
{
    if i < s.len() && is_digit_byte(s[i]) {
        lemma_digit_run_end_props(s, i + 1);
    }
}

/// The value of a run of digit bytes is never negative.
pub proof fn lemma_digits_value_nonneg(s: Seq<u8>)
    requires
        forall|k: int| 0 <= k < s.len() ==> is_digit_byte(s[k]),
    ensures
        digits_value(s) >= 0,
    decreases s.len(),
{
    if s.len() > 0 {
        assert(forall|k: int| 0 <= k < s.drop_last().len() ==> is_digit_byte(#[trigger] s.drop_last()[k]));
        lemma_digits_value_nonneg(s.drop_last());
    }
}

/// Extending a digit run on the right never shrinks its value.
pub proof fn lemma_digits_value_prefix(s: Seq<u8>, i: int, j: int, k: int)
    requires
        0 <= i <= j <= k <= s.len(),
        forall|x: int| i <= x < k ==> is_digit_byte(s[x]),
    ensures
        digits_value(s.subrange(i, j)) <= digits_value(s.subrange(i, k)),
    decreases k - j,
{
    if j < k {
        assert(s.subrange(i, k).drop_last() =~= s.subrange(i, k - 1));
        lemma_digits_value_prefix(s, i, j, k - 1);
        assert(forall|x: int| 0 <= x < k - 1 - i ==> is_digit_byte(#[trigger] s.subrange(i, k - 1)[x]));
        lemma_digits_value_nonneg(s.subrange(i, k - 1));
        assert(digits_value(s.subrange(i, k)) == digits_value(s.subrange(i, k - 1)) * 10 + (s[k
            - 1] - 48));
    }
}

/// A whitespace scan stays inside the stream and stops at the first
/// non-whitespace byte.
pub proof fn lemma_skip_ws_props(s: Seq<u8>, i: int)
    requires
        0 <= i <= s.len(),
    ensures
        i <= skip_ws(s, i) <= s.len(),
        skip_ws(s, i) < s.len() ==> !is_ws_byte(s[skip_ws(s, i)]),
    decreases s.len() - i,
{
    if i < s.len() && is_ws_byte(s[i]) {
        lemma_skip_ws_props(s, i + 1);
    }
}

/// Two streams that agree on every byte below `n` skip whitespace
/// identically, as long as the scan stops below `n`.
proof fn lemma_skip_ws_agree(s: Seq<u8>, t: Seq<u8>, i: int, n: int)
    requires
        0 <= i <= s.len(),
        skip_ws(s, i) < n,
        n <= s.len(),
        n <= t.len(),
        forall|j: int| 0 <= j < n ==> s[j] == t[j],
    ensures
        skip_ws(t, i) == skip_ws(s, i),
    decreases s.len() - i,
{
    lemma_skip_ws_props(s, i);
    if i < s.len() && is_ws_byte(s[i]) {
        lemma_skip_ws_agree(s, t, i + 1, n);
    }
}

/// Two streams that agree on every byte below `n` scan a digit run
/// identically, as long as the run ends below `n`.
proof fn lemma_digit_run_end_agree(s: Seq<u8>, t: Seq<u8>, i: int, n: int)
    requires
        0 <= i <= s.len(),
        digit_run_end(s, i) < n,
        n <= s.len(),
        n <= t.len(),
        forall|j: int| 0 <= j < n ==> s[j] == t[j],
    ensures
        digit_run_end(t, i) == digit_run_end(s, i),
    decreases s.len() - i,
{
    lemma_digit_run_end_props(s, i);
    if i < s.len() && is_digit_byte(s[i]) {
        lemma_digit_run_end_agree(s, t, i + 1, n);
    }
}

/// Two streams that agree on every byte below `n` parse a numeric token
/// identically, as long as the token ends at or below `n`.
proof fn lemma_token_agree(s: Seq<u8>, t: Seq<u8>, i: int, n: int)
    requires
        token_ok(s, i),
        0 <= i <= s.len(),
        token_end(s, i) <= n <= s.len(),
        n <= t.len(),
        forall|j: int| 0 <= j < n ==> s[j] == t[j],
    ensures
        token_ok(t, i),
        token_end(t, i) == token_end(s, i),
        token_value(t, i) == token_value(s, i),
        token_digits(t, i) == token_digits(s, i),
{
    let d0 = skip_ws(s, i);
    let d1 = digit_run_end(s, d0);
    lemma_skip_ws_props(s, i);
    lemma_digit_run_end_props(s, d0);
    lemma_skip_ws_agree(s, t, i, n);
    lemma_digit_run_end_agree(s, t, d0, n);
    assert(s.subrange(d0, d1) =~= t.subrange(d0, d1));
}

/// A numeric token ends strictly after the position it starts at, and
/// inside the stream.
pub proof fn lemma_token_end_bounds(s: Seq<u8>, i: int)
    requires
        token_ok(s, i),
        0 <= i <= s.len(),
    ensures
        i < token_end(s, i) <= s.len(),
{
    lemma_skip_ws_props(s, i);
    lemma_digit_run_end_props(s, skip_ws(s, i));
}

/// In a well-formed header the pixel data starts after the magic bytes
/// and the three tokens, and within the stream.
pub proof fn lemma_pixel_start_bounds(s: Seq<u8>)
    requires
        header_ok(s),
    ensures
        3 < pixel_start(s) <= s.len(),
{
    lemma_token_end_bounds(s, 3);
    lemma_token_end_bounds(s, token_end(s, 3));
    lemma_token_end_bounds(s, token_end(s, token_end(s, 3)));
}

/// Law: the header parse reads only the bytes before the pixel-data
/// start.  Two streams of equal length that agree on every byte below
/// that offset parse identically: same fields, same offset.
pub proof fn lemma_header_depends_on_prefix(s: Seq<u8>, t: Seq<u8>)
    requires
        header_ok(s),
        s.len() == t.len(),
        forall|j: int| 0 <= j < pixel_start(s) ==> s[j] == t[j],
    ensures
        header_ok(t),
        pixel_start(t) == pixel_start(s),
        width_of(t) == width_of(s),
        height_of(t) == height_of(s),
        maxval_of(t) == maxval_of(s),
{
    let n = pixel_start(s);
    let p1 = token_end(s, 3);
    let p2 = token_end(s, p1);
    lemma_token_end_bounds(s, 3);
    lemma_token_end_bounds(s, p1);
    lemma_token_end_bounds(s, p2);
    lemma_token_agree(s, t, 3, n);
    lemma_token_agree(s, t, p1, n);
    lemma_token_agree(s, t, p2, n);
}

/// Law: header rejection.  A stream whose first two bytes are anything
/// but `P` `6` can never satisfy the header grammar, so `parse_header`
/// rejects it, reporting the bad magic number.
pub proof fn lemma_bad_magic_rejected(s: Seq<u8>)
    requires
        s.len() < 2 || s[0] != 80 || s[1] != 54,
    ensures
        !header_ok(s),
{
}

/// Whether `b` is one of the four whitespace bytes of the header grammar.
pub fn is_white_space(b: u8) -> (r: bool)
    ensures
        r == is_ws_byte(b),
{
    b == 32 || b == 9 || b == 10 || b == 13
}

/// Whether `b` is an ASCII digit byte.
pub fn is_digit(b: u8) -> (r: bool)
    ensures
        r == is_digit_byte(b),
{
    48 <= b && b <= 57
}

/// Advances past whitespace bytes, stopping at the first byte that is not
/// whitespace or at the end of the stream.
fn skip_ws_exec(bytes: &[u8], from: usize) -> (j: usize)
    requires
        from <= bytes@.len(),
    ensures
        j == skip_ws(bytes@, from as int),
        from <= j <= bytes@.len(),
        j < bytes@.len() ==> !is_ws_byte(bytes@[j as int]),
{
    let mut j = from;
    while j < bytes.len() && is_white_space(bytes[j])
        invariant
            from <= j <= bytes@.len(),
            skip_ws(bytes@, from as int) == skip_ws(bytes@, j as int),
        decreases bytes@.len() - j,
    {
        j = j + 1;
    }
    j
}

/// Advances past digit bytes, stopping at the first byte that is not a
/// digit or at the end of the stream.
fn digit_run_end_exec(bytes: &[u8], from: usize) -> (j: usize)
    requires
        from <= bytes@.len(),
    ensures
        j == digit_run_end(bytes@, from as int),
        from <= j <= bytes@.len(),
    {
    let mut j = from;
    while j < bytes.len() && is_digit(bytes[j])
        invariant
            from <= j <= bytes@.len(),
            digit_run_end(bytes@, from as int) == digit_run_end(bytes@, j as int),
        decreases bytes@.len() - j,
    {
        j = j + 1;
    }
    j
}

/// Parses one numeric token (width or height): optional whitespace, a
/// digit run, one terminating whitespace byte.  Returns the value and the
/// position just past the terminator.
fn parse_token(bytes: &[u8], from: usize) -> (r: Result<(u32, usize), PPMError>)
    requires
        from <= bytes@.len(),
    ensures
        match r {
            Ok((v, next)) => {
                &&& token_ok(bytes@, from as int)
                &&& token_value(bytes@, from as int) <= u32::MAX
                &&& v == token_value(bytes@, from as int)
                &&& next == token_end(bytes@, from as int)
                &&& from < next <= bytes@.len()
            },
            Err(e) => {
                &&& !(token_ok(bytes@, from as int) && token_value(bytes@, from as int)
                    <= u32::MAX)
                &&& e is BadHeader
            },
        },
{
    let ghost s = bytes@;
    let d0 = skip_ws_exec(bytes, from);
    if d0 == bytes.len() || !is_digit(bytes[d0]) {
        return Err(PPMError::BadHeader("expected a digit in header".to_owned()));
    }
    let mut j = d0;
    let mut v: u32 = 0;
    while j < bytes.len() && is_digit(bytes[j])
        invariant
            from <= bytes@.len(),
            d0 == skip_ws(s, from as int),
            d0 <= j <= bytes@.len(),
            s == bytes@,
            d0 < s.len() && is_digit_byte(s[d0 as int]),
            digit_run_end(s, d0 as int) == digit_run_end(s, j as int),
            forall|x: int| d0 <= x < j ==> is_digit_byte(s[x]),
            v == digits_value(s.subrange(d0 as int, j as int)),
        decreases bytes@.len() - j,
    {
        let d: u32 = (bytes[j] - 48) as u32;
        let nv: u64 = v as u64 * 10 + d as u64;
        proof {
            assert(s.subrange(d0 as int, j + 1).drop_last() =~= s.subrange(d0 as int, j as int));
            assert(digits_value(s.subrange(d0 as int, j + 1)) == v * 10 + d);
        }
        if nv > u32::MAX as u64 {
            proof {
                let d1 = digit_run_end(s, d0 as int);
                lemma_digit_run_end_props(s, j as int);
                assert(digit_run_end(s, j as int) == digit_run_end(s, j + 1));
                lemma_digit_run_end_props(s, j + 1);
                lemma_digits_value_prefix(s, d0 as int, j + 1, d1);
                assert(token_value(s, from as int) > u32::MAX);
            }
            return Err(PPMError::BadHeader("number in header does not fit".to_owned()));
        }
        v = nv as u32;
        j = j + 1;
    }
    if j == bytes.len() || !is_white_space(bytes[j]) {
        return Err(PPMError::BadHeader("expected white space after digits in header".to_owned()));
    }
    proof {
        assert(j == digit_run_end(s, d0 as int));
        assert(s.subrange(d0 as int, j as int) =~= s.subrange(
            skip_ws(s, from as int),
            digit_run_end(s, skip_ws(s, from as int)),
        ));
    }
    Ok((v, j + 1))
}

/// Parses the maximum colour value token: the same grammar as width and
/// height, but at most three digits, and a three-digit value of at most
/// 255.  Returns the value and the position just past the terminator,
/// which is where pixel data begins.
fn parse_max_color_value(bytes: &[u8], from: usize) -> (r: Result<(u32, usize), PPMError>)
    requires
        from <= bytes@.len(),
    ensures
        match r {
            Ok((v, next)) => {
                &&& token_ok(bytes@, from as int)
                &&& token_digits(bytes@, from as int) <= 2 || (token_digits(bytes@, from as int)
                    == 3 && token_value(bytes@, from as int) <= 255)
                &&& v == token_value(bytes@, from as int)
                &&& v <= 255
                &&& next == token_end(bytes@, from as int)
                &&& from < next <= bytes@.len()
            },
            Err(e) => {
                &&& !(token_ok(bytes@, from as int) && (token_digits(bytes@, from as int) <= 2 || (
                token_digits(bytes@, from as int) == 3 && token_value(bytes@, from as int)
                    <= 255)))
                &&& (e matches PPMError::BadHeader(m) && (token_ok(bytes@, from as int) ==> m@
                    == "max color value too large"@))
            },
        },
{
    let ghost s = bytes@;
    let d0 = skip_ws_exec(bytes, from);
    if d0 == bytes.len() || !is_digit(bytes[d0]) {
        return Err(
            PPMError::BadHeader("expected a digit when parsing max color value".to_owned()),
        );
    }
    let d1 = digit_run_end_exec(bytes, d0);
    if d1 == bytes.len() || !is_white_space(bytes[d1]) {
        return Err(
            PPMError::BadHeader("expected white space after max color value".to_owned()),
        );
    }
    proof {
        lemma_digit_run_end_props(s, d0 as int);
    }
    if d1 - d0 > 3 {
        return Err(PPMError::BadHeader("max color value too large".to_owned()));
    }
    let mut j = d0;
    let mut v: u32 = 0;
    while j < d1
        invariant
            d0 <= j <= d1 <= bytes@.len(),
            s == bytes@,
            d1 - d0 <= 3,
            forall|x: int| d0 <= x < d1 ==> is_digit_byte(s[x]),
            v == digits_value(s.subrange(d0 as int, j as int)),
            v < 1000,
            j - d0 <= 1 ==> v <= 9,
            j - d0 <= 2 ==> v <= 99,
        decreases d1 - j,
    {
        let d: u32 = (bytes[j] - 48) as u32;
        proof {
            assert(s.subrange(d0 as int, j + 1).drop_last() =~= s.subrange(d0 as int, j as int));
            assert(digits_value(s.subrange(d0 as int, j + 1)) == v * 10 + d);
        }
        v = v * 10 + d;
        j = j + 1;
    }
    proof {
        assert(s.subrange(d0 as int, d1 as int) =~= s.subrange(
            skip_ws(s, from as int),
            digit_run_end(s, skip_ws(s, from as int)),
        ));
    }
    if d1 - d0 == 3 && v > 255 {
        return Err(PPMError::BadHeader("max color value too large".to_owned()));
    }
    Ok((v, d1 + 1))
}

/// Parses a complete PPM header from the start of `bytes`, returning the
/// header record and the offset where pixel data begins.  The stream is
/// accepted exactly when it satisfies `header_ok`; everything else is a
/// `BadHeader` error, and a stream that does not open with `P6` is
/// reported as a bad magic number.
pub fn parse_header(bytes: &[u8]) -> (r: Result<(PPMHeader, usize), PPMError>)
    ensures
        match r {
            Ok((h, off)) => {
                &&& header_ok(bytes@)
                &&& header_matches(h, bytes@)
                &&& off == pixel_start(bytes@)
                &&& off <= bytes@.len()
            },
            Err(e) => !header_ok(bytes@) && e is BadHeader,
        },
        !magic_ok(bytes@) ==> (r matches Err(PPMError::BadHeader(m)) && m@
            == "bad magic number"@),
        maxval_too_large(bytes@) ==> (r matches Err(PPMError::BadHeader(m)) && m@
            == "max color value too large"@),
{
    if bytes.len() < 2 || bytes[0] != 80 || bytes[1] != 54 {
        return Err(PPMError::BadHeader("bad magic number".to_owned()));
    }
    if bytes.len() < 3 || !is_white_space(bytes[2]) {
        return Err(
            PPMError::BadHeader("expected white space after magic number".to_owned()),
        );
    }
    let (width, p1) = match parse_token(bytes, 3) {
        Ok(t) => t,
        Err(e) => {
            return Err(e);
        },
    };
    let (height, p2) = match parse_token(bytes, p1) {
        Ok(t) => t,
        Err(e) => {
            return Err(e);
        },
    };
    let (max_color_value, p3) = match parse_max_color_value(bytes, p2) {
        Ok(t) => t,
        Err(e) => {
            return Err(e);
        },
    };
    let header = PPMHeader {
        magic_number: [80u8, 54u8],
        width,
        height,
        max_color_value,
    };
    Ok((header, p3))
}

} // verus!
