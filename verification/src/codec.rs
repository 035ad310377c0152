//! The steganographic codec: embeds an ASCII message into the
//! least-significant bits of pixel bytes and extracts it again.

use vstd::prelude::*;

verus! {

broadcast use vstd::string::is_ascii_spec_bytes;

/// Failure of an encode or decode operation.
#[derive(Debug, Clone, Copy, PartialEq, Eq, Structural)]
pub enum CodecError {
    CapacityError,
    EmptyMessageError,
    TruncatedDataError,
    NonAsciiDecodeError,
}

/// True when the least-significant bit of `b` is set.
pub open spec fn lsb_set(b: u8) -> bool {
    b & 1 == 1
}

/// Bit `i` of `c`, where bit 0 is the most significant of the eight.
pub open spec fn bit_at_spec(c: u8, i: int) -> u8 {
    (c >> ((7 - i) as usize)) & 1
}

/// True when bit `i` of `c` is set, bit 0 being the most significant.
pub open spec fn bit_set_at_spec(c: u8, i: int) -> bool {
    bit_at_spec(c, i) == 1
}

/// The pixel byte `p` with its least-significant bit forced to `bit` and
/// every other bit unchanged.
pub open spec fn with_lsb(p: u8, bit: bool) -> u8 {
    if bit {
        p | 1
    } else {
        p & 0xfe
    }
}

/// The byte value recovered from one chunk of eight carrier bytes: the
/// least-significant bit of byte `i` contributes bit `7 - i` of the value,
/// so byte 0 carries the most significant bit.  The eight contributions
/// occupy distinct bits, so their sum is the OR of them all.
pub open spec fn decoded_byte(s: Seq<u8>) -> u8
    recommends
        s.len() >= 8,
{
    ((if lsb_set(s[0]) {
        128int
    } else {
        0int
    }) + (if lsb_set(s[1]) {
        64int
    } else {
        0int
    }) + (if lsb_set(s[2]) {
        32int
    } else {
        0int
    }) + (if lsb_set(s[3]) {
        16int
    } else {
        0int
    }) + (if lsb_set(s[4]) {
        8int
    } else {
        0int
    }) + (if lsb_set(s[5]) {
        4int
    } else {
        0int
    }) + (if lsb_set(s[6]) {
        2int
    } else {
        0int
    }) + (if lsb_set(s[7]) {
        1int
    } else {
        0int
    })) as u8
}

/// Byte `k` of the embedded stream: character `k` of the message, or the
/// terminator 0 just after the last character.
pub open spec fn message_byte(m: Seq<char>, k: int) -> u8
    recommends
        0 <= k <= m.len(),
{
    if k < m.len() {
        m[k] as u8
    } else {
        0
    }
}

/// Encoding is possible exactly when the message and its terminator, at
/// eight carrier bytes each, fit between `start` and the end of the data.
pub open spec fn encode_capacity_ok(msg_len: int, data_len: int, start: int) -> bool {
    start <= data_len && (msg_len + 1) * 8 <= data_len - start
}

/// Byte `j` of the encoded output: inside the encoded region the carrier
/// byte's least-significant bit is forced to the embedded bit, everywhere
/// else the byte is copied through unchanged.
pub open spec fn encoded_pixel(m: Seq<char>, data: Seq<u8>, start: int, j: int) -> u8 {
    if start <= j < start + (m.len() + 1) * 8 {
        with_lsb(data[j], bit_set_at_spec(message_byte(m, (j - start) / 8), (j - start) % 8))
    } else {
        data[j]
    }
}

/// The whole encoded output, byte for byte, same length as the input.
pub open spec fn encode_spec(m: Seq<char>, data: Seq<u8>, start: int) -> Seq<u8> {
    Seq::new(data.len(), |j: int| encoded_pixel(m, data, start, j))
}

/// The result of decoding a stream of carrier bytes, chunk of eight by
/// chunk of eight: a terminator chunk ends the message, a chunk that
/// decodes above 127 is not ASCII, and running out of bytes before a
/// terminator is a truncation.
pub open spec fn decode_spec(s: Seq<u8>) -> Result<Seq<char>, CodecError>
    decreases s.len(),
{
    if s.len() < 8 {
        Err(CodecError::TruncatedDataError)
    } else {
        let c = decoded_byte(s);
        if c > 127 {
            Err(CodecError::NonAsciiDecodeError)
        } else if c == 0 {
            Ok(Seq::empty())
        } else {
            match decode_spec(s.skip(8)) {
                Ok(rest) => Ok(seq![c as char] + rest),
                Err(e) => Err(e),
            }
        }
    }
}

/// Whether the least-significant bit of `byte` is set.
pub fn lsb(byte: u8) -> (r: bool)
    ensures
        r == lsb_set(byte),
{
    (byte & 1) == 1
}

/// Bit `position` of `c` as 0 or 1, bit 0 being the most significant.
pub fn bit_at(c: u8, position: usize) -> (r: u8)
    requires
        position < 8,
    ensures
        r == bit_at_spec(c, position as int),
{
    (c >> (7 - position)) & 1
}

/// Whether bit `position` of `c` is set, bit 0 being the most significant.
pub fn bit_set_at(c: u8, position: usize) -> (r: bool)
    requires
        position < 8,
    ensures
        r == bit_set_at_spec(c, position as int),
{
    bit_at(c, position) == 1
}

/// Embeds the eight bits of `c` into the least-significant bits of the
/// eight carrier bytes, most significant bit first; all other bits of the
/// carrier bytes are preserved.
pub fn encode_character(c: u8, bytes: &[u8]) -> (r: Vec<u8>)
    requires
        bytes@.len() == 8,
    ensures
        r@.len() == 8,
        forall|i: int| 0 <= i < 8 ==> r@[i] == with_lsb(bytes@[i], bit_set_at_spec(c, i)),
{
    let mut ret: Vec<u8> = Vec::new();
    let mut i: usize = 0;
    while i < 8
        invariant
            i <= 8,
            bytes@.len() == 8,
            ret@.len() == i,
            forall|x: int| 0 <= x < i ==> ret@[x] == with_lsb(bytes@[x], bit_set_at_spec(c, x)),
        decreases 8 - i,
    {
        if bit_set_at(c, i) {
            ret.push(bytes[i] | 1);
        } else {
            ret.push(bytes[i] & 0xfe);
        }
        i = i + 1;
    }
    ret
}

/// Embeds `message` into the least-significant bits of `pixels`, starting
/// at `start_offset`: eight carrier bytes per character, most significant
/// bit first, then one all-zero terminator character.  Bytes before the
/// offset and after the encoded region are copied through unchanged, so
/// the output has the same length as the input.  An empty message is
/// rejected, as is a message that does not fit together with its
/// terminator.
pub fn encode_message(message: &str, pixels: &[u8], start_offset: usize) -> (r: Result<
    Vec<u8>,
    CodecError,
>)
    requires
        vstd::string::is_ascii(message),
    ensures
        match r {
            Ok(out) => {
                &&& message@.len() > 0
                &&& encode_capacity_ok(
                    message@.len() as int,
                    pixels@.len() as int,
                    start_offset as int,
                )
                &&& out@ == encode_spec(message@, pixels@, start_offset as int)
            },
            Err(e) => (message@.len() == 0 && e == CodecError::EmptyMessageError) || (
            message@.len() > 0 && !encode_capacity_ok(
                message@.len() as int,
                pixels@.len() as int,
                start_offset as int,
            ) && e == CodecError::CapacityError),
        },
{
    let ghost m = message@;
    let ghost s = pixels@;
    let mbytes = message.as_bytes();
    let mlen = mbytes.len();
    proof {
        assert(mlen == m.len());
    }
    if mlen == 0 {
        return Err(CodecError::EmptyMessageError);
    }
    if start_offset > pixels.len() {
        return Err(CodecError::CapacityError);
    }
    let avail = pixels.len() - start_offset;
    let chunks = avail / 8;
    proof {
        assert(((mlen + 1) * 8 <= avail) == (mlen + 1 <= avail / 8)) by (nonlinear_arith)
            requires
                avail >= 0,
                mlen >= 0,
        ;
    }
    if mlen >= chunks {
        return Err(CodecError::CapacityError);
    }
    let nchunks = mlen + 1;
    let region_end = start_offset + nchunks * 8;
    let mut out: Vec<u8> = Vec::new();
    let mut j: usize = 0;
    while j < start_offset
        invariant
            j <= start_offset <= s.len(),
            s == pixels@,
            out@.len() == j,
            forall|x: int| 0 <= x < j ==> out@[x] == encoded_pixel(m, s, start_offset as int, x),
        decreases start_offset - j,
    {
        out.push(pixels[j]);
        j = j + 1;
    }
    let mut k: usize = 0;
    while k < nchunks
        invariant
            0 <= k <= nchunks,
            nchunks == mlen + 1,
            mlen == m.len(),
            s.len() <= usize::MAX,
            vstd::string::is_ascii(message),
            mbytes@.len() == mlen,
            forall|x: int| 0 <= x < mlen ==> mbytes@[x] == m[x] as u8,
            start_offset + (mlen + 1) * 8 <= s.len(),
            s == pixels@,
            out@.len() == start_offset + k * 8,
            forall|x: int|
                0 <= x < out@.len() ==> out@[x] == encoded_pixel(m, s, start_offset as int, x),
        decreases mlen + 1 - k,
    {
        let c: u8 = if k < mlen {
            mbytes[k]
        } else {
            0
        };
        proof {
            assert(k * 8 + 8 <= (mlen + 1) * 8) by (nonlinear_arith)
                requires
                    k < mlen + 1,
            ;
            assert(c == message_byte(m, k as int));
        }
        let base = start_offset + k * 8;
        let mut i: usize = 0;
        while i < 8
            invariant
                0 <= i <= 8,
                0 <= k <= mlen,
                mlen == m.len(),
                base == start_offset + k * 8,
                base + 8 <= s.len(),
                s.len() <= usize::MAX,
                s == pixels@,
                c == message_byte(m, k as int),
                out@.len() == base + i,
                forall|x: int|
                    0 <= x < out@.len() ==> out@[x] == encoded_pixel(m, s, start_offset as int, x),
            decreases 8 - i,
        {
            let p = pixels[base + i];
            let e: u8 = if bit_set_at(c, i) {
                p | 1
            } else {
                p & 0xfe
            };
            proof {
                let x = base + i;
                assert((x - start_offset) / 8 == k && (x - start_offset) % 8 == i)
                    by (nonlinear_arith)
                    requires
                        x == start_offset + k * 8 + i,
                        0 <= i < 8,
                        0 <= k,
                        0 <= start_offset,
                ;
                assert(start_offset <= x < start_offset + (m.len() + 1) * 8);
                assert(e == encoded_pixel(m, s, start_offset as int, x as int));
            }
            out.push(e);
            i = i + 1;
        }
        k = k + 1;
    }
    proof {
        assert(out@.len() == start_offset + (mlen + 1) * 8);
    }
    let mut j2: usize = region_end;
    while j2 < pixels.len()
        invariant
            region_end <= j2 <= s.len(),
            region_end == start_offset + (m.len() + 1) * 8,
            s == pixels@,
            out@.len() == j2,
            forall|x: int|
                0 <= x < out@.len() ==> out@[x] == encoded_pixel(m, s, start_offset as int, x),
        decreases s.len() - j2,
    {
        out.push(pixels[j2]);
        j2 = j2 + 1;
    }
    proof {
        assert(out@ =~= encode_spec(m, s, start_offset as int));
    }
    Ok(out)
}

/// Recovers one byte value from a chunk of exactly eight carrier bytes by
/// assembling their least-significant bits, byte 0 giving the most
/// significant bit.
pub fn decode_character(bytes: &[u8]) -> (c: u8)
    requires
        bytes@.len() == 8,
    ensures
        c == decoded_byte(bytes@),
{
    let mut character: u8 = 0;
    if lsb(bytes[0]) {
        character = character + 128;
    }
    if lsb(bytes[1]) {
        character = character + 64;
    }
    if lsb(bytes[2]) {
        character = character + 32;
    }
    if lsb(bytes[3]) {
        character = character + 16;
    }
    if lsb(bytes[4]) {
        character = character + 8;
    }
    if lsb(bytes[5]) {
        character = character + 4;
    }
    if lsb(bytes[6]) {
        character = character + 2;
    }
    if lsb(bytes[7]) {
        character = character + 1;
    }
    character
}

/// Relies on String::from_utf8: ASCII bytes are valid UTF-8 and decode to
/// the characters with the same code points, one per byte.
#[verifier::external_body]
fn ascii_bytes_to_string(bytes: Vec<u8>) -> (r: String)
    requires
        forall|i: int| 0 <= i < bytes@.len() ==> bytes@[i] < 128,
    ensures
        r@ == bytes@.map_values(|b: u8| b as char),
{
    String::from_utf8(bytes).unwrap_or_default()
}

/// Extracts the message embedded in `pixels`, which must start at the
/// first pixel-data byte: chunks of eight bytes are decoded until a
/// terminator chunk ends the message; bytes after the terminator are
/// ignored.  A value above 127 stops decoding as non-ASCII, and running
/// out of bytes before a terminator is reported as truncation.
pub fn decode_message(pixels: &[u8]) -> (r: Result<String, CodecError>)
    ensures
        match r {
            Ok(out) => decode_spec(pixels@) matches Ok(m) && out@ == m,
            Err(e) => decode_spec(pixels@) matches Err(e2) && e == e2,
        },
{
    let ghost s = pixels@;
    let mut pos: usize = 0;
    let mut acc: Vec<u8> = Vec::new();
    proof {
        assert(s.skip(0) =~= s);
        assert(acc@.map_values(|b: u8| b as char) =~= Seq::<char>::empty());
        match decode_spec(s) {
            Ok(rest) => {
                assert(Seq::<char>::empty() + rest =~= rest);
            },
            Err(e) => {},
        }
    }
    loop
        invariant
            pos <= s.len(),
            s == pixels@,
            forall|i: int| 0 <= i < acc@.len() ==> 1 <= #[trigger] acc@[i] < 128,
            decode_spec(s) == (match decode_spec(s.skip(pos as int)) {
                Ok(rest) => Ok(acc@.map_values(|b: u8| b as char) + rest),
                Err(e) => Err(e),
            }),
        decreases s.len() - pos,
    {
        if pixels.len() - pos < 8 {
            return Err(CodecError::TruncatedDataError);
        }
        let chunk = &pixels[pos..pos + 8];
        let c = decode_character(chunk);
        proof {
            assert(decoded_byte(chunk@) == decoded_byte(s.skip(pos as int)));
        }
        if c > 127 {
            return Err(CodecError::NonAsciiDecodeError);
        }
        if c == 0 {
            proof {
                assert(acc@.map_values(|b: u8| b as char) + Seq::<char>::empty() =~= acc@.map_values(
                    |b: u8| b as char,
                ));
            }
            return Ok(ascii_bytes_to_string(acc));
        }
        proof {
            assert(s.skip(pos as int).skip(8) =~= s.skip(pos + 8));
            let accm = acc@.map_values(|b: u8| b as char);
            let accm2 = acc@.push(c).map_values(|b: u8| b as char);
            assert(accm2 =~= accm + seq![c as char]);
            match decode_spec(s.skip(pos + 8)) {
                Ok(rest) => {
                    assert(accm + (seq![c as char] + rest) =~= accm2 + rest);
                },
                Err(e) => {},
            }
        }
        acc.push(c);
        pos = pos + 8;
    }
}

/// Forcing the least-significant bit of a byte and reading it back gives
/// the bit that was written.
proof fn lemma_with_lsb_reads_back(p: u8, bit: bool)
    ensures
        lsb_set(with_lsb(p, bit)) == bit,
{
    if bit {
        assert((p | 1) & 1 == 1) by (bit_vector);
    } else {
        assert((p & 0xfe) & 1 == 0) by (bit_vector);
    }
}

/// A chunk whose least-significant bits spell the bits of `c`, most
/// significant first, decodes to `c`.
proof fn lemma_decoded_byte_of_bits(c: u8, s: Seq<u8>)
    requires
        s.len() >= 8,
        forall|i: int| 0 <= i < 8 ==> lsb_set(#[trigger] s[i]) == bit_set_at_spec(c, i),
    ensures
        decoded_byte(s) == c,
{
    assert(lsb_set(s[0]) == ((c >> 7usize) & 1 == 1));
    assert(lsb_set(s[1]) == ((c >> 6usize) & 1 == 1));
    assert(lsb_set(s[2]) == ((c >> 5usize) & 1 == 1));
    assert(lsb_set(s[3]) == ((c >> 4usize) & 1 == 1));
    assert(lsb_set(s[4]) == ((c >> 3usize) & 1 == 1));
    assert(lsb_set(s[5]) == ((c >> 2usize) & 1 == 1));
    assert(lsb_set(s[6]) == ((c >> 1usize) & 1 == 1));
    assert(lsb_set(s[7]) == ((c >> 0usize) & 1 == 1));
    assert(((if (c >> 7usize) & 1 == 1 {
        128int
    } else {
        0int
    }) + (if (c >> 6usize) & 1 == 1 {
        64int
    } else {
        0int
    }) + (if (c >> 5usize) & 1 == 1 {
        32int
    } else {
        0int
    }) + (if (c >> 4usize) & 1 == 1 {
        16int
    } else {
        0int
    }) + (if (c >> 3usize) & 1 == 1 {
        8int
    } else {
        0int
    }) + (if (c >> 2usize) & 1 == 1 {
        4int
    } else {
        0int
    }) + (if (c >> 1usize) & 1 == 1 {
        2int
    } else {
        0int
    }) + (if (c >> 0usize) & 1 == 1 {
        1int
    } else {
        0int
    })) == c) by (bit_vector);
}

/// An ASCII character's byte value is its code point, and casting that
/// byte back gives the same character.
proof fn lemma_ascii_char_casts(ch: char)
    requires
        ch as u32 <= 127,
    ensures
        ch as u8 == ch as u32 as u8,
        ch as u8 as char == ch,
{
}

/// Law: round trip.  For any ASCII message without the terminator value
/// and any carrier whose pixel region can hold the message and its
/// terminator, decoding the encoded buffer from the start offset yields
/// the message again, whatever the carrier bytes held before or hold
/// after the encoded region.
pub proof fn lemma_encode_decode_round_trip(m: Seq<char>, data: Seq<u8>, start: int)
    requires
        forall|k: int| 0 <= k < m.len() ==> 1 <= (#[trigger] m[k]) as u32 <= 127,
        0 <= start,
        encode_capacity_ok(m.len() as int, data.len() as int, start),
    ensures
        decode_spec(encode_spec(m, data, start).skip(start)) == Ok::<Seq<char>, CodecError>(m),
    decreases m.len(),
{
    let e = encode_spec(m, data, start);
    let t = e.skip(start);
    assert(8 <= (m.len() + 1) * 8) by (nonlinear_arith)
        requires
            m.len() >= 0,
    ;
    let c0 = message_byte(m, 0);
    assert forall|i: int| 0 <= i < 8 implies lsb_set(#[trigger] t[i]) == bit_set_at_spec(
        c0,
        i,
    ) by {
        assert(i / 8 == 0 && i % 8 == i) by (nonlinear_arith)
            requires
                0 <= i < 8,
        ;
        assert(t[i] == encoded_pixel(m, data, start, start + i));
        lemma_with_lsb_reads_back(data[start + i], bit_set_at_spec(c0, i));
    }
    lemma_decoded_byte_of_bits(c0, t);
    if m.len() == 0 {
        assert(decode_spec(t) == Ok::<Seq<char>, CodecError>(Seq::<char>::empty()));
        assert(m =~= Seq::<char>::empty());
    } else {
        lemma_ascii_char_casts(m[0]);
        assert(1 <= c0 <= 127);
        let m2 = m.skip(1);
        let t2 = encode_spec(m2, data, start + 8).skip(start + 8);
        assert forall|x: int| 0 <= x < t.len() - 8 implies t.skip(8)[x] == t2[x] by {
            assert((8 + x) / 8 == x / 8 + 1 && (8 + x) % 8 == x % 8) by (nonlinear_arith)
                requires
                    x >= 0,
            ;
            assert(t.skip(8)[x] == encoded_pixel(m, data, start, start + 8 + x));
            assert(t2[x] == encoded_pixel(m2, data, start + 8, start + 8 + x));
            assert((m2.len() + 1) * 8 == (m.len() + 1) * 8 - 8) by (nonlinear_arith)
                requires
                    m2.len() == m.len() - 1,
            ;
            if x < (m2.len() + 1) * 8 {
                assert(message_byte(m, x / 8 + 1) == message_byte(m2, x / 8));
            }
        }
        assert(t.skip(8) =~= t2);
        assert((m2.len() + 1) * 8 <= data.len() - (start + 8)) by (nonlinear_arith)
            requires
                m2.len() == m.len() - 1,
                (m.len() + 1) * 8 <= data.len() - start,
        ;
        lemma_encode_decode_round_trip(m2, data, start + 8);
        assert(decode_spec(t) == Ok::<Seq<char>, CodecError>(seq![c0 as char] + m2));
        assert(c0 as char == m[0]);
        assert(seq![c0 as char] + m2 =~= m);
    }
}

/// Law: a successful decode reads only the chunks up to and including the
/// terminator, so appending arbitrary trailing bytes changes nothing.
pub proof fn lemma_decode_ignores_trailing(s: Seq<u8>, extra: Seq<u8>, m: Seq<char>)
    requires
        decode_spec(s) == Ok::<Seq<char>, CodecError>(m),
    ensures
        decode_spec(s + extra) == Ok::<Seq<char>, CodecError>(m),
    decreases s.len(),
{
    let u = s + extra;
    assert(s.len() >= 8);
    assert(u.len() >= 8);
    assert(decoded_byte(u) == decoded_byte(s));
    let c = decoded_byte(s);
    if c == 0 {
    } else {
        let rest = decode_spec(s.skip(8)) ->Ok_0;
        assert(decode_spec(s.skip(8)) == Ok::<Seq<char>, CodecError>(rest));
        assert(m == seq![c as char] + rest);
        assert(u.skip(8) =~= s.skip(8) + extra);
        lemma_decode_ignores_trailing(s.skip(8), extra, rest);
    }
}

/// Law: the encoded output agrees with the input on every byte before the
/// start offset and on every byte past the encoded region; only the
/// region's least-significant bits are touched.
pub proof fn lemma_encode_untouched_outside_region(m: Seq<char>, data: Seq<u8>, start: int, j: int)
    requires
        0 <= j < data.len(),
        !(start <= j < start + (m.len() + 1) * 8),
    ensures
        encode_spec(m, data, start)[j] == data[j],
{
}

/// Law: capacity boundary.  A message of length `k` fits in a pixel
/// region of exactly `(k + 1) * 8` bytes, and fails to fit in a region
/// one byte shorter.
pub proof fn lemma_capacity_boundary(k: int, data_len: int, start: int)
    requires
        0 <= k,
        0 <= start <= data_len,
    ensures
        data_len - start == (k + 1) * 8 ==> encode_capacity_ok(k, data_len, start),
        data_len - start == (k + 1) * 8 - 1 ==> !encode_capacity_ok(k, data_len, start),
{
}

} // verus!
