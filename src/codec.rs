//! Writing a message into the low bits of PCM samples and reading it back.

use vstd::prelude::*;
use vstd::arithmetic::div_mod::lemma_fundamental_div_mod_converse;

use crate::bit_iterator::{bit_of, bit_stream, BitIterator};
use crate::prefix_function::{is_smallest_period, period};
use crate::text::{char_prefix, payload_text, payload_text_of};

verus! {

/// Decoding assembles at most this many bytes, however long the audio.
pub const MAX_DECODED_BYTES: usize = 10000;

/// Why an encode or decode call was refused.
#[derive(Debug, Clone, Copy, PartialEq, Eq)]
pub enum CodecError {
    /// The payload width is outside `1..=8`.
    InvalidBitWidth,
}

/// The low byte of each sample.
pub open spec fn low_bytes(s: Seq<i16>) -> Seq<u8> {
    s.map_values(|x: i16| x as u8)
}

/// Bit `i` of `x` is `bits[i]`, for `i` in `0..8`.
pub open spec fn has_bits(x: u8, bits: Seq<bool>) -> bool {
    forall|i: int| 0 <= i < 8 ==> #[trigger] bit_of(x, i) == bits[i]
}

/// The byte whose bit `i` is `bits[i]`, for `i` in `0..8`.
pub open spec fn byte_from_bits(bits: Seq<bool>) -> u8 {
    choose|x: u8| has_bits(x, bits)
}

/// Number of bytes decoding assembles from `sample_count` samples carrying
/// `width` bits each.
pub open spec fn assembled_len(sample_count: nat, width: nat) -> nat {
    let whole = sample_count * width / 8;
    if whole < MAX_DECODED_BYTES {
        whole
    } else {
        MAX_DECODED_BYTES as nat
    }
}

/// The bytes read out of the `width` low bits of the samples, eight stream
/// bits to a byte, least significant first; a trailing partial byte is dropped.
pub open spec fn assembled_bytes(s: Seq<i16>, width: nat) -> Seq<u8> {
    let stream = bit_stream(low_bytes(s), width);
    Seq::new(
        assembled_len(s.len(), width),
        |j: int| byte_from_bits(stream.subrange(8 * j, 8 * j + 8)),
    )
}

/// A smallest period of a non-empty text; 0 for the empty text.
pub open spec fn smallest_period(s: Seq<char>) -> int {
    if s.len() == 0 {
        0
    } else {
        choose|p: int| is_smallest_period(s, p)
    }
}

/// The message that decoding finds in the samples.
pub open spec fn decoded_message(s: Seq<i16>, width: nat, repeat: bool) -> Seq<char> {
    let text = payload_text(assembled_bytes(s, width));
    if repeat {
        text.take(smallest_period(text))
    } else {
        text
    }
}

proof fn lemma_bit_or(x: u8, i: int, j: int)
    requires
        0 <= i < 8,
        0 <= j < 8,
    ensures
        bit_of(x | (1u8 << (i as u8)), j) == (i == j || bit_of(x, j)),
{
    let a = i as u8;
    let b = j as u8;
    assert(((x | (1u8 << a)) >> b) & 1u8 == 1u8 <==> (a == b || (x >> b) & 1u8 == 1u8))
        by (bit_vector)
        requires
            a < 8,
            b < 8,
    ;
}

proof fn lemma_bits_zero(j: int)
    requires
        0 <= j < 8,
    ensures
        !bit_of(0u8, j),
{
    let b = j as u8;
    assert((0u8 >> b) & 1u8 == 0u8) by (bit_vector);
}

/// A byte is fixed by its eight bits.
pub proof fn lemma_byte_from_bits(x: u8, bits: Seq<bool>)
    requires
        has_bits(x, bits),
    ensures
        byte_from_bits(bits) == x,
{
    let y = byte_from_bits(bits);
    assert(has_bits(y, bits));
    assert(bit_of(x, 0) == bit_of(y, 0));
    assert(bit_of(x, 1) == bit_of(y, 1));
    assert(bit_of(x, 2) == bit_of(y, 2));
    assert(bit_of(x, 3) == bit_of(y, 3));
    assert(bit_of(x, 4) == bit_of(y, 4));
    assert(bit_of(x, 5) == bit_of(y, 5));
    assert(bit_of(x, 6) == bit_of(y, 6));
    assert(bit_of(x, 7) == bit_of(y, 7));
    assert(x == y) by (bit_vector)
        requires
            ((x >> 0u8) & 1u8 == 1u8) == ((y >> 0u8) & 1u8 == 1u8),
            ((x >> 1u8) & 1u8 == 1u8) == ((y >> 1u8) & 1u8 == 1u8),
            ((x >> 2u8) & 1u8 == 1u8) == ((y >> 2u8) & 1u8 == 1u8),
            ((x >> 3u8) & 1u8 == 1u8) == ((y >> 3u8) & 1u8 == 1u8),
            ((x >> 4u8) & 1u8 == 1u8) == ((y >> 4u8) & 1u8 == 1u8),
            ((x >> 5u8) & 1u8 == 1u8) == ((y >> 5u8) & 1u8 == 1u8),
            ((x >> 6u8) & 1u8 == 1u8) == ((y >> 6u8) & 1u8 == 1u8),
            ((x >> 7u8) & 1u8 == 1u8) == ((y >> 7u8) & 1u8 == 1u8),
    ;
}

/// The bytes that decoding reads out of the `bits` low bits of the samples:
/// eight bits to a byte, least significant first, a trailing partial byte
/// dropped, and never more than `MAX_DECODED_BYTES` of them.
pub fn assemble_bytes(samples: &[i16], bits: u8) -> (r: Vec<u8>)
    requires
        1 <= bits <= 8,
    ensures
        r@ == assembled_bytes(samples@, bits as nat),
        r@.len() <= MAX_DECODED_BYTES,
{
    let mut low: Vec<u8> = Vec::new();
    for k in 0..samples.len()
        invariant
            low@ == low_bytes(samples@).take(k as int),
    {
        low.push(#[verifier::truncate] (samples[k] as u8));
        assert(low@ =~= low_bytes(samples@).take(k + 1));
    }
    assert(low@ =~= low_bytes(samples@));
    let mut it = BitIterator::new(low, bits);
    let ghost stream = it.stream();
    let ghost total = assembled_len(samples@.len(), bits as nat);
    let mut out: Vec<u8> = Vec::new();
    let mut done = false;
    while !done
        invariant
            it.wf(),
            !it.cycle,
            it.stream() == stream,
            stream == bit_stream(low_bytes(samples@), bits as nat),
            stream.len() == samples@.len() * bits,
            total == assembled_len(samples@.len(), bits as nat),
            out@.len() <= total,
            forall|j: int, i: int|
                0 <= j < out@.len() && 0 <= i < 8 ==> #[trigger] bit_of(out@[j], i) == stream[8 * j
                    + i],
            !done ==> it.consumed() == 8 * out@.len() && out@.len() < MAX_DECODED_BYTES,
            done ==> out@.len() == total,
        decreases MAX_DECODED_BYTES - out@.len() + (if done {
            0int
        } else {
            1int
        }),
    {
        let mut byte: u8 = 0;
        let mut i: u8 = 0;
        let mut ended = false;
        let ghost base = 8 * out@.len();
        proof {
            assert forall|p: int| 0 <= p < 8 implies !#[trigger] bit_of(byte, p) by {
                lemma_bits_zero(p);
            }
        }
        while i < 8 && !ended
            invariant
                it.wf(),
                !it.cycle,
                it.stream() == stream,
                base == 8 * out@.len(),
                i <= 8,
                forall|p: int| 0 <= p < i ==> #[trigger] bit_of(byte, p) == stream[base + p],
                forall|p: int| i <= p < 8 ==> !#[trigger] bit_of(byte, p),
                !ended ==> it.consumed() == base + i,
                ended ==> base + i == stream.len() && i < 8,
            decreases 8 - i + (if ended {
                0int
            } else {
                1int
            }),
        {
            proof {
                it.lemma_consumed_bound();
            }
            match it.next() {
                None => {
                    ended = true;
                },
                Some(bit) => {
                    if bit {
                        proof {
                            assert forall|p: int| 0 <= p < 8 implies #[trigger] bit_of(
                                byte | (1u8 << i),
                                p,
                            ) == (p == i || bit_of(byte, p)) by {
                                lemma_bit_or(byte, i as int, p);
                            }
                        }
                        byte = byte | (1u8 << i);
                    }
                    i = i + 1;
                },
            }
        }
        if ended {
            done = true;
            proof {
                assert(stream.len() / 8 == out@.len()) by (nonlinear_arith)
                    requires
                        stream.len() == 8 * out@.len() + i,
                        i < 8,
                ;
            }
        } else {
            proof {
                it.lemma_consumed_bound();
                assert(out@.len() + 1 <= stream.len() / 8) by (nonlinear_arith)
                    requires
                        8 * out@.len() + 8 <= stream.len(),
                ;
            }
            out.push(byte);
            if out.len() >= MAX_DECODED_BYTES {
                done = true;
            }
        }
    }
    proof {
        assert forall|j: int| 0 <= j < out@.len() implies out@[j] == #[trigger] assembled_bytes(
            samples@,
            bits as nat,
        )[j] by {
            let chunk = stream.subrange(8 * j, 8 * j + 8);
            assert forall|i: int| 0 <= i < 8 implies #[trigger] bit_of(out@[j], i) == chunk[i] by {
                assert(bit_of(out@[j], i) == stream[8 * j + i]);
            }
            lemma_byte_from_bits(out@[j], chunk);
        }
        assert(out@ =~= assembled_bytes(samples@, bits as nat));
    }
    out
}

/// Reads a message out of the `bits` low bits of each sample: the bytes that
/// `assemble_bytes` gives, decoded as UTF-8 up to the first malformed
/// sequence or replacement character. With `repeat`, the text is cut to one
/// smallest period of it, so that a message written over and over comes back
/// once.
pub fn decode(samples: &[i16], bits: u8, repeat: bool) -> (r: Result<String, CodecError>)
    ensures
        !(1 <= bits <= 8) ==> r == Err::<String, CodecError>(CodecError::InvalidBitWidth),
        1 <= bits <= 8 ==> (r matches Ok(s) && s@ == decoded_message(samples@, bits as nat, repeat)),
{
    if bits < 1 || bits > 8 {
        return Err(CodecError::InvalidBitWidth);
    }
    let bytes = assemble_bytes(samples, bits);
    let text = payload_text_of(bytes.as_slice());
    if repeat {
        let p = period(&text);
        proof {
            if text@.len() > 0 {
                let c = smallest_period(text@);
                assert(is_smallest_period(text@, c));
                if c < p {
                    assert(!is_smallest_period(text@, p as int));
                }
                if p < c {
                    assert(!is_smallest_period(text@, c));
                }
            }
        }
        Ok(char_prefix(&text, p))
    } else {
        Ok(text)
    }
}

/// Bit `p` of a sample's 16-bit pattern, counted from the least significant end.
pub open spec fn sample_bit(x: i16, p: int) -> bool {
    ((x as u16) >> (p as u16)) & 1u16 == 1u16
}

/// Bit `p` of a `u16`, counted from the least significant end.
pub open spec fn word_bit(x: u16, p: int) -> bool {
    (x >> (p as u16)) & 1u16 == 1u16
}

/// Encoding writes message bit `t` (counted over all samples, `width` bits
/// to a sample): always while the message is not empty when it repeats, else
/// only inside the message.
pub open spec fn is_written(message_bits: nat, repeat: bool, t: int) -> bool {
    if repeat {
        message_bits > 0
    } else {
        t < message_bits
    }
}

/// Bit `p` of sample `k` after encoding `m` into `s` with `width` bits per
/// sample: the message bit that lands there, or the sample's own bit.
pub open spec fn encoded_bit(s: Seq<i16>, m: Seq<u8>, width: nat, repeat: bool, k: int, p: int) -> bool {
    let ms = bit_stream(m, 8);
    let t = k * width + p;
    if p < width && is_written(ms.len(), repeat, t) {
        ms[t % ms.len() as int]
    } else {
        sample_bit(s[k], p)
    }
}

/// Bit `p` of `x` is `encoded_bit(s, m, width, repeat, k, p)`, for `p` in `0..16`.
pub open spec fn is_encoded_sample(x: i16, s: Seq<i16>, m: Seq<u8>, width: nat, repeat: bool, k: int) -> bool {
    forall|p: int| 0 <= p < 16 ==> #[trigger] sample_bit(x, p) == encoded_bit(s, m, width, repeat, k, p)
}

/// The samples after encoding `m` into `s` with `width` bits per sample.
pub open spec fn encoded_samples(s: Seq<i16>, m: Seq<u8>, width: nat, repeat: bool) -> Seq<i16> {
    Seq::new(s.len(), |k: int| choose|x: i16| is_encoded_sample(x, s, m, width, repeat, k))
}

/// A sample is fixed by its sixteen bits.
pub proof fn lemma_sample_from_bits(x: i16, y: i16)
    requires
        forall|p: int| 0 <= p < 16 ==> #[trigger] sample_bit(x, p) == sample_bit(y, p),
    ensures
        x == y,
{
    assert(sample_bit(x, 0) == sample_bit(y, 0));
    assert(sample_bit(x, 1) == sample_bit(y, 1));
    assert(sample_bit(x, 2) == sample_bit(y, 2));
    assert(sample_bit(x, 3) == sample_bit(y, 3));
    assert(sample_bit(x, 4) == sample_bit(y, 4));
    assert(sample_bit(x, 5) == sample_bit(y, 5));
    assert(sample_bit(x, 6) == sample_bit(y, 6));
    assert(sample_bit(x, 7) == sample_bit(y, 7));
    assert(sample_bit(x, 8) == sample_bit(y, 8));
    assert(sample_bit(x, 9) == sample_bit(y, 9));
    assert(sample_bit(x, 10) == sample_bit(y, 10));
    assert(sample_bit(x, 11) == sample_bit(y, 11));
    assert(sample_bit(x, 12) == sample_bit(y, 12));
    assert(sample_bit(x, 13) == sample_bit(y, 13));
    assert(sample_bit(x, 14) == sample_bit(y, 14));
    assert(sample_bit(x, 15) == sample_bit(y, 15));
    let u = x as u16;
    let v = y as u16;
    assert(u == v) by (bit_vector)
        requires
            ((u >> 0u16) & 1u16 == 1u16) == ((v >> 0u16) & 1u16 == 1u16),
            ((u >> 1u16) & 1u16 == 1u16) == ((v >> 1u16) & 1u16 == 1u16),
            ((u >> 2u16) & 1u16 == 1u16) == ((v >> 2u16) & 1u16 == 1u16),
            ((u >> 3u16) & 1u16 == 1u16) == ((v >> 3u16) & 1u16 == 1u16),
            ((u >> 4u16) & 1u16 == 1u16) == ((v >> 4u16) & 1u16 == 1u16),
            ((u >> 5u16) & 1u16 == 1u16) == ((v >> 5u16) & 1u16 == 1u16),
            ((u >> 6u16) & 1u16 == 1u16) == ((v >> 6u16) & 1u16 == 1u16),
            ((u >> 7u16) & 1u16 == 1u16) == ((v >> 7u16) & 1u16 == 1u16),
            ((u >> 8u16) & 1u16 == 1u16) == ((v >> 8u16) & 1u16 == 1u16),
            ((u >> 9u16) & 1u16 == 1u16) == ((v >> 9u16) & 1u16 == 1u16),
            ((u >> 10u16) & 1u16 == 1u16) == ((v >> 10u16) & 1u16 == 1u16),
            ((u >> 11u16) & 1u16 == 1u16) == ((v >> 11u16) & 1u16 == 1u16),
            ((u >> 12u16) & 1u16 == 1u16) == ((v >> 12u16) & 1u16 == 1u16),
            ((u >> 13u16) & 1u16 == 1u16) == ((v >> 13u16) & 1u16 == 1u16),
            ((u >> 14u16) & 1u16 == 1u16) == ((v >> 14u16) & 1u16 == 1u16),
            ((u >> 15u16) & 1u16 == 1u16) == ((v >> 15u16) & 1u16 == 1u16),
    ;
    lemma_word_sample_cast(u, x);
    lemma_word_sample_cast(v, y);
}

/// A sample with the bits that encoding leaves at index `k` is the encoded sample.
pub proof fn lemma_encoded_sample_unique(x: i16, s: Seq<i16>, m: Seq<u8>, width: nat, repeat: bool, k: int)
    requires
        0 <= k < s.len(),
        is_encoded_sample(x, s, m, width, repeat, k),
    ensures
        encoded_samples(s, m, width, repeat)[k] == x,
{
    let y = encoded_samples(s, m, width, repeat)[k];
    assert(is_encoded_sample(y, s, m, width, repeat, k));
    assert forall|p: int| 0 <= p < 16 implies #[trigger] sample_bit(x, p) == sample_bit(y, p) by {
        assert(sample_bit(x, p) == encoded_bit(s, m, width, repeat, k, p));
        assert(sample_bit(y, p) == encoded_bit(s, m, width, repeat, k, p));
    }
    lemma_sample_from_bits(x, y);
}

/// Where a bit iterator over the message stands after handing out `t` bits:
/// a cycling one starts its next pass only when asked for one more bit.
pub open spec fn stream_position(len: nat, repeat: bool, t: int) -> int {
    if repeat && t > 0 {
        (t - 1) % len as int + 1
    } else {
        t
    }
}

pub(crate) proof fn lemma_word_set_clear(x: u16, i: int, p: int)
    requires
        0 <= i < 16,
        0 <= p < 16,
    ensures
        word_bit(x | (1u16 << (i as u16)), p) == (p == i || word_bit(x, p)),
        word_bit(x & !(1u16 << (i as u16)), p) == (p != i && word_bit(x, p)),
{
    let a = i as u16;
    let b = p as u16;
    assert(((x | (1u16 << a)) >> b) & 1u16 == 1u16 <==> (a == b || (x >> b) & 1u16 == 1u16))
        by (bit_vector)
        requires
            a < 16,
            b < 16,
    ;
    assert(((x & !(1u16 << a)) >> b) & 1u16 == 1u16 <==> (a != b && (x >> b) & 1u16 == 1u16))
        by (bit_vector)
        requires
            a < 16,
            b < 16,
    ;
}

pub(crate) proof fn lemma_word_sample_cast(x: u16, y: i16)
    ensures
        (x as i16) as u16 == x,
        (y as u16) as i16 == y,
{
    assert((x as i16) as u16 == x) by (bit_vector);
    assert((y as u16) as i16 == y) by (bit_vector);
}

/// The next position of a bit iterator over the message, and the bit it hands out.
proof fn lemma_stream_step(len: nat, repeat: bool, t: int)
    requires
        len > 0,
        t >= 0,
        repeat || t < len,
    ensures
        0 <= stream_position(len, repeat, t) <= len,
        stream_position(len, repeat, t) < len ==> stream_position(len, repeat, t) == t % len as int,
        stream_position(len, repeat, t) == len ==> t % len as int == 0,
        stream_position(len, repeat, t) < len ==> stream_position(len, repeat, t + 1)
            == stream_position(len, repeat, t) + 1,
        stream_position(len, repeat, t) == len ==> stream_position(len, repeat, t + 1) == 1,
{
    let l = len as int;
    if repeat && t > 0 {
        let q = (t - 1) / l;
        let r = (t - 1) % l;
        vstd::arithmetic::div_mod::lemma_fundamental_div_mod(t - 1, l);
        vstd::arithmetic::div_mod::lemma_mod_bound(t - 1, l);
        assert(t - 1 == q * l + r) by (nonlinear_arith)
            requires
                t - 1 == l * q + r,
        ;
        if r + 1 < l {
            lemma_fundamental_div_mod_converse(t, l, q, r + 1);
        } else {
            assert(t == (q + 1) * l + 0) by (nonlinear_arith)
                requires
                    t - 1 == q * l + r,
                    r + 1 == l,
            ;
            lemma_fundamental_div_mod_converse(t, l, q + 1, 0);
        }
    } else {
        vstd::arithmetic::div_mod::lemma_small_mod(t as nat, len);
    }
}

/// Writes `message` into the `bits` low bits of the samples: message bytes in
/// order, each least significant bit first, samples in order, each from bit 0
/// up. Without `repeat` writing stops where the message ends, even inside a
/// sample, and the rest is left as it was; with `repeat` the message starts
/// over until the samples are used up. Bits at and above `bits` are kept.
pub fn encode(samples: Vec<i16>, message: &[u8], bits: u8, repeat: bool) -> (r: Result<
    Vec<i16>,
    CodecError,
>)
    ensures
        !(1 <= bits <= 8) ==> r == Err::<Vec<i16>, CodecError>(CodecError::InvalidBitWidth),
        1 <= bits <= 8 ==> (r matches Ok(out) && out@.len() == samples@.len() && (forall|
            k: int,
            p: int,
        |
            0 <= k < samples@.len() && 0 <= p < 16 ==> #[trigger] sample_bit(out@[k], p)
                == encoded_bit(samples@, message@, bits as nat, repeat, k, p))
            && out@ == encoded_samples(samples@, message@, bits as nat, repeat)),
{
    if bits < 1 || bits > 8 {
        return Err(CodecError::InvalidBitWidth);
    }
    let ghost s = samples@;
    let ghost b = bits as int;
    let n = samples.len();
    let mut out = samples;
    let source = vstd::slice::slice_to_vec(message);
    let mut it = if repeat {
        BitIterator::cycling(source, 8)
    } else {
        BitIterator::new(source, 8)
    };
    let ghost ms = it.stream();
    let ghost len = ms.len();
    assert(ms == bit_stream(message@, 8));
    let mut k: usize = 0;
    let mut done = false;
    while k < n && !done
        invariant
            it.wf(),
            it.bits == 8,
            it.cycle == repeat,
            it.stream() == ms,
            ms == bit_stream(message@, 8),
            len == ms.len(),
            b == bits as int,
            1 <= bits <= 8,
            n == s.len(),
            out@.len() == n,
            k <= n,
            forall|kk: int, p: int|
                0 <= kk < k && 0 <= p < 16 ==> #[trigger] sample_bit(out@[kk], p) == encoded_bit(
                    s,
                    message@,
                    b as nat,
                    repeat,
                    kk,
                    p,
                ),
            forall|kk: int| k <= kk < n ==> #[trigger] out@[kk] == s[kk],
            !done ==> it.consumed() == stream_position(len, repeat, k * b),
            !done ==> (repeat || k * b <= len),
            !done ==> (len > 0 || k * b == 0),
            done ==> !(repeat && len > 0) && len <= k * b,
        decreases n - k,
    {
        let mut x: u16 = #[verifier::truncate] (out[k] as u16);
        let mut i: u8 = 0;
        proof {
            assert((k + 1) * b == k * b + b) by (nonlinear_arith);
        }
        while i < bits && !done
            invariant
                it.wf(),
                it.bits == 8,
                it.cycle == repeat,
                it.stream() == ms,
                ms == bit_stream(message@, 8),
                len == ms.len(),
                b == bits as int,
                1 <= bits <= 8,
                k < n,
                n == s.len(),
                i <= bits,
                forall|p: int|
                    0 <= p < 16 ==> #[trigger] word_bit(x, p) == if p < i {
                        encoded_bit(s, message@, b as nat, repeat, k as int, p)
                    } else {
                        sample_bit(s[k as int], p)
                    },
                !done ==> it.consumed() == stream_position(len, repeat, k * b + i),
                !done ==> (repeat || k * b + i <= len),
                !done ==> (len > 0 || k * b + i == 0),
                done ==> !(repeat && len > 0) && len == k * b + i,
            decreases bits - i + (if done {
                0int
            } else {
                1int
            }),
        {
            let ghost t = k * b + i;
            proof {
                it.lemma_consumed_bound();
                if len > 0 && (repeat || t < len) {
                    lemma_stream_step(len, repeat, t);
                }
            }
            match it.next() {
                None => {
                    done = true;
                },
                Some(bit) => {
                    proof {
                        assert(is_written(len, repeat, t));
                        assert(bit == ms[t % len as int]);
                        assert forall|p: int| 0 <= p < 16 implies #[trigger] word_bit(
                            x | (1u16 << i as u16),
                            p,
                        ) == (p == i || word_bit(x, p)) && word_bit(x & !(1u16 << i as u16), p) == (
                        p != i && word_bit(x, p)) by {
                            lemma_word_set_clear(x, i as int, p);
                        }
                    }
                    let ghost x0 = x;
                    if bit {
                        x = x | (1u16 << i as u16);
                    } else {
                        x = x & !(1u16 << i as u16);
                    }
                    proof {
                        assert((k as int) * ((b as nat) as int) + i as int == t);
                        assert(encoded_bit(s, message@, b as nat, repeat, k as int, i as int) == bit);
                        assert forall|p: int| 0 <= p < 16 implies #[trigger] word_bit(x, p) == if p
                            < i + 1 {
                            encoded_bit(s, message@, b as nat, repeat, k as int, p)
                        } else {
                            sample_bit(s[k as int], p)
                        } by {
                            lemma_word_set_clear(x0, i as int, p);
                        }
                    }
                    i = i + 1;
                },
            }
        }
        proof {
            lemma_word_sample_cast(x, s[k as int]);
            assert forall|p: int| 0 <= p < 16 implies #[trigger] sample_bit(#[verifier::truncate] (x as i16), p)
                == encoded_bit(s, message@, b as nat, repeat, k as int, p) by {
                assert(word_bit(x, p) == sample_bit(#[verifier::truncate] (x as i16), p));
                if p >= i && p < b {
                    assert(!is_written(len, repeat, k * b + p));
                }
            }
        }
        out.set(k, #[verifier::truncate] (x as i16));
        k = k + 1;
    }
    proof {
        assert forall|kk: int, p: int| 0 <= kk < n && 0 <= p < 16 implies #[trigger] sample_bit(
            out@[kk],
            p,
        ) == encoded_bit(s, message@, b as nat, repeat, kk, p) by {
            if kk >= k {
                assert(kk * b >= k * b) by (nonlinear_arith)
                    requires
                        kk >= k,
                        b >= 1,
                ;
            }
        }
        assert forall|kk: int| 0 <= kk < n implies #[trigger] out@[kk] == encoded_samples(
            s,
            message@,
            b as nat,
            repeat,
        )[kk] by {
            assert(is_encoded_sample(out@[kk], s, message@, b as nat, repeat, kk));
            lemma_encoded_sample_unique(out@[kk], s, message@, b as nat, repeat, kk);
        }
        assert(out@ =~= encoded_samples(s, message@, b as nat, repeat));
    }
    Ok(out)
}

} // verus!
