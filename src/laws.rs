//! What holds across calls: encoding then decoding gives the message back.

use vstd::arithmetic::div_mod::{lemma_fundamental_div_mod, lemma_fundamental_div_mod_converse};
use vstd::prelude::*;
use vstd::utf8::{decode_utf8, encode_utf8, valid_utf8};

use crate::bit_iterator::{bit_of, bit_stream};
use crate::codec::{
    assembled_bytes, assembled_len, decoded_message, encoded_bit, encoded_samples, has_bits,
    is_encoded_sample, is_written, lemma_byte_from_bits, lemma_encoded_sample_unique,
    lemma_word_sample_cast, lemma_word_set_clear, low_bytes, sample_bit, smallest_period,
    word_bit, MAX_DECODED_BYTES,
};
use crate::prefix_function::{is_period, is_smallest_period};
use crate::text::{
    lemma_decode_utf8_concat, lemma_decode_utf8_prefix, lemma_payload_text_after_valid,
    lemma_payload_text_is_byte_prefix, lemma_payload_text_of_valid, lemma_payload_text_prefix,
    lemma_until_replacement_take, payload_text, utf8_prefix_len, REPLACEMENT_CHARACTER,
};

verus! {

/// `x` with bits `0..n` replaced by `f(0), .., f(n - 1)`.
spec fn set_low_bits(x: u16, f: spec_fn(int) -> bool, n: nat) -> u16
    decreases n,
{
    if n == 0 {
        x
    } else {
        let y = set_low_bits(x, f, (n - 1) as nat);
        let mask = 1u16 << ((n - 1) as u16);
        if f(n - 1) {
            y | mask
        } else {
            y & !mask
        }
    }
}

proof fn lemma_set_low_bits(x: u16, f: spec_fn(int) -> bool, n: nat, p: int)
    requires
        n <= 16,
        0 <= p < 16,
    ensures
        word_bit(set_low_bits(x, f, n), p) == if p < n {
            f(p)
        } else {
            word_bit(x, p)
        },
    decreases n,
{
    if n > 0 {
        let y = set_low_bits(x, f, (n - 1) as nat);
        lemma_set_low_bits(x, f, (n - 1) as nat, p);
        lemma_word_set_clear(y, n - 1, p);
    }
}

/// Each encoded sample has the bits that encoding prescribes.
proof fn lemma_encoded_sample_exists(s: Seq<i16>, m: Seq<u8>, width: nat, repeat: bool, k: int)
    requires
        0 <= k < s.len(),
    ensures
        is_encoded_sample(encoded_samples(s, m, width, repeat)[k], s, m, width, repeat, k),
{
    let f = |p: int| encoded_bit(s, m, width, repeat, k, p);
    let w = set_low_bits(0u16, f, 16);
    let x = #[verifier::truncate] (w as i16);
    lemma_word_sample_cast(w, x);
    assert forall|p: int| 0 <= p < 16 implies #[trigger] sample_bit(x, p) == encoded_bit(
        s,
        m,
        width,
        repeat,
        k,
        p,
    ) by {
        lemma_set_low_bits(0u16, f, 16, p);
    }
    assert(is_encoded_sample(x, s, m, width, repeat, k));
}

/// The low byte of a sample has the sample's eight low bits.
proof fn lemma_low_byte_bit(x: i16, p: int)
    requires
        0 <= p < 8,
    ensures
        bit_of(x as u8, p) == sample_bit(x, p),
{
    let a = p as u8;
    let c = p as u16;
    assert((((x as u8) >> a) & 1u8 == 1u8) == (((x as u16) >> c) & 1u16 == 1u16)) by (bit_vector)
        requires
            a < 8,
            c == a as u16,
    ;
}

/// Bit `t` of the stream that decoding reads from encoded samples: the message
/// bit written there, or else the bit of the samples before encoding.
proof fn lemma_encoded_stream_bit(s: Seq<i16>, m: Seq<u8>, width: nat, repeat: bool, t: int)
    requires
        1 <= width <= 8,
        0 <= t < s.len() * width,
    ensures
        bit_stream(low_bytes(encoded_samples(s, m, width, repeat)), width)[t] == if is_written(
            m.len() * 8,
            repeat,
            t,
        ) {
            bit_stream(m, 8)[t % (m.len() * 8) as int]
        } else {
            bit_stream(low_bytes(s), width)[t]
        },
{
    let w = width as int;
    let k = t / w;
    let p = t % w;
    lemma_fundamental_div_mod(t, w);
    vstd::arithmetic::div_mod::lemma_mod_bound(t, w);
    assert(t == k * w + p) by (nonlinear_arith)
        requires
            t == w * k + p,
    ;
    assert(0 <= k < s.len()) by (nonlinear_arith)
        requires
            t == k * w + p,
            0 <= p < w,
            0 <= t < s.len() * w,
            w >= 1,
    ;
    let e = encoded_samples(s, m, width, repeat);
    lemma_encoded_sample_exists(s, m, width, repeat, k);
    assert(sample_bit(e[k], p) == encoded_bit(s, m, width, repeat, k, p));
    lemma_low_byte_bit(e[k], p);
    lemma_low_byte_bit(s[k], p);
    assert(bit_stream(m, 8).len() == m.len() * 8);
}

/// Encoding an empty message without repeating leaves every sample as it was.
pub proof fn lemma_encode_empty_message(s: Seq<i16>, width: nat)
    requires
        1 <= width <= 8,
    ensures
        encoded_samples(s, seq![], width, false) == s,
{
    let e = encoded_samples(s, seq![], width, false);
    assert forall|k: int| 0 <= k < s.len() implies #[trigger] e[k] == s[k] by {
        assert(bit_stream(seq![], 8).len() == 0);
        assert(is_encoded_sample(s[k], s, seq![], width, false, k));
        lemma_encoded_sample_unique(s[k], s, seq![], width, false, k);
    }
    assert(e =~= s);
}

/// Decoding without `repeat` reads text up to the first malformed UTF-8
/// sequence or replacement character: the text holds no replacement character
/// and its UTF-8 bytes are exactly the bytes the samples spell, from the start.
pub proof fn lemma_decode_stops_at_malformed(s: Seq<i16>, width: nat)
    ensures
        forall|i: int|
            0 <= i < decoded_message(s, width, false).len() ==> #[trigger] decoded_message(
                s,
                width,
                false,
            )[i] != REPLACEMENT_CHARACTER,
        encode_utf8(decoded_message(s, width, false)).len() <= assembled_bytes(s, width).len(),
        assembled_bytes(s, width).take(encode_utf8(decoded_message(s, width, false)).len() as int)
            == encode_utf8(decoded_message(s, width, false)),
{
    lemma_payload_text_is_byte_prefix(assembled_bytes(s, width));
}

/// Encoding a message that fits in the samples, without repeating, and
/// decoding with the same width gives back the text of the message: its
/// longest well-formed UTF-8 prefix up to any replacement character. What the
/// untouched samples after it spell may follow; when no whole byte is left
/// over, nothing does.
pub proof fn lemma_round_trip(s: Seq<i16>, m: Seq<u8>, width: nat)
    requires
        1 <= width <= 8,
        m.len() * 8 <= s.len() * width,
        m.len() <= MAX_DECODED_BYTES,
    ensures
        payload_text(m).len() <= decoded_message(encoded_samples(s, m, width, false), width, false).len(),
        decoded_message(encoded_samples(s, m, width, false), width, false).take(
            payload_text(m).len() as int,
        ) == payload_text(m),
        assembled_len(s.len(), width) == m.len() ==> decoded_message(
            encoded_samples(s, m, width, false),
            width,
            false,
        ) == payload_text(m),
        valid_utf8(m) && (forall|i: int|
            0 <= i < decode_utf8(m).len() ==> #[trigger] decode_utf8(m)[i] != REPLACEMENT_CHARACTER)
            ==> payload_text(m) == decode_utf8(m),
{
    let e = encoded_samples(s, m, width, false);
    let d = assembled_bytes(e, width);
    let stream = bit_stream(low_bytes(e), width);
    let n = m.len() as int;
    assert(n <= (s.len() * width) / 8) by {
        vstd::arithmetic::div_mod::lemma_div_is_ordered((n * 8) as int, (s.len() * width) as int, 8);
        assert((n * 8) / 8 == n);
    }
    assert(n <= d.len());
    assert forall|j: int| 0 <= j < n implies #[trigger] d[j] == m[j] by {
        let chunk = stream.subrange(8 * j, 8 * j + 8);
        assert forall|i: int| 0 <= i < 8 implies #[trigger] bit_of(m[j], i) == chunk[i] by {
            let t = 8 * j + i;
            lemma_fundamental_div_mod_converse(t, 8, j, i);
            assert(t < s.len() * width);
            lemma_encoded_stream_bit(s, m, width, false, t);
            vstd::arithmetic::div_mod::lemma_small_mod(t as nat, (n * 8) as nat);
        }
        assert(has_bits(m[j], chunk));
        lemma_byte_from_bits(m[j], chunk);
    }
    let rest = d.skip(n);
    assert(d =~= m + rest);
    lemma_payload_text_prefix(m, rest);
    if d.len() == n {
        assert(d =~= m);
    }
    if valid_utf8(m) && (forall|i: int|
        0 <= i < decode_utf8(m).len() ==> #[trigger] decode_utf8(m)[i] != REPLACEMENT_CHARACTER) {
        lemma_payload_text_of_valid(m);
    }
}

/// `x` written `q` times in a row.
pub open spec fn repeat_seq<A>(x: Seq<A>, q: nat) -> Seq<A>
    decreases q,
{
    if q == 0 {
        Seq::empty()
    } else {
        repeat_seq(x, (q - 1) as nat) + x
    }
}

proof fn lemma_repeat_seq_index<A>(x: Seq<A>, q: nat)
    requires
        x.len() > 0,
    ensures
        repeat_seq(x, q).len() == q * x.len(),
        forall|i: int| 0 <= i < q * x.len() ==> #[trigger] repeat_seq(x, q)[i] == x[i % x.len() as int],
    decreases q,
{
    if q > 0 {
        let l = x.len() as int;
        let p = (q - 1) as nat;
        lemma_repeat_seq_index(x, p);
        assert(q * l == p * l + l) by (nonlinear_arith)
            requires
                q == p + 1,
        ;
        assert forall|i: int| 0 <= i < q * x.len() implies #[trigger] repeat_seq(x, q)[i] == x[i
            % l] by {
            if i >= p * l {
                lemma_fundamental_div_mod_converse(i, l, p as int, i - p * l);
            } else {
                assert(repeat_seq(x, q)[i] == repeat_seq(x, p)[i]);
            }
        }
    } else {
        assert(0 * x.len() == 0);
    }
}

proof fn lemma_repeat_seq_utf8(m: Seq<u8>, q: nat)
    requires
        valid_utf8(m),
    ensures
        valid_utf8(repeat_seq(m, q)),
        decode_utf8(repeat_seq(m, q)) == repeat_seq(decode_utf8(m), q),
    decreases q,
{
    if q == 0 {
        assert(repeat_seq(m, q) =~= seq![]);
        assert(decode_utf8(repeat_seq(m, q)) =~= seq![]);
        assert(repeat_seq(decode_utf8(m), q) =~= seq![]);
    } else {
        lemma_repeat_seq_utf8(m, (q - 1) as nat);
        lemma_decode_utf8_concat(repeat_seq(m, (q - 1) as nat), m);
    }
}

/// Bytes assembled from samples that a non-empty message was written over and
/// over into repeat the message.
proof fn lemma_assembled_after_repeat(s: Seq<i16>, m: Seq<u8>, width: nat, j: int)
    requires
        1 <= width <= 8,
        m.len() > 0,
        0 <= j < assembled_len(s.len(), width),
    ensures
        assembled_bytes(encoded_samples(s, m, width, true), width)[j] == m[j % m.len() as int],
{
    let e = encoded_samples(s, m, width, true);
    let stream = bit_stream(low_bytes(e), width);
    let l = m.len() as int;
    let n = assembled_len(s.len(), width) as int;
    assert(8 * n <= s.len() * width) by {
        vstd::arithmetic::div_mod::lemma_fundamental_div_mod((s.len() * width) as int, 8);
        vstd::arithmetic::div_mod::lemma_mod_bound((s.len() * width) as int, 8);
    }
    let jq = j / l;
    let jr = j % l;
    lemma_fundamental_div_mod(j, l);
    vstd::arithmetic::div_mod::lemma_mod_bound(j, l);
    let chunk = stream.subrange(8 * j, 8 * j + 8);
    assert forall|i: int| 0 <= i < 8 implies #[trigger] bit_of(m[jr], i) == chunk[i] by {
        let t = 8 * j + i;
        assert(t < s.len() * width);
        lemma_encoded_stream_bit(s, m, width, true, t);
        assert(t == jq * (8 * l) + (8 * jr + i)) by (nonlinear_arith)
            requires
                j == l * jq + jr,
                t == 8 * j + i,
        ;
        lemma_fundamental_div_mod_converse(t, 8 * l, jq, 8 * jr + i);
        lemma_fundamental_div_mod_converse(8 * jr + i, 8, jr, i);
    }
    assert(has_bits(m[jr], chunk));
    lemma_byte_from_bits(m[jr], chunk);
}

/// Encoding a message over and over across the samples and decoding with the
/// same width and `repeat` gives back exactly one copy of the message. This
/// asks for room for at least one whole copy, for well-formed UTF-8 without a
/// replacement character, and for a message text with no period shorter than
/// itself (a text such as "abab" comes back as "ab").
pub proof fn lemma_repeat_round_trip(s: Seq<i16>, m: Seq<u8>, width: nat)
    requires
        1 <= width <= 8,
        valid_utf8(m),
        decode_utf8(m).len() > 0,
        forall|i: int|
            0 <= i < decode_utf8(m).len() ==> #[trigger] decode_utf8(m)[i] != REPLACEMENT_CHARACTER,
        is_smallest_period(decode_utf8(m), decode_utf8(m).len() as int),
        m.len() <= assembled_len(s.len(), width),
    ensures
        decoded_message(encoded_samples(s, m, width, true), width, true) == decode_utf8(m),
{
    let w = decode_utf8(m);
    let wl = w.len() as int;
    if m.len() == 0 {
        assert(decode_utf8(m) =~= seq![]);
    }
    let l = m.len() as int;
    let e = encoded_samples(s, m, width, true);
    let d = assembled_bytes(e, width);
    let n = d.len() as int;
    let q = n / l;
    let r = n % l;
    lemma_fundamental_div_mod(n, l);
    vstd::arithmetic::div_mod::lemma_mod_bound(n, l);
    assert(q >= 1) by {
        vstd::arithmetic::div_mod::lemma_div_is_ordered(l, n, l);
        vstd::arithmetic::div_mod::lemma_div_by_self(l);
    }
    let qn = q as nat;
    lemma_repeat_seq_index(m, qn);
    assert(n == qn * l + r) by (nonlinear_arith)
        requires
            n == l * q + r,
            qn == q,
    ;
    let tail = m.take(r);
    let body = repeat_seq(m, qn);
    assert forall|j: int| 0 <= j < n implies #[trigger] d[j] == (body + tail)[j] by {
        lemma_assembled_after_repeat(s, m, width, j);
        if j >= qn * l {
            lemma_fundamental_div_mod_converse(j, l, q, j - qn * l);
        }
    }
    assert(d =~= body + tail);
    lemma_repeat_seq_utf8(m, qn);
    lemma_payload_text_after_valid(body, tail);
    let y = tail.take(utf8_prefix_len(body + tail) - body.len());
    assert(y =~= m.take(y.len() as int));
    lemma_decode_utf8_prefix(m, y.len() as int);
    let u = decode_utf8(y);
    assert(u.len() < wl);
    let ws = repeat_seq(w, qn);
    lemma_repeat_seq_index(w, qn);
    let text = ws + u;
    assert forall|i: int| 0 <= i < text.len() implies #[trigger] text[i] == w[i % wl] by {
        if i >= qn * wl {
            assert(text[i] == u[i - qn * wl]);
            assert(u[i - qn * wl] == w[i - qn * wl]);
            lemma_fundamental_div_mod_converse(i, wl, q, i - qn * wl);
        }
    }
    assert forall|i: int| 0 <= i < text.len() implies text[i] != REPLACEMENT_CHARACTER by {
        assert(text[i] == w[i % wl]);
        vstd::arithmetic::div_mod::lemma_mod_bound(i, wl);
    }
    lemma_until_replacement_take(text, text.len() as int);
    assert(text.take(text.len() as int) =~= text);
    assert(payload_text(d) == text);
    assert(qn * wl >= wl) by (nonlinear_arith)
        requires
            qn >= 1,
            wl >= 1,
    ;
    assert(text.take(wl) =~= w) by {
        assert forall|i: int| 0 <= i < wl implies text[i] == w[i] by {
            vstd::arithmetic::div_mod::lemma_small_mod(i as nat, wl as nat);
        }
    }
    assert(is_period(text, wl)) by {
        assert forall|i: int| 0 <= i < text.len() - wl implies #[trigger] text[i] == text[i + wl] by {
            vstd::arithmetic::div_mod::lemma_mod_add_multiples_vanish(i, wl);
        }
    }
    assert forall|p: int| 1 <= p < wl implies !#[trigger] is_period(text, p) by {
        if is_period(text, p) {
            assert forall|i: int| 0 <= i < wl - p implies #[trigger] w[i] == w[i + p] by {
                assert(text[i] == text[i + p]);
                vstd::arithmetic::div_mod::lemma_small_mod(i as nat, wl as nat);
                vstd::arithmetic::div_mod::lemma_small_mod((i + p) as nat, wl as nat);
            }
            assert(is_period(w, p));
        }
    }
    let c = smallest_period(text);
    assert(is_smallest_period(text, wl));
    assert(is_smallest_period(text, c));
    if c < wl {
        assert(!is_period(text, c));
    }
    if wl < c {
        assert(!is_period(text, wl));
    }
}

} // verus!
