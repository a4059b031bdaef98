//! Turning decoded bytes into text: UTF-8 up to the first malformed sequence.

use vstd::prelude::*;
use vstd::utf8::*;

use crate::prefix_function::chars_of;

verus! {

/// U+FFFD, which lossy UTF-8 decoding puts in place of a malformed sequence.
pub const REPLACEMENT_CHARACTER: char = '\u{FFFD}';

/// The first `k` bytes of `b` are well-formed UTF-8 and no longer prefix is.
pub open spec fn is_longest_utf8_prefix(b: Seq<u8>, k: int) -> bool {
    &&& 0 <= k <= b.len()
    &&& valid_utf8(b.take(k))
    &&& forall|j: int| k < j <= b.len() ==> !#[trigger] valid_utf8(b.take(j))
}

/// Length of the longest well-formed UTF-8 prefix of `b`.
pub open spec fn utf8_prefix_len(b: Seq<u8>) -> int {
    choose|k: int| is_longest_utf8_prefix(b, k)
}

/// The characters of `cs` before its first replacement character.
pub open spec fn until_replacement(cs: Seq<char>) -> Seq<char>
    decreases cs.len(),
{
    if cs.len() == 0 {
        cs
    } else if cs[0] == REPLACEMENT_CHARACTER {
        seq![]
    } else {
        seq![cs[0]] + until_replacement(cs.drop_first())
    }
}

/// The text a byte payload carries: what lossy UTF-8 decoding gives, cut at
/// its first replacement character. That is the decoded longest well-formed
/// prefix, cut at the first replacement character in it.
pub open spec fn payload_text(b: Seq<u8>) -> Seq<char> {
    until_replacement(decode_utf8(b.take(utf8_prefix_len(b))))
}

/// Relies on `std::str::from_utf8`, which accepts exactly the well-formed
/// UTF-8 byte sequences and then holds their characters, and on
/// `Utf8Error::valid_up_to`, the largest index up to which the input is
/// well-formed.
#[verifier::external_body]
fn parse_utf8(bytes: &[u8]) -> (r: Result<String, usize>)
    ensures
        r is Ok <==> valid_utf8(bytes@),
        r matches Ok(s) ==> s@ == decode_utf8(bytes@),
        r matches Err(k) ==> is_longest_utf8_prefix(bytes@, k as int),
{
    match std::str::from_utf8(bytes) {
        Ok(s) => Ok(s.to_owned()),
        Err(e) => Err(e.valid_up_to()),
    }
}

/// There is one longest well-formed prefix.
pub proof fn lemma_longest_utf8_prefix_unique(b: Seq<u8>, k: int)
    requires
        is_longest_utf8_prefix(b, k),
    ensures
        utf8_prefix_len(b) == k,
{
    let c = utf8_prefix_len(b);
    assert(is_longest_utf8_prefix(b, c));
    if c < k {
        assert(!valid_utf8(b.take(k)));
    }
    if k < c {
        assert(!valid_utf8(b.take(c)));
    }
}

/// Cutting at the first replacement character is taking the prefix before it.
pub proof fn lemma_until_replacement_take(cs: Seq<char>, k: int)
    requires
        0 <= k <= cs.len(),
        forall|i: int| 0 <= i < k ==> cs[i] != REPLACEMENT_CHARACTER,
        k < cs.len() ==> cs[k] == REPLACEMENT_CHARACTER,
    ensures
        until_replacement(cs) == cs.take(k),
    decreases k,
{
    if k == 0 {
        if cs.len() == 0 {
            assert(cs.take(0) =~= cs);
        } else {
            assert(cs.take(0) =~= seq![]);
        }
    } else {
        let rest = cs.drop_first();
        assert forall|i: int| 0 <= i < k - 1 implies rest[i] != REPLACEMENT_CHARACTER by {
            assert(rest[i] == cs[i + 1]);
        }
        lemma_until_replacement_take(rest, k - 1);
        assert(seq![cs[0]] + rest.take(k - 1) =~= cs.take(k));
    }
}

/// The first `k` characters of `s`, as a new string.
pub fn char_prefix(s: &String, k: usize) -> (r: String)
    requires
        k <= s@.len(),
    ensures
        r@ == s@.take(k as int),
{
    s.as_str().substring_char(0, k).to_owned()
}

/// The text that the bytes carry: decoded as UTF-8 with malformed sequences
/// replaced, and cut at the first replacement character.
pub fn payload_text_of(bytes: &[u8]) -> (r: String)
    ensures
        r@ == payload_text(bytes@),
{
    let decoded = match parse_utf8(bytes) {
        Ok(s) => {
            proof {
                assert(bytes@.take(bytes@.len() as int) =~= bytes@);
                lemma_longest_utf8_prefix_unique(bytes@, bytes@.len() as int);
            }
            s
        },
        Err(k) => {
            proof {
                lemma_longest_utf8_prefix_unique(bytes@, k as int);
            }
            let head = &bytes[0..k];
            assert(head@ == bytes@.take(k as int));
            match parse_utf8(head) {
                Ok(s) => s,
                // The head is well-formed, so this arm is never taken.
                Err(_) => String::new(),
            }
        },
    };
    let cs = chars_of(decoded.as_str());
    let mut cut: usize = 0;
    while cut < cs.len() && cs[cut] != REPLACEMENT_CHARACTER
        invariant
            cut <= cs@.len(),
            forall|i: int| 0 <= i < cut ==> cs@[i] != REPLACEMENT_CHARACTER,
        decreases cs@.len() - cut,
    {
        cut = cut + 1;
    }
    proof {
        lemma_until_replacement_take(cs@, cut as int);
    }
    char_prefix(&decoded, cut)
}

/// Decoding two well-formed sequences one after the other decodes each.
pub proof fn lemma_decode_utf8_concat(a: Seq<u8>, b: Seq<u8>)
    requires
        valid_utf8(a),
        valid_utf8(b),
    ensures
        valid_utf8(a + b),
        decode_utf8(a + b) == decode_utf8(a) + decode_utf8(b),
    decreases a.len(),
{
    valid_utf8_concat(a, b);
    if a.len() == 0 {
        assert(a + b =~= b);
        assert(decode_utf8(a) =~= seq![]);
        assert(decode_utf8(a) + decode_utf8(b) =~= decode_utf8(b));
    } else {
        let rest = pop_first_scalar(a);
        assert(rest.len() < a.len());
        lemma_decode_utf8_concat(rest, b);
        assert(pop_first_scalar(a + b) =~= rest + b);
        assert(decode_first_scalar(a + b) == decode_first_scalar(a));
        assert(decode_utf8(a + b) =~= seq![decode_first_scalar(a) as char] + decode_utf8(rest + b));
        assert(decode_utf8(a) =~= seq![decode_first_scalar(a) as char] + decode_utf8(rest));
    }
}

/// What follows a well-formed prefix of a well-formed sequence is well-formed.
pub proof fn lemma_valid_utf8_rest(a: Seq<u8>, b: Seq<u8>)
    requires
        valid_utf8(a),
        valid_utf8(a + b),
    ensures
        valid_utf8(b),
        decode_utf8(a + b) == decode_utf8(a) + decode_utf8(b),
{
    let ab = a + b;
    assert(ab.subrange(0, a.len() as int) =~= a);
    assert(ab.subrange(a.len() as int, ab.len() as int) =~= b);
    if !valid_utf8(b) {
        partial_valid_partial_invalid_utf8(ab, a.len() as int);
    }
    lemma_decode_utf8_concat(a, b);
}

/// Every byte sequence has a longest well-formed prefix.
pub proof fn lemma_utf8_prefix_len(b: Seq<u8>)
    ensures
        is_longest_utf8_prefix(b, utf8_prefix_len(b)),
{
    lemma_longest_prefix_upto(b, b.len() as int);
    let k = choose|k: int|
        0 <= k <= b.len() && valid_utf8(b.take(k)) && forall|j: int|
            k < j <= b.len() ==> !#[trigger] valid_utf8(b.take(j));
    assert(is_longest_utf8_prefix(b, k));
}

proof fn lemma_longest_prefix_upto(b: Seq<u8>, n: int)
    requires
        0 <= n <= b.len(),
    ensures
        exists|k: int|
            0 <= k <= n && valid_utf8(b.take(k)) && forall|j: int|
                k < j <= n ==> !#[trigger] valid_utf8(b.take(j)),
    decreases n,
{
    if n == 0 {
        assert(b.take(0) =~= seq![]);
        assert(valid_utf8(b.take(0)));
    } else {
        lemma_longest_prefix_upto(b, n - 1);
        let k = choose|k: int|
            0 <= k <= n - 1 && valid_utf8(b.take(k)) && forall|j: int|
                k < j <= n - 1 ==> !#[trigger] valid_utf8(b.take(j));
        if valid_utf8(b.take(n)) {
            assert(forall|j: int| n < j <= n ==> !#[trigger] valid_utf8(b.take(j)));
        } else {
            assert(forall|j: int| k < j <= n ==> !#[trigger] valid_utf8(b.take(j)));
        }
    }
}

/// Cutting a concatenation at the first replacement character: the cut of the
/// first part comes first, and all of the first part when it holds none.
pub proof fn lemma_until_replacement_concat(a: Seq<char>, c: Seq<char>)
    ensures
        until_replacement(a).len() <= until_replacement(a + c).len(),
        until_replacement(a + c).take(until_replacement(a).len() as int) == until_replacement(a),
        (forall|i: int| 0 <= i < a.len() ==> a[i] != REPLACEMENT_CHARACTER) ==> until_replacement(
            a + c,
        ) == a + until_replacement(c),
    decreases a.len(),
{
    if a.len() == 0 {
        assert(a + c =~= c);
        assert(a + until_replacement(c) =~= until_replacement(c));
    } else {
        let rest = a.drop_first();
        lemma_until_replacement_concat(rest, c);
        assert((a + c).drop_first() =~= rest + c);
        assert((a + c)[0] == a[0]);
        if a[0] != REPLACEMENT_CHARACTER {
            assert(until_replacement(a + c) == seq![a[0]] + until_replacement(rest + c));
            assert(until_replacement(a) == seq![a[0]] + until_replacement(rest));
            assert(until_replacement(a + c).take(until_replacement(a).len() as int)
                =~= seq![a[0]] + until_replacement(rest + c).take(until_replacement(rest).len() as int));
            if forall|i: int| 0 <= i < a.len() ==> a[i] != REPLACEMENT_CHARACTER {
                assert forall|i: int| 0 <= i < rest.len() implies rest[i] != REPLACEMENT_CHARACTER by {
                    assert(rest[i] == a[i + 1]);
                }
                assert(a + until_replacement(c) =~= seq![a[0]] + (rest + until_replacement(c)));
            }
        } else {
            assert(until_replacement(a) =~= seq![]);
        }
    }
}

/// The text of a payload that starts with `m` starts with the text of `m`.
pub proof fn lemma_payload_text_prefix(m: Seq<u8>, t: Seq<u8>)
    ensures
        payload_text(m).len() <= payload_text(m + t).len(),
        payload_text(m + t).take(payload_text(m).len() as int) == payload_text(m),
{
    let d = m + t;
    lemma_utf8_prefix_len(m);
    lemma_utf8_prefix_len(d);
    let km = utf8_prefix_len(m);
    let kd = utf8_prefix_len(d);
    let v = m.take(km);
    assert(d.take(km) =~= v);
    assert(kd >= km);
    let y = d.subrange(km, kd);
    assert(d.take(kd) =~= v + y);
    lemma_valid_utf8_rest(v, y);
    lemma_until_replacement_concat(decode_utf8(v), decode_utf8(y));
}

/// The text of well-formed UTF-8 without a replacement character is all of it.
pub proof fn lemma_payload_text_of_valid(m: Seq<u8>)
    requires
        valid_utf8(m),
        forall|i: int|
            0 <= i < decode_utf8(m).len() ==> #[trigger] decode_utf8(m)[i] != REPLACEMENT_CHARACTER,
    ensures
        payload_text(m) == decode_utf8(m),
{
    assert(m.take(m.len() as int) =~= m);
    lemma_longest_utf8_prefix_unique(m, m.len() as int);
    lemma_until_replacement_take(decode_utf8(m), decode_utf8(m).len() as int);
    assert(decode_utf8(m).take(decode_utf8(m).len() as int) =~= decode_utf8(m));
}

/// The text of a payload that starts with a well-formed `v`: the characters
/// of `v` and of the well-formed prefix of what follows, cut at the first
/// replacement character.
pub proof fn lemma_payload_text_after_valid(v: Seq<u8>, t: Seq<u8>)
    requires
        valid_utf8(v),
    ensures
        v.len() <= utf8_prefix_len(v + t) <= v.len() + t.len(),
        valid_utf8(t.take(utf8_prefix_len(v + t) - v.len())),
        payload_text(v + t) == until_replacement(
            decode_utf8(v) + decode_utf8(t.take(utf8_prefix_len(v + t) - v.len())),
        ),
{
    let d = v + t;
    lemma_utf8_prefix_len(d);
    let kd = utf8_prefix_len(d);
    assert(d.take(v.len() as int) =~= v);
    assert(kd >= v.len());
    let y = t.take(kd - v.len());
    assert(d.take(kd) =~= v + y);
    lemma_valid_utf8_rest(v, y);
}

/// A well-formed prefix of a well-formed sequence decodes to a prefix of its
/// characters, a shorter one when the prefix is shorter.
pub proof fn lemma_decode_utf8_prefix(m: Seq<u8>, k: int)
    requires
        valid_utf8(m),
        0 <= k <= m.len(),
        valid_utf8(m.take(k)),
    ensures
        decode_utf8(m.take(k)).len() <= decode_utf8(m).len(),
        decode_utf8(m) .take(decode_utf8(m.take(k)).len() as int) == decode_utf8(m.take(k)),
        k < m.len() ==> decode_utf8(m.take(k)).len() < decode_utf8(m).len(),
{
    let y = m.take(k);
    let z = m.skip(k);
    assert(y + z =~= m);
    lemma_valid_utf8_rest(y, z);
    if k < m.len() {
        assert(z.len() > 0);
        assert(decode_utf8(z).len() > 0);
    }
    assert(decode_utf8(m).take(decode_utf8(y).len() as int) =~= decode_utf8(y));
}

/// Cutting at the first replacement character keeps a prefix without one.
pub proof fn lemma_until_replacement_prefix(cs: Seq<char>)
    ensures
        until_replacement(cs).len() <= cs.len(),
        cs.take(until_replacement(cs).len() as int) == until_replacement(cs),
        forall|i: int|
            0 <= i < until_replacement(cs).len() ==> #[trigger] until_replacement(cs)[i]
                != REPLACEMENT_CHARACTER,
    decreases cs.len(),
{
    if cs.len() > 0 && cs[0] != REPLACEMENT_CHARACTER {
        let rest = cs.drop_first();
        lemma_until_replacement_prefix(rest);
        let u = until_replacement(cs);
        assert(u == seq![cs[0]] + until_replacement(rest));
        assert(cs.take(u.len() as int) =~= seq![cs[0]] + rest.take(until_replacement(rest).len() as int));
        assert forall|i: int| 0 <= i < u.len() implies #[trigger] u[i] != REPLACEMENT_CHARACTER by {
            if i > 0 {
                assert(u[i] == until_replacement(rest)[i - 1]);
            }
        }
    } else if cs.len() > 0 {
        assert(cs.take(0) =~= seq![]);
    } else {
        assert(cs.take(0) =~= cs);
    }
}

/// Encoding two character sequences one after the other encodes each.
pub proof fn lemma_encode_utf8_concat(a: Seq<char>, b: Seq<char>)
    ensures
        encode_utf8(a + b) == encode_utf8(a) + encode_utf8(b),
    decreases a.len(),
{
    if a.len() == 0 {
        assert(a + b =~= b);
        assert(encode_utf8(a) + encode_utf8(b) =~= encode_utf8(b));
    } else {
        let rest = a.drop_first();
        lemma_encode_utf8_concat(rest, b);
        assert((a + b).drop_first() =~= rest + b);
        assert((a + b)[0] == a[0]);
        assert(encode_utf8(a + b) =~= encode_scalar(a[0] as u32) + (encode_utf8(rest) + encode_utf8(b)));
    }
}

/// The text of a payload holds no replacement character, and its UTF-8
/// encoding is where the payload starts.
pub proof fn lemma_payload_text_is_byte_prefix(b: Seq<u8>)
    ensures
        forall|i: int|
            0 <= i < payload_text(b).len() ==> #[trigger] payload_text(b)[i] != REPLACEMENT_CHARACTER,
        encode_utf8(payload_text(b)).len() <= b.len(),
        b.take(encode_utf8(payload_text(b)).len() as int) == encode_utf8(payload_text(b)),
{
    lemma_utf8_prefix_len(b);
    let x = b.take(utf8_prefix_len(b));
    let cs = decode_utf8(x);
    let u = until_replacement(cs);
    lemma_until_replacement_prefix(cs);
    let rest = cs.skip(u.len() as int);
    assert(cs =~= u + rest);
    lemma_encode_utf8_concat(u, rest);
    decode_utf8_encode_utf8(x);
    let n = encode_utf8(u).len() as int;
    assert(b.take(n) =~= x.take(n));
    assert(x.take(n) =~= encode_utf8(u));
}

} // verus!
