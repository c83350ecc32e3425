//! Digests over length-framed parts.
use vstd::bytes::*;
use vstd::prelude::*;
use vstd::utf8::*;

verus! {

broadcast use vstd::seq_lib::group_seq_properties;

/// The SHA-256 digest of some bytes.
pub uninterp spec fn sha256_of(bytes: Seq<u8>) -> Seq<u8>;

/// `sha2::Sha256::digest`: 32 bytes that depend on the bytes alone.
#[verifier::external_body]
pub(crate) fn sha256(bytes: &[u8]) -> (r: Vec<u8>)
    ensures
        r@ == sha256_of(bytes@),
        r@.len() == 32,
{
    <sha2::Sha256 as sha2::Digest>::digest(bytes).to_vec()
}

/// A lower-case hexadecimal digit.
pub open spec fn is_hex(c: char) -> bool {
    '0' <= c <= '9' || 'a' <= c <= 'f'
}

/// The lower-case hexadecimal digit of a number below sixteen.
pub open spec fn low_digit(n: u8) -> char {
    if n < 10 {
        (48 + n) as u8 as char
    } else {
        (87 + n) as u8 as char
    }
}

/// The lower-case hexadecimal text of some bytes, two digits for each.
pub open spec fn hex_text(bytes: Seq<u8>) -> Seq<char>
    decreases bytes.len(),
{
    if bytes.len() == 0 {
        Seq::empty()
    } else {
        let b = bytes.last();
        hex_text(bytes.drop_last()) + seq![low_digit(b / 16), low_digit(b % 16)]
    }
}

/// The lower-case hexadecimal text of the SHA-256 digest of some bytes.
pub open spec fn sha256_text(bytes: Seq<u8>) -> Seq<char> {
    hex_text(sha256_of(bytes))
}

fn digit_of(n: u8) -> (r: char)
    requires
        n < 16,
    ensures
        r == low_digit(n),
        is_hex(r),
{
    if n < 10 {
        (48 + n) as char
    } else {
        (87 + n) as char
    }
}

/// The lower-case hexadecimal text of the SHA-256 digest of some bytes.
pub(crate) fn sha256_hex(bytes: &[u8]) -> (r: String)
    ensures
        r@ == sha256_text(bytes@),
        r@.len() == 64,
        forall|i: int| 0 <= i < r@.len() ==> is_hex(#[trigger] r@[i]),
{
    let hash = sha256(bytes);
    let mut out = String::new();
    let mut i: usize = 0;
    assert(hash@.take(0) =~= Seq::empty());
    while i < hash.len()
        invariant
            i <= hash@.len(),
            out@ == hex_text(hash@.take(i as int)),
            out@.len() == 2 * i,
            forall|k: int| 0 <= k < out@.len() ==> is_hex(#[trigger] out@[k]),
        decreases hash@.len() - i,
    {
        let ghost before = out@;
        let b: u8 = hash[i];
        out.push(digit_of(b / 16));
        out.push(digit_of(b % 16));
        proof {
            assert(hash@.take(i + 1).drop_last() == hash@.take(i as int));
            assert(out@ =~= before + seq![low_digit(b / 16), low_digit(b % 16)]);
        }
        i += 1;
    }
    assert(hash@.take(hash@.len() as int) == hash@);
    out
}

/// A part with its length before it, in eight bytes, the least significant first.
pub open spec fn frame(part: Seq<u8>) -> Seq<u8> {
    spec_u64_to_le_bytes(part.len() as u64) + part
}

/// The frames of all parts in turn.
pub open spec fn framed(parts: Seq<Seq<u8>>) -> Seq<u8>
    decreases parts.len(),
{
    if parts.len() == 0 {
        Seq::empty()
    } else {
        framed(parts.drop_last()) + frame(parts.last())
    }
}

/// The digest of a list of parts.
pub open spec fn digest_of(parts: Seq<Seq<u8>>) -> Seq<char> {
    sha256_text(framed(parts))
}

/// The digest of two texts.
pub open spec fn pair_digest(a: Seq<char>, b: Seq<char>) -> Seq<char> {
    digest_of(seq![encode_utf8(a), encode_utf8(b)])
}

/// Appends a part with its length before it.
pub fn push_frame(out: &mut Vec<u8>, part: &[u8])
    ensures
        final(out)@ == old(out)@ + frame(part@),
{
    let mut length = u64_to_le_bytes(part.len() as u64);
    out.append(&mut length);
    out.extend_from_slice(part);
}

/// The digest of a list of parts.
pub fn digest(parts: &[&[u8]]) -> (r: String)
    ensures
        r@ == digest_of(parts@.map_values(|p: &[u8]| p@)),
        r@.len() == 64,
        forall|i: int| 0 <= i < r@.len() ==> is_hex(#[trigger] r@[i]),
{
    let ghost views = parts@.map_values(|p: &[u8]| p@);
    let mut out: Vec<u8> = Vec::new();
    let mut i: usize = 0;
    assert(views.take(0) == Seq::<Seq<u8>>::empty());
    while i < parts.len()
        invariant
            i <= parts.len(),
            views == parts@.map_values(|p: &[u8]| p@),
            out@ == framed(views.take(i as int)),
        decreases parts.len() - i,
    {
        push_frame(&mut out, parts[i]);
        proof {
            assert(views.take(i + 1).drop_last() == views.take(i as int));
        }
        i += 1;
    }
    assert(views.take(views.len() as int) == views);
    sha256_hex(&out)
}

/// The digest of two texts.
pub fn digest_pair(a: &str, b: &str) -> (r: String)
    ensures
        r@ == pair_digest(a@, b@),
        r@.len() == 64,
{
    let parts = [a.as_bytes(), b.as_bytes()];
    let r = digest(&parts);
    assert(parts@.map_values(|p: &[u8]| p@) =~= seq![encode_utf8(a@), encode_utf8(b@)]);
    r
}

/// The parts of the digest of three texts.
pub open spec fn triple(a: Seq<char>, b: Seq<char>, c: Seq<char>) -> Seq<Seq<u8>> {
    seq![encode_utf8(a), encode_utf8(b), encode_utf8(c)]
}

/// The digest of three texts.
pub fn digest_triple(a: &str, b: &str, c: &str) -> (r: String)
    ensures
        r@ == digest_of(triple(a@, b@, c@)),
{
    let parts = [a.as_bytes(), b.as_bytes(), c.as_bytes()];
    let r = digest(&parts);
    assert(parts@.map_values(|p: &[u8]| p@) =~= triple(a@, b@, c@));
    r
}

/// Texts with the same encoding are the same.
pub proof fn lemma_encoding_injective(a: Seq<char>, b: Seq<char>)
    requires
        encode_utf8(a) == encode_utf8(b),
    ensures
        a == b,
{
    encode_utf8_decode_utf8(a);
    encode_utf8_decode_utf8(b);
}

/// Whether every part's length fits its frame.
pub open spec fn framable(parts: Seq<Seq<u8>>) -> bool {
    forall|i: int| 0 <= i < parts.len() ==> (#[trigger] parts[i]).len() <= u64::MAX
}

/// The frames in the other direction: the first one before the rest.
proof fn lemma_framed_front(parts: Seq<Seq<u8>>)
    requires
        parts.len() > 0,
    ensures
        framed(parts) == frame(parts[0]) + framed(parts.skip(1)),
    decreases parts.len(),
{
    if parts.len() == 1 {
        assert(parts.skip(1) == Seq::<Seq<u8>>::empty());
        assert(parts.drop_last() == Seq::<Seq<u8>>::empty());
    } else {
        lemma_framed_front(parts.drop_last());
        assert(parts.drop_last().skip(1) == parts.skip(1).drop_last());
        assert(framed(parts) == frame(parts[0]) + framed(parts.skip(1)));
    }
}

/// Framing loses nothing: two lists of parts with the same frames are the same list, so
/// digests of different lists are digests of different bytes.
pub proof fn law_framing_injective(a: Seq<Seq<u8>>, b: Seq<Seq<u8>>)
    requires
        framable(a),
        framable(b),
        framed(a) == framed(b),
    ensures
        a == b,
    decreases a.len(),
{
    lemma_auto_spec_u64_to_from_le_bytes();
    if a.len() == 0 {
        if b.len() > 0 {
            lemma_framed_front(b);
            assert(framed(b).len() >= frame(b[0]).len() >= 8);
            assert(framed(a).len() == 0);
        }
        assert(a =~= b);
    } else if b.len() == 0 {
        lemma_framed_front(a);
        assert(framed(a).len() >= frame(a[0]).len() >= 8);
        assert(framed(b).len() == 0);
    } else {
        lemma_framed_front(a);
        lemma_framed_front(b);
        let whole = framed(a);
        let x = spec_u64_to_le_bytes(a[0].len() as u64);
        let y = spec_u64_to_le_bytes(b[0].len() as u64);
        assert(whole.take(8) == x);
        assert(whole.take(8) == y);
        assert(a[0].len() as u64 == b[0].len() as u64);
        assert(a[0].len() == b[0].len());
        let n = a[0].len() as int;
        assert(a[0] == whole.subrange(8, 8 + n));
        assert(b[0] == whole.subrange(8, 8 + n));
        assert(framed(a.skip(1)) == whole.skip(8 + n));
        assert(framed(b.skip(1)) == whole.skip(8 + n));
        assert forall|i: int| 0 <= i < a.skip(1).len() implies (#[trigger] a.skip(1)[i]).len()
            <= u64::MAX by {
            assert(a.skip(1)[i] == a[i + 1]);
        }
        assert forall|i: int| 0 <= i < b.skip(1).len() implies (#[trigger] b.skip(1)[i]).len()
            <= u64::MAX by {
            assert(b.skip(1)[i] == b[i + 1]);
        }
        law_framing_injective(a.skip(1), b.skip(1));
        assert(a == seq![a[0]] + a.skip(1));
        assert(b == seq![b[0]] + b.skip(1));
    }
}

/// The value of a hexadecimal digit.
pub open spec fn digit_value(c: char) -> int {
    if c <= '9' {
        c as int - 48
    } else {
        c as int - 87
    }
}

/// The text of bytes has two digits for each byte, the high one first; they are hexadecimal, in
/// lower case, and stand for the byte.
pub proof fn law_digits_stand_for_bytes(bytes: Seq<u8>, i: int)
    requires
        0 <= i < bytes.len(),
    ensures
        hex_text(bytes).len() == 2 * bytes.len(),
        ({
            let high = hex_text(bytes)[2 * i];
            let low = hex_text(bytes)[2 * i + 1];
            &&& is_hex(high) && is_hex(low)
            &&& 16 * digit_value(high) + digit_value(low) == bytes[i]
        }),
    decreases bytes.len(),
{
    let front = bytes.drop_last();
    let b = bytes.last();
    lemma_hex_length(front);
    if i < front.len() {
        law_digits_stand_for_bytes(front, i);
        assert(front[i] == bytes[i]);
        assert(hex_text(bytes)[2 * i] == hex_text(front)[2 * i]);
        assert(hex_text(bytes)[2 * i + 1] == hex_text(front)[2 * i + 1]);
    } else {
        assert(hex_text(bytes)[2 * i] == low_digit(b / 16));
        assert(hex_text(bytes)[2 * i + 1] == low_digit(b % 16));
        assert(b / 16 < 16 && b % 16 < 16);
    }
}

proof fn lemma_hex_length(bytes: Seq<u8>)
    ensures
        hex_text(bytes).len() == 2 * bytes.len(),
    decreases bytes.len(),
{
    if bytes.len() > 0 {
        lemma_hex_length(bytes.drop_last());
    }
}

/// Parts are framed one after the other, each behind its length in eight bytes, the low ones
/// first; what is digested is that, and the digest is the text of the hash.
pub proof fn law_how_parts_are_framed(parts: Seq<Seq<u8>>, part: Seq<u8>)
    requires
        part.len() <= u64::MAX,
    ensures
        framed(Seq::<Seq<u8>>::empty()) == Seq::<u8>::empty(),
        framed(parts.push(part)) == framed(parts) + spec_u64_to_le_bytes(part.len() as u64) + part,
        digest_of(parts) == hex_text(sha256_of(framed(parts))),
{
    assert(parts.push(part).drop_last() =~= parts);
    assert(framed(parts.push(part)) =~= framed(parts) + spec_u64_to_le_bytes(part.len() as u64)
        + part);
}

/// The digest of two texts is that of the bytes of each, and so is that of three.
pub proof fn law_what_is_digested(a: Seq<char>, b: Seq<char>, c: Seq<char>)
    ensures
        pair_digest(a, b) == digest_of(seq![encode_utf8(a), encode_utf8(b)]),
        triple(a, b, c) == seq![encode_utf8(a), encode_utf8(b), encode_utf8(c)],
{
}

} // verus!
