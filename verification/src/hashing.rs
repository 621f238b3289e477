//! Digests, hex rendering, DEFLATE compression, and the clock: the calls
//! into outside crates that the object store is built on.
use sha1::Digest;
use std::io::Read;
use std::io::Write;
use vstd::prelude::*;

verus! {

/// `sha1_of(data)` stands for the SHA-1 digest bytes of `data`.
pub uninterp spec fn sha1_of(data: Seq<u8>) -> Seq<u8>;

/// Relies on `sha1::Sha1` (`Digest::update` / `finalize`): the digest is a
/// pure function of the input bytes and is 20 bytes long.
#[verifier::external_body]
pub fn sha1_digest(data: &[u8]) -> (r: Vec<u8>)
    ensures
        r@ == sha1_of(data@),
        r@.len() == 20,
{
    let mut hasher = sha1::Sha1::new();
    hasher.update(data);
    hasher.finalize().to_vec()
}

/// A lowercase hexadecimal digit: `0..=9` then `a..=f`.
pub open spec fn hex_digit(n: int) -> u8 {
    if n < 10 {
        (48 + n) as u8
    } else {
        (87 + n) as u8
    }
}

/// Lowercase hex rendering of a byte string, high nibble first.
pub open spec fn hex_of(data: Seq<u8>) -> Seq<u8> {
    Seq::new(
        data.len() * 2,
        |i: int|
            if i % 2 == 0 {
                hex_digit((data[i / 2] >> 4u8) as int)
            } else {
                hex_digit((data[i / 2] & 0xfu8) as int)
            },
    )
}

/// The bytes that can appear in a hex rendering.
pub open spec fn is_hex_char(b: u8) -> bool {
    (48 <= b <= 57) || (97 <= b <= 102)
}

pub proof fn lemma_hex_of_chars(data: Seq<u8>)
    ensures
        hex_of(data).len() == data.len() * 2,
        forall|i: int| 0 <= i < hex_of(data).len() ==> is_hex_char(#[trigger] hex_of(data)[i]),
{
    assert forall|i: int| 0 <= i < hex_of(data).len() implies is_hex_char(#[trigger] hex_of(data)[i]) by {
        let b = data[i / 2];
        assert((b >> 4u8) < 16 && (b & 0xfu8) < 16) by (bit_vector);
    }
}

/// A hex character is never a separator, a newline, or a NUL.
pub proof fn lemma_hex_char_plain(b: u8)
    requires
        is_hex_char(b),
    ensures
        b != 10 && b != 32 && b != 0,
{
}

/// Relies on `hex::encode`: two lowercase hex digits per input byte, high
/// nibble first.
#[verifier::external_body]
pub fn hex_lower(data: &[u8]) -> (r: Vec<u8>)
    ensures
        r@ == hex_of(data@),
{
    hex::encode(data).into_bytes()
}

/// The object id of a serialized object: the lowercase hex rendering of its
/// SHA-1 digest.
pub open spec fn digest_hex(data: Seq<u8>) -> Seq<u8> {
    hex_of(sha1_of(data))
}

/// Hash a serialized object, rendering the digest as lowercase hex.
pub fn hash_file(input: &[u8]) -> (r: Vec<u8>)
    ensures
        r@ == digest_hex(input@),
        r@.len() == 40,
        forall|i: int| 0 <= i < r@.len() ==> is_hex_char(#[trigger] r@[i]),
{
    let d = sha1_digest(input);
    let r = hex_lower(d.as_slice());
    proof {
        lemma_hex_of_chars(d@);
    }
    r
}

/// `deflate_of(data)` stands for the DEFLATE stream that the encoder at the
/// highest compression level produces for `data`.
pub uninterp spec fn deflate_of(data: Seq<u8>) -> Seq<u8>;

/// Relies on `flate2::write::DeflateEncoder` at `Compression::best()` over
/// a `Vec` sink: the compressed bytes are a pure function of the input
/// bytes, and the call cannot fail — the encoder surfaces errors only from
/// the underlying writer, and writing to a `Vec` never fails.
#[verifier::external_body]
pub fn compress_object_content(data: &[u8]) -> (r: Option<Vec<u8>>)
    ensures
        r is Some,
        r matches Some(v) ==> v@ == deflate_of(data@),
{
    let mut e = flate2::write::DeflateEncoder::new(Vec::new(), flate2::Compression::best());
    if e.write_all(data).is_err() {
        return None;
    }
    e.finish().ok()
}

/// Relies on `flate2::read::DeflateDecoder`: decompression is lossless, so
/// decoding the encoder's output gives back exactly the original bytes.
#[verifier::external_body]
pub fn decompress_object_content(data: &[u8]) -> (r: Option<Vec<u8>>)
    ensures
        r is None ==> forall|orig: Seq<u8>| data@ != deflate_of(orig),
        r matches Some(v) ==> forall|orig: Seq<u8>| data@ == deflate_of(orig) ==> v@ == orig,
{
    let mut d = flate2::read::DeflateDecoder::new(data);
    let mut out: Vec<u8> = Vec::new();
    match d.read_to_end(&mut out) {
        Ok(_) => Some(out),
        Err(_) => None,
    }
}

/// The bytes chrono's `"%d/%m/%Y %T"` rendering is made of: decimal
/// digits, the two separators, a space, and a year sign on years outside
/// four digits.
pub open spec fn is_date_char(b: u8) -> bool {
    (48 <= b <= 57) || b == 47 || b == 58 || b == 32 || b == 43 || b == 45
}

/// Relies on `chrono`'s UTC formatting with `"%d/%m/%Y %T"`: the rendered
/// timestamp holds only digits, `/`, `:`, spaces, and a possible year
/// sign — so never a newline and never a NUL byte.
#[verifier::external_body]
pub fn get_current_time() -> (r: Vec<u8>)
    ensures
        forall|i: int| 0 <= i < r@.len() ==> is_date_char(#[trigger] r@[i]),
        forall|i: int| 0 <= i < r@.len() ==> r@[i] != 10 && r@[i] != 0,
{
    let system_time = std::time::SystemTime::now();
    let datetime: chrono::DateTime<chrono::offset::Utc> = system_time.into();
    datetime.format("%d/%m/%Y %T").to_string().into_bytes()
}

} // verus!
