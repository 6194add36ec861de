//! Digest and encoding helpers: trusted wrappers around the outside digest
//! and base58 crates, and a verified lowercase-hex encoder.

use vstd::prelude::*;
use vstd::string::StringExecFns;

verus! {

/// The SHA-256 digest of a byte string, as ring computes it.
pub uninterp spec fn sha256_of(data: Seq<u8>) -> Seq<u8>;

/// The RIPEMD-160 digest of a byte string, as rust-crypto computes it.
pub uninterp spec fn ripemd160_of(data: Seq<u8>) -> Seq<u8>;

/// The base58 rendering of a byte string, as bs58 computes it.
pub uninterp spec fn base58_of(data: Seq<u8>) -> Seq<char>;

/// What bs58 decodes a string to: `None` where the string is not valid
/// base58.
pub uninterp spec fn bs58_decoded(s: Seq<char>) -> Option<Seq<u8>>;

/// Relies on ring::digest::Context with SHA256: the digest depends on the
/// input bytes alone and is 32 bytes long.
#[verifier::external_body]
pub fn sha256_digest(data: &[u8]) -> (r: Vec<u8>)
    ensures
        r@ == sha256_of(data@),
        r@.len() == 32,
{
    let mut context = ring::digest::Context::new(&ring::digest::SHA256);
    context.update(data);
    let digest = context.finish();
    digest.as_ref().to_vec()
}

/// Relies on crypto::ripemd160::Ripemd160: the digest depends on the input
/// bytes alone and is 20 bytes long.
#[verifier::external_body]
pub fn ripemd160_digest(data: &[u8]) -> (r: Vec<u8>)
    ensures
        r@ == ripemd160_of(data@),
        r@.len() == 20,
{
    let mut ripemd160 = crypto::ripemd160::Ripemd160::new();
    crypto::digest::Digest::input(&mut ripemd160, data);
    let mut buf: Vec<u8> = vec![0u8; 20];
    crypto::digest::Digest::result(&mut ripemd160, &mut buf);
    buf
}

/// Relies on ring::signature::EcdsaKeyPair::generate_pkcs8 with the P-256
/// fixed-signing algorithm: the result is fresh random key material, so
/// nothing is promised of it.
#[verifier::external_body]
pub fn new_key_pair() -> Vec<u8> {
    let rng = ring::rand::SystemRandom::new();
    let pkcs8 = ring::signature::EcdsaKeyPair::generate_pkcs8(
        &ring::signature::ECDSA_P256_SHA256_FIXED_SIGNING,
        &rng,
    ).unwrap();
    pkcs8.as_ref().to_vec()
}

/// Relies on bs58::encode: the rendering depends on the input bytes alone,
/// and bs58::decode inverts it, so the rendering decodes back to the same
/// bytes.
#[verifier::external_body]
pub fn base58_encode(data: &[u8]) -> (r: String)
    ensures
        r@ == base58_of(data@),
        bs58_decoded(r@) == Some(data@),
{
    bs58::encode(data).into_string()
}

/// Relies on bs58::decode: the outcome depends on the input string alone,
/// and decoding fails exactly on strings that are not valid base58.
#[verifier::external_body]
pub(crate) fn base58_decode(s: &str) -> (r: Option<Vec<u8>>)
    ensures
        r is Some <==> bs58_decoded(s@) is Some,
        r is Some ==> r->0@ == bs58_decoded(s@)->0,
{
    match bs58::decode(s).into_vec() {
        Ok(v) => Some(v),
        Err(_) => None,
    }
}

/// The lowercase hex character for one value below 16.
pub open spec fn hex_digit(n: u8) -> char {
    if n == 0 {
        '0'
    } else if n == 1 {
        '1'
    } else if n == 2 {
        '2'
    } else if n == 3 {
        '3'
    } else if n == 4 {
        '4'
    } else if n == 5 {
        '5'
    } else if n == 6 {
        '6'
    } else if n == 7 {
        '7'
    } else if n == 8 {
        '8'
    } else if n == 9 {
        '9'
    } else if n == 10 {
        'a'
    } else if n == 11 {
        'b'
    } else if n == 12 {
        'c'
    } else if n == 13 {
        'd'
    } else if n == 14 {
        'e'
    } else {
        'f'
    }
}

/// Two hex characters for one byte, high nibble first.
pub open spec fn spec_hex_pair(b: u8) -> Seq<char> {
    seq![hex_digit(b / 16), hex_digit(b % 16)]
}

/// The hex characters of a byte string, without any prefix.
pub open spec fn spec_hex_body(data: Seq<u8>) -> Seq<char>
    decreases data.len(),
{
    if data.len() == 0 {
        Seq::empty()
    } else {
        spec_hex_pair(data[0]) + spec_hex_body(data.skip(1))
    }
}

/// The display form of a byte string: `0x` followed by two lowercase hex
/// characters per byte, with a literal `0` standing for the empty string.
pub open spec fn spec_hex_encode(data: Seq<u8>) -> Seq<char> {
    if data.len() == 0 {
        seq!['0', 'x', '0']
    } else {
        seq!['0', 'x'] + spec_hex_body(data)
    }
}

pub proof fn lemma_hex_body_len(data: Seq<u8>)
    ensures
        spec_hex_body(data).len() == 2 * data.len(),
    decreases data.len(),
{
    if data.len() > 0 {
        lemma_hex_body_len(data.skip(1));
    }
}

pub proof fn lemma_hex_body_ascii(data: Seq<u8>)
    ensures
        vstd::utf8::is_ascii_chars(spec_hex_body(data)),
    decreases data.len(),
{
    if data.len() > 0 {
        lemma_hex_body_ascii(data.skip(1));
        assert(spec_hex_body(data) == spec_hex_pair(data[0]) + spec_hex_body(data.skip(1)));
    }
}

/// The display form is always ASCII, and its length is two characters more
/// than twice the byte count (or three for the empty string).
pub proof fn lemma_hex_encode_shape(data: Seq<u8>)
    ensures
        vstd::utf8::is_ascii_chars(spec_hex_encode(data)),
        data.len() > 0 ==> spec_hex_encode(data).len() == 2 + 2 * data.len(),
        data.len() == 0 ==> spec_hex_encode(data).len() == 3,
{
    lemma_hex_body_len(data);
    lemma_hex_body_ascii(data);
}

proof fn lemma_hex_body_concat(a: Seq<u8>, b: Seq<u8>)
    ensures
        spec_hex_body(a + b) == spec_hex_body(a) + spec_hex_body(b),
    decreases a.len(),
{
    if a.len() == 0 {
        assert(a + b =~= b);
        assert(spec_hex_body(a) + spec_hex_body(b) =~= spec_hex_body(b));
    } else {
        lemma_hex_body_concat(a.skip(1), b);
        assert((a + b).skip(1) =~= a.skip(1) + b);
        assert(spec_hex_pair((a + b)[0]) + (spec_hex_body(a.skip(1)) + spec_hex_body(b)) =~= (
        spec_hex_pair(a[0]) + spec_hex_body(a.skip(1))) + spec_hex_body(b));
    }
}

proof fn lemma_hex_body_snoc(data: Seq<u8>, j: int)
    requires
        0 <= j < data.len(),
    ensures
        spec_hex_body(data.take(j + 1)) == spec_hex_body(data.take(j)) + spec_hex_pair(data[j]),
{
    assert(data.take(j + 1) =~= data.take(j) + seq![data[j]]);
    lemma_hex_body_concat(data.take(j), seq![data[j]]);
    let s = seq![data[j]];
    assert(s.skip(1) =~= Seq::<u8>::empty());
    assert(spec_hex_body(s) =~= spec_hex_pair(s[0]) + spec_hex_body(s.skip(1)));
    assert(spec_hex_body(s) =~= spec_hex_pair(data[j]));
}

fn hex_digit_str(n: u8) -> (r: &'static str)
    requires
        n < 16,
    ensures
        r@ == seq![hex_digit(n)],
{
    proof {
        reveal_strlit("0");
        reveal_strlit("1");
        reveal_strlit("2");
        reveal_strlit("3");
        reveal_strlit("4");
        reveal_strlit("5");
        reveal_strlit("6");
        reveal_strlit("7");
        reveal_strlit("8");
        reveal_strlit("9");
        reveal_strlit("a");
        reveal_strlit("b");
        reveal_strlit("c");
        reveal_strlit("d");
        reveal_strlit("e");
        reveal_strlit("f");
    }
    if n == 0 {
        "0"
    } else if n == 1 {
        "1"
    } else if n == 2 {
        "2"
    } else if n == 3 {
        "3"
    } else if n == 4 {
        "4"
    } else if n == 5 {
        "5"
    } else if n == 6 {
        "6"
    } else if n == 7 {
        "7"
    } else if n == 8 {
        "8"
    } else if n == 9 {
        "9"
    } else if n == 10 {
        "a"
    } else if n == 11 {
        "b"
    } else if n == 12 {
        "c"
    } else if n == 13 {
        "d"
    } else if n == 14 {
        "e"
    } else {
        "f"
    }
}

/// Renders a byte string in its display form.
pub fn hex_encode(data: &Vec<u8>) -> (r: String)
    ensures
        r@ == spec_hex_encode(data@),
{
    let mut hex = String::from_str("0x");
    proof {
        reveal_strlit("0x");
        assert(hex@ =~= seq!['0', 'x']);
    }
    if data.len() == 0 {
        hex.append(hex_digit_str(0));
        proof {
            assert(hex@ =~= seq!['0', 'x', '0']);
        }
        return hex;
    }
    let mut i: usize = 0;
    proof {
        assert(data@.take(0) =~= Seq::<u8>::empty());
        assert(hex@ =~= seq!['0', 'x'] + spec_hex_body(data@.take(0)));
    }
    while i < data.len()
        invariant
            i <= data@.len(),
            hex@ == seq!['0', 'x'] + spec_hex_body(data@.take(i as int)),
        decreases data@.len() - i,
    {
        let b = data[i];
        hex.append(hex_digit_str(b / 16));
        hex.append(hex_digit_str(b % 16));
        proof {
            lemma_hex_body_snoc(data@, i as int);
            assert(hex@ =~= seq!['0', 'x'] + spec_hex_body(data@.take(i + 1)));
        }
        i = i + 1;
    }
    proof {
        assert(data@.take(data@.len() as int) =~= data@);
    }
    hex
}

} // verus!
