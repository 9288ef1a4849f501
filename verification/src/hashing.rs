//! Full-file digest computation.
//!
//! The digest of a file is a lowercase hexadecimal string over the file's
//! byte content. Three algorithms are offered: two 256-bit digests (64 hex
//! characters) and one fast 64-bit digest (16 hex characters).

use vstd::prelude::*;
use sha2::Digest;

verus! {

/// Selector for the full-file digest algorithm.
///
/// `SHA256` and `Blake3` are 256-bit digests; `XxHash` is a fast
/// non-cryptographic 64-bit digest. Any algorithm, applied consistently
/// within one run, yields exact byte-for-byte duplicate detection; they
/// differ only in speed and cryptographic strength, observable through
/// their digest lengths.
#[derive(Debug, Clone, Copy, PartialEq, Eq, Structural)]
pub enum HashAlgorithm {
    SHA256,
    Blake3,
    XxHash,
}

/// The 32-byte digest that `sha2::Sha256` computes for a byte sequence.
/// The result depends on the bytes alone.
pub uninterp spec fn sha256_of(data: Seq<u8>) -> Seq<u8>;

/// The 32-byte digest that `blake3::hash` computes for a byte sequence.
/// The result depends on the bytes alone.
pub uninterp spec fn blake3_of(data: Seq<u8>) -> Seq<u8>;

/// The 64-bit digest that `xxhash_rust::xxh3::xxh3_64` computes for a byte
/// sequence. The result depends on the bytes alone.
pub uninterp spec fn xxh3_of(data: Seq<u8>) -> u64;

/// Relies on `sha2::Sha256::digest`: a SHA-256 digest is always 32 bytes
/// (`Sha256` implements `Digest` with a 256-bit output) and is a pure
/// function of the input bytes.
#[verifier::external_body]
fn sha256_digest(data: &[u8]) -> (r: Vec<u8>)
    ensures
        r@ == sha256_of(data@),
        r@.len() == 32,
{
    sha2::Sha256::digest(data).to_vec()
}

/// Relies on `blake3::hash`: a BLAKE3 digest is always 32 bytes
/// (`blake3::OUT_LEN`) and is a pure function of the input bytes.
#[verifier::external_body]
fn blake3_digest(data: &[u8]) -> (r: Vec<u8>)
    ensures
        r@ == blake3_of(data@),
        r@.len() == 32,
{
    blake3::hash(data).as_bytes().to_vec()
}

/// Relies on `xxhash_rust::xxh3::xxh3_64`: a 64-bit digest that is a pure
/// function of the input bytes.
#[verifier::external_body]
fn xxh3_digest(data: &[u8]) -> (r: u64)
    ensures
        r == xxh3_of(data@),
{
    xxhash_rust::xxh3::xxh3_64(data)
}

/// The lowercase hexadecimal character for a value below 16.
pub open spec fn hex_digit(n: nat) -> char {
    if n == 0 {
        '0'
    } else if n == 1 {
        '1'
    } else if n == 2 {
        '2'
    } else if n == 3 {
        '3'
    } else if n == 4 {
        '4'
    } else if n == 5 {
        '5'
    } else if n == 6 {
        '6'
    } else if n == 7 {
        '7'
    } else if n == 8 {
        '8'
    } else if n == 9 {
        '9'
    } else if n == 10 {
        'a'
    } else if n == 11 {
        'b'
    } else if n == 12 {
        'c'
    } else if n == 13 {
        'd'
    } else if n == 14 {
        'e'
    } else {
        'f'
    }
}

/// The two lowercase hexadecimal characters of one byte, high nibble first.
pub open spec fn hex_of_byte(b: u8) -> Seq<char> {
    seq![hex_digit((b / 16) as nat), hex_digit((b % 16) as nat)]
}

/// The lowercase hexadecimal encoding of a byte sequence: two characters
/// per byte, in byte order.
pub open spec fn hex_of_bytes(data: Seq<u8>) -> Seq<char>
    decreases data.len(),
{
    if data.len() == 0 {
        Seq::empty()
    } else {
        hex_of_bytes(data.drop_last()) + hex_of_byte(data.last())
    }
}

pub proof fn lemma_hex_of_bytes_len(data: Seq<u8>)
    ensures
        hex_of_bytes(data).len() == 2 * data.len(),
    decreases data.len(),
{
    if data.len() > 0 {
        lemma_hex_of_bytes_len(data.drop_last());
    }
}

/// Holds exactly of the sixteen lowercase hexadecimal characters.
pub open spec fn is_lower_hex_char(c: char) -> bool {
    ||| c == '0'
    ||| c == '1'
    ||| c == '2'
    ||| c == '3'
    ||| c == '4'
    ||| c == '5'
    ||| c == '6'
    ||| c == '7'
    ||| c == '8'
    ||| c == '9'
    ||| c == 'a'
    ||| c == 'b'
    ||| c == 'c'
    ||| c == 'd'
    ||| c == 'e'
    ||| c == 'f'
}

pub proof fn lemma_hex_of_bytes_chars(data: Seq<u8>)
    ensures
        forall|i: int|
            0 <= i < hex_of_bytes(data).len() ==> is_lower_hex_char(#[trigger] hex_of_bytes(data)[i]),
    decreases data.len(),
{
    if data.len() > 0 {
        lemma_hex_of_bytes_chars(data.drop_last());
        let pre = hex_of_bytes(data.drop_last());
        assert forall|i: int|
            0 <= i < hex_of_bytes(data).len() implies is_lower_hex_char(
            #[trigger] hex_of_bytes(data)[i],
        ) by {
            if i < pre.len() {
                assert(hex_of_bytes(data)[i] == pre[i]);
            } else {
                assert(hex_of_bytes(data)[i] == hex_of_byte(data.last())[i - pre.len()]);
            }
        }
    }
}

fn hex_digit_str(d: u8) -> (r: &'static str)
    requires
        d < 16,
    ensures
        r@ == seq![hex_digit(d as nat)],
{
    let r: &'static str = if d == 0 {
        "0"
    } else if d == 1 {
        "1"
    } else if d == 2 {
        "2"
    } else if d == 3 {
        "3"
    } else if d == 4 {
        "4"
    } else if d == 5 {
        "5"
    } else if d == 6 {
        "6"
    } else if d == 7 {
        "7"
    } else if d == 8 {
        "8"
    } else if d == 9 {
        "9"
    } else if d == 10 {
        "a"
    } else if d == 11 {
        "b"
    } else if d == 12 {
        "c"
    } else if d == 13 {
        "d"
    } else if d == 14 {
        "e"
    } else {
        "f"
    };
    proof {
        reveal_strlit("0");
        reveal_strlit("1");
        reveal_strlit("2");
        reveal_strlit("3");
        reveal_strlit("4");
        reveal_strlit("5");
        reveal_strlit("6");
        reveal_strlit("7");
        reveal_strlit("8");
        reveal_strlit("9");
        reveal_strlit("a");
        reveal_strlit("b");
        reveal_strlit("c");
        reveal_strlit("d");
        reveal_strlit("e");
        reveal_strlit("f");
        assert(r@ =~= seq![hex_digit(d as nat)]);
    }
    r
}

/// Encodes a byte sequence as its lowercase hexadecimal string.
pub fn bytes_to_hex(data: &[u8]) -> (r: String)
    ensures
        r@ == hex_of_bytes(data@),
{
    let mut r = String::new();
    let mut i: usize = 0;
    while i < data.len()
        invariant
            i <= data@.len(),
            r@ == hex_of_bytes(data@.subrange(0, i as int)),
        decreases data@.len() - i,
    {
        let b = data[i];
        r.append(hex_digit_str(b / 16));
        r.append(hex_digit_str(b % 16));
        proof {
            assert(data@.subrange(0, i as int + 1).drop_last() =~= data@.subrange(0, i as int));
            assert(r@ =~= hex_of_bytes(data@.subrange(0, i as int + 1)));
        }
        i = i + 1;
    }
    proof {
        assert(data@.subrange(0, data@.len() as int) =~= data@);
    }
    r
}

/// The eight bytes of a 64-bit value, most significant first.
pub open spec fn u64_be_bytes(n: u64) -> Seq<u8> {
    seq![
        (n / 0x100000000000000) as u8,
        ((n / 0x1000000000000) % 256) as u8,
        ((n / 0x10000000000) % 256) as u8,
        ((n / 0x100000000) % 256) as u8,
        ((n / 0x1000000) % 256) as u8,
        ((n / 0x10000) % 256) as u8,
        ((n / 0x100) % 256) as u8,
        (n % 256) as u8,
    ]
}

fn u64_to_be_bytes(n: u64) -> (r: Vec<u8>)
    ensures
        r@ == u64_be_bytes(n),
{
    let mut r: Vec<u8> = Vec::new();
    r.push((n / 0x100000000000000) as u8);
    r.push(((n / 0x1000000000000) % 256) as u8);
    r.push(((n / 0x10000000000) % 256) as u8);
    r.push(((n / 0x100000000) % 256) as u8);
    r.push(((n / 0x1000000) % 256) as u8);
    r.push(((n / 0x10000) % 256) as u8);
    r.push(((n / 0x100) % 256) as u8);
    r.push((n % 256) as u8);
    proof {
        assert(r@ =~= u64_be_bytes(n));
    }
    r
}

/// The digest string of a file's byte content under an algorithm: the
/// lowercase hexadecimal encoding of the algorithm's raw digest.
pub open spec fn spec_digest(algo: HashAlgorithm, data: Seq<u8>) -> Seq<char> {
    match algo {
        HashAlgorithm::SHA256 => hex_of_bytes(sha256_of(data)),
        HashAlgorithm::Blake3 => hex_of_bytes(blake3_of(data)),
        HashAlgorithm::XxHash => hex_of_bytes(u64_be_bytes(xxh3_of(data))),
    }
}

/// Computes the digest string of a file's full byte content under the
/// chosen algorithm.
///
/// The 256-bit algorithms yield a 64-character string, the fast algorithm
/// a 16-character string, and every character is a lowercase hexadecimal
/// digit.
pub fn compute_hash(data: &[u8], algo: HashAlgorithm) -> (r: String)
    ensures
        r@ == spec_digest(algo, data@),
        algo == HashAlgorithm::SHA256 || algo == HashAlgorithm::Blake3 ==> r@.len() == 64,
        algo == HashAlgorithm::XxHash ==> r@.len() == 16,
        forall|i: int| 0 <= i < r@.len() ==> is_lower_hex_char(#[trigger] r@[i]),
{
    match algo {
        HashAlgorithm::SHA256 => {
            let d = sha256_digest(data);
            let r = bytes_to_hex(d.as_slice());
            proof {
                lemma_hex_of_bytes_len(sha256_of(data@));
                lemma_hex_of_bytes_chars(sha256_of(data@));
            }
            r
        },
        HashAlgorithm::Blake3 => {
            let d = blake3_digest(data);
            let r = bytes_to_hex(d.as_slice());
            proof {
                lemma_hex_of_bytes_len(blake3_of(data@));
                lemma_hex_of_bytes_chars(blake3_of(data@));
            }
            r
        },
        HashAlgorithm::XxHash => {
            let d = xxh3_digest(data);
            let b = u64_to_be_bytes(d);
            let r = bytes_to_hex(b.as_slice());
            proof {
                lemma_hex_of_bytes_len(u64_be_bytes(xxh3_of(data@)));
                lemma_hex_of_bytes_chars(u64_be_bytes(xxh3_of(data@)));
            }
            r
        },
    }
}

/// Law: a digest depends only on the algorithm and the file's byte
/// content, never on the file's name or directory. Two files with
/// identical bytes receive equal digest strings under the same algorithm.
pub proof fn lemma_digest_depends_on_content_only(algo: HashAlgorithm, c1: Seq<u8>, c2: Seq<u8>)
    requires
        c1 == c2,
    ensures
        spec_digest(algo, c1) == spec_digest(algo, c2),
{
}

} // verus!
