//! The drift signature: a short number that changes when the set of names changes.

use crate::order::{sorted_distinct, sorted_listing};
use crate::text::{push_text, texts};
use vstd::prelude::*;
use vstd::slice::slice_subrange;
use vstd::utf8::encode_utf8;

verus! {

/// The names of `list`, each followed by a newline.
pub open spec fn listing_text(list: Seq<Seq<char>>) -> Seq<char>
    decreases list.len(),
{
    if list.len() == 0 {
        Seq::empty()
    } else {
        listing_text(list.drop_last()) + list.last() + seq!['\n']
    }
}

/// The MD5 digest of `data`.
pub uninterp spec fn md5_digest(data: Seq<u8>) -> Seq<u8>;

/// `md5::compute`: the digest of `data`, which has sixteen bytes.
#[verifier::external_body]
fn md5_of(data: &[u8]) -> (digest: Vec<u8>)
    ensures
        digest@ == md5_digest(data@),
        digest@.len() == 16,
{
    md5::compute(data).0.to_vec()
}

/// The character that writes the hexadecimal digit `d`, in lower case.
pub open spec fn hex_digit(d: nat) -> char {
    if d == 10 {
        'a'
    } else if d == 11 {
        'b'
    } else if d == 12 {
        'c'
    } else if d == 13 {
        'd'
    } else if d == 14 {
        'e'
    } else if d == 15 {
        'f'
    } else {
        crate::text::digit_char(d)
    }
}

/// `data` in hexadecimal: two lower-case digits for each byte, the high one first.
pub open spec fn hex_text(data: Seq<u8>) -> Seq<char>
    decreases data.len(),
{
    if data.len() == 0 {
        Seq::empty()
    } else {
        hex_text(data.drop_last()).push(hex_digit(data.last() as nat / 16)).push(
            hex_digit(data.last() as nat % 16),
        )
    }
}

/// `hex::encode`: `data` in lower-case hexadecimal.
#[verifier::external_body]
fn hex_encode(data: &[u8]) -> (s: String)
    ensures
        s@ == hex_text(data@),
{
    hex::encode(data)
}

/// The value of the hexadecimal digit `c`, of either case.
pub open spec fn hex_digit_value(c: char) -> Option<nat> {
    if '0' <= c <= '9' {
        Some((c as nat - '0' as nat) as nat)
    } else if 'a' <= c <= 'f' {
        Some((c as nat - 'a' as nat + 10) as nat)
    } else if 'A' <= c <= 'F' {
        Some((c as nat - 'A' as nat + 10) as nat)
    } else {
        None
    }
}

/// The number that the hexadecimal digits `s` write, if they all are digits.
pub open spec fn hex_number(s: Seq<char>) -> Option<nat>
    decreases s.len(),
{
    if s.len() == 0 {
        Some(0)
    } else {
        match (hex_number(s.drop_last()), hex_digit_value(s.last())) {
            (Some(high), Some(low)) => Some(high * 16 + low),
            _ => None,
        }
    }
}

/// The number that the bytes `data` write in base 256, the first byte counting most.
pub open spec fn big_endian(data: Seq<u8>) -> nat
    decreases data.len(),
{
    if data.len() == 0 {
        0
    } else {
        big_endian(data.drop_last()) * 256 + data.last() as nat
    }
}

/// Read as a number, the hexadecimal text of some bytes is the number the bytes write.
pub proof fn lemma_hex_number_of_hex_text(data: Seq<u8>)
    ensures
        hex_number(hex_text(data)) == Some(big_endian(data)),
    decreases data.len(),
{
    if data.len() > 0 {
        lemma_hex_number_of_hex_text(data.drop_last());
        let b = data.last() as nat;
        let inner = hex_text(data.drop_last());
        let mid = inner.push(hex_digit(b / 16));
        let full = mid.push(hex_digit(b % 16));
        assert(full.drop_last() =~= mid);
        assert(mid.drop_last() =~= inner);
        assert(hex_digit_value(hex_digit(b / 16)) == Some(b / 16));
        assert(hex_digit_value(hex_digit(b % 16)) == Some(b % 16));
        assert(hex_number(mid) == Some(big_endian(data.drop_last()) * 16 + b / 16));
        assert((big_endian(data.drop_last()) * 16 + b / 16) * 16 + b % 16 == big_endian(
            data.drop_last(),
        ) * 256 + b);
    }
}

/// Three bytes write a number below 2^24.
pub proof fn lemma_three_bytes_bounded(data: Seq<u8>)
    requires
        data.len() == 3,
    ensures
        big_endian(data) == data[0] as nat * 65536 + data[1] as nat * 256 + data[2] as nat,
        big_endian(data) < 0x100_0000,
{
    let two = data.drop_last();
    let one = two.drop_last();
    assert(one.drop_last().len() == 0);
    assert(big_endian(one.drop_last()) == 0);
    assert(big_endian(one) == data[0] as nat);
    assert(big_endian(two) == data[0] as nat * 256 + data[1] as nat);
}

/// Reads `s` as a hexadecimal number: `None` if a character is no hexadecimal digit or
/// the number does not fit.
pub fn parse_hex(s: &str) -> (r: Option<u32>)
    ensures
        match r {
            Some(v) => hex_number(s@) == Some(v as nat),
            None => hex_number(s@) matches Some(v) ==> v > u32::MAX,
        },
{
    let mut value: u32 = 0;
    for c in it: s.chars()
        invariant
            it.seq() == s@,
            hex_number(s@.take(it.index() as int)) == Some(value as nat),
    {
        let ghost i = it.index() as int;
        proof {
            assert(s@.take(i + 1).drop_last() =~= s@.take(i));
            assert(s@.take(i + 1).last() == c);
        }
        let low: u32 = if '0' <= c && c <= '9' {
            c as u32 - '0' as u32
        } else if 'a' <= c && c <= 'f' {
            c as u32 - 'a' as u32 + 10
        } else if 'A' <= c && c <= 'F' {
            c as u32 - 'A' as u32 + 10
        } else {
            proof {
                lemma_hex_number_prefix(s@, i + 1);
            }
            return None;
        };
        if value > (u32::MAX - low) / 16 {
            proof {
                lemma_hex_number_prefix(s@, i + 1);
            }
            return None;
        }
        value = value * 16 + low;
    }
    proof {
        assert(s@.take(s@.len() as int) =~= s@);
    }
    Some(value)
}

/// Digits read as a number write at least what a prefix of them writes, and are no
/// number where a prefix is none.
proof fn lemma_hex_number_prefix(s: Seq<char>, n: int)
    requires
        0 <= n <= s.len(),
    ensures
        hex_number(s.take(n)) is None ==> hex_number(s) is None,
        hex_number(s) matches Some(v) ==> hex_number(s.take(n)).unwrap() <= v,
    decreases s.len() - n,
{
    if n == s.len() {
        assert(s.take(n) =~= s);
    } else {
        lemma_hex_number_prefix(s, n + 1);
        assert(s.take(n + 1).drop_last() =~= s.take(n));
    }
}

/// The signature that the digest `digest` gives: its first three bytes, read as one
/// number. This is the number that the six hexadecimal digits of those bytes write.
pub open spec fn digest_signature(digest: Seq<u8>) -> nat {
    big_endian(digest.take(3))
}

/// The number that the digest `digest` gives: its first three bytes are written in
/// hexadecimal, and the six digits are read as one number.
pub fn digest_number(digest: &[u8]) -> (n: u32)
    requires
        digest@.len() >= 3,
    ensures
        n == digest_signature(digest@),
        n < 0x100_0000,
{
    let head = slice_subrange(digest, 0, 3);
    let hex = hex_encode(head);
    proof {
        assert(head@ =~= digest@.take(3));
        lemma_hex_number_of_hex_text(head@);
        lemma_three_bytes_bounded(head@);
    }
    match parse_hex(hex.as_str()) {
        Some(n) => n,
        None => {
            proof {
                assert(false);
            }
            0
        },
    }
}

/// The drift signature of the set of names `names`: the names are listed in ascending
/// order, each followed by a newline, that text is hashed, and the digest gives the
/// number. It depends on nothing but the set.
pub open spec fn signature_of(names: Set<Seq<char>>) -> nat {
    digest_signature(md5_digest(encode_utf8(listing_text(sorted_listing(names)))))
}

/// The drift signature of `names`, in which a name may stand more than once and in
/// any place.
pub fn names_signature(names: &Vec<String>) -> (signature: u32)
    ensures
        signature == signature_of(texts(names@).to_set()),
        signature < 0x100_0000,
{
    let sorted = sorted_distinct(names);
    let mut names_text = String::new();
    let n = sorted.len();
    let mut i: usize = 0;
    while i < n
        invariant
            n == sorted@.len(),
            i <= n,
            names_text@ == listing_text(texts(sorted@).take(i as int)),
        decreases n - i,
    {
        let ghost before = names_text@;
        push_text(&mut names_text, sorted[i].as_str());
        names_text.push('\n');
        proof {
            let list = texts(sorted@);
            assert(list.take(i + 1).drop_last() =~= list.take(i as int));
            assert(list.take(i + 1).last() == sorted@[i as int]@);
            assert(names_text@ =~= before + sorted@[i as int]@ + seq!['\n']);
        }
        i += 1;
    }
    proof {
        assert(texts(sorted@).take(n as int) =~= texts(sorted@));
    }
    let digest = md5_of(names_text.as_str().as_bytes());
    digest_number(digest.as_slice())
}

} // verus!
