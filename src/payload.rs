use vstd::prelude::*;

verus! {

/// The hex selector of the one method that counts as a public call in a payload.
pub const PUBLIC_METHOD_SELECTOR: &'static str = "6a627842000000000000000000000000";

/// `c` is one of `0-9`, `a-f`, `A-F`.
pub open spec fn is_hex_digit(c: char) -> bool {
    (48 <= c as u32 <= 57) || (97 <= c as u32 <= 102) || (65 <= c as u32 <= 70)
}

/// The value of a hex digit.
pub open spec fn hex_digit_value(c: char) -> int {
    if 48 <= c as u32 <= 57 {
        c as u32 - 48
    } else if 97 <= c as u32 <= 102 {
        c as u32 - 87
    } else {
        c as u32 - 55
    }
}

/// Text that decodes as hex: an even number of hex digits.
pub open spec fn is_hex_text(s: Seq<char>) -> bool {
    s.len() % 2 == 0 && forall|i: int| 0 <= i < s.len() ==> is_hex_digit(#[trigger] s[i])
}

/// The bytes that hex text stands for, two digits per byte, high digit first.
pub open spec fn hex_bytes(s: Seq<char>) -> Seq<u8> {
    Seq::new(
        s.len() / 2,
        |i: int| (hex_digit_value(s[2 * i]) * 16 + hex_digit_value(s[2 * i + 1])) as u8,
    )
}

/// The bytes of `s` in reverse order.
pub open spec fn reversed(s: Seq<u8>) -> Seq<u8> {
    Seq::new(s.len(), |i: int| s[s.len() - 1 - i])
}

/// `needle` occurs in `hay` as a contiguous run.
pub open spec fn contains_text(hay: Seq<char>, needle: Seq<char>) -> bool {
    exists|i: int|
        0 <= i && i + needle.len() <= hay.len() && #[trigger] hay.subrange(i, i + needle.len())
            == needle
}

/// The payload names the public method selector.
pub open spec fn is_public_text(p: Seq<char>) -> bool {
    contains_text(p, PUBLIC_METHOD_SELECTOR@)
}

/// The payload that is signed for hex text: its Keccak-256 digest, reversed.
pub open spec fn signing_payload_of(text: Seq<char>) -> Seq<u8> {
    reversed(keccak256_of(hex_bytes(text)))
}

/// The Keccak-256 digest of a byte string.
pub uninterp spec fn keccak256_of(data: Seq<u8>) -> Seq<u8>;

#[verifier::external_type_specification]
#[verifier::external_body]
pub struct ExFromHexError(hex::FromHexError);

/// Relies on `hex::decode`: it accepts exactly an even number of hex digits of
/// either case and yields one byte per pair, high digit first.
#[verifier::external_body]
fn decode_hex(text: &str) -> (r: Result<Vec<u8>, hex::FromHexError>)
    ensures
        r is Ok <==> is_hex_text(text@),
        r matches Ok(bytes) ==> bytes@ == hex_bytes(text@),
{
    hex::decode(text)
}

/// Relies on `near_sdk::env::keccak256_array`: the 32-byte Keccak-256 digest
/// of the bytes.
#[verifier::external_body]
fn keccak256(data: &Vec<u8>) -> (r: Vec<u8>)
    ensures
        r@ == keccak256_of(data@),
        r@.len() == 32,
{
    near_sdk::env::keccak256_array(data.as_slice()).to_vec()
}

/// Reverses the byte order of a digest.
pub fn reverse_digest(digest: &Vec<u8>) -> (r: Vec<u8>)
    ensures
        r@ == reversed(digest@),
{
    let mut out: Vec<u8> = Vec::new();
    let mut i: usize = digest.len();
    while i > 0
        invariant
            i <= digest.len(),
            out@.len() == digest.len() - i,
            forall|j: int| 0 <= j < out@.len() ==> out@[j] == digest@[digest.len() - 1 - j],
        decreases i,
    {
        i = i - 1;
        out.push(digest[i]);
    }
    assert(out@ =~= reversed(digest@));
    out
}

/// Decodes hex text, hashes the bytes and reverses the digest. Fails exactly
/// when the text is not an even number of hex digits.
pub fn signing_payload(text: &str) -> (r: Option<Vec<u8>>)
    ensures
        r is Some <==> is_hex_text(text@),
        r matches Some(p) ==> p@ == signing_payload_of(text@) && p@.len() == 32,
{
    match decode_hex(text) {
        Ok(bytes) => {
            let digest = keccak256(&bytes);
            Some(reverse_digest(&digest))
        },
        Err(_) => None,
    }
}

fn chars_of(s: &str) -> (r: Vec<char>)
    ensures
        r@ == s@,
{
    let n = s.unicode_len();
    let mut out: Vec<char> = Vec::new();
    let mut i: usize = 0;
    while i < n
        invariant
            n == s@.len(),
            i <= n,
            out@ == s@.subrange(0, i as int),
        decreases n - i,
    {
        out.push(s.get_char(i));
        i = i + 1;
        assert(out@ =~= s@.subrange(0, i as int));
    }
    assert(out@ =~= s@);
    out
}

/// Whether `needle` occurs in `hay`.
pub fn contains_str(hay: &str, needle: &str) -> (r: bool)
    ensures
        r == contains_text(hay@, needle@),
{
    let h = chars_of(hay);
    let n = chars_of(needle);
    if n.len() > h.len() {
        assert(!contains_text(hay@, needle@));
        return false;
    }
    let last: usize = h.len() - n.len();
    let mut i: usize = 0;
    loop
        invariant
            h@ == hay@,
            n@ == needle@,
            h@.len() <= usize::MAX,
            last == h@.len() - n@.len(),
            i <= last,
            forall|k: int| 0 <= k < i ==> #[trigger] hay@.subrange(k, k + needle@.len()) != needle@,
        decreases last - i,
    {
        let mut j: usize = 0;
        while j < n.len() && h[i + j] == n[j]
            invariant
                h@ == hay@,
                n@ == needle@,
                h@.len() <= usize::MAX,
                i <= last,
                last == h@.len() - n@.len(),
                j <= n@.len(),
                forall|m: int| 0 <= m < j ==> h@[i + m] == n@[m],
            decreases n@.len() - j,
        {
            j = j + 1;
        }
        if j == n.len() {
            assert(hay@.subrange(i as int, i + needle@.len()) =~= needle@);
            return true;
        }
        assert(hay@.subrange(i as int, i + needle@.len())[j as int] != needle@[j as int]);
        if i == last {
            assert(!contains_text(hay@, needle@));
            return false;
        }
        i = i + 1;
    }
}

/// Whether the payload names the public method selector.
pub fn is_public_payload(payload: &str) -> (r: bool)
    ensures
        r == is_public_text(payload@),
{
    contains_str(payload, PUBLIC_METHOD_SELECTOR)
}

} // verus!
