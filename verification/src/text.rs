//! Text helpers for diagnostics and header labels: decimal rendering of
//! counts, and the one bridge from raw cell bytes to `String`.

use vstd::prelude::*;

verus! {

/// The decimal digit bytes of `n`, most significant first.
pub open spec fn spec_decimal_digits(n: nat) -> Seq<u8>
    decreases n,
{
    if n < 10 {
        seq![(48 + n) as u8]
    } else {
        spec_decimal_digits(n / 10).push((48 + n % 10) as u8)
    }
}

/// The decimal rendering of `n` as characters, most significant first.
pub open spec fn spec_decimal(n: nat) -> Seq<char> {
    spec_decimal_digits(n).map_values(|b: u8| b as char)
}

pub proof fn lemma_decimal_digits_ascii(n: nat)
    ensures
        forall|i: int|
            0 <= i < spec_decimal_digits(n).len() ==> 48 <= #[trigger] spec_decimal_digits(n)[i]
                <= 57,
    decreases n,
{
    if n >= 10 {
        lemma_decimal_digits_ascii(n / 10);
        assert forall|i: int| 0 <= i < spec_decimal_digits(n).len() implies 48
            <= #[trigger] spec_decimal_digits(n)[i] <= 57 by {
            if i < spec_decimal_digits(n).len() - 1 {
                assert(spec_decimal_digits(n)[i] == spec_decimal_digits(n / 10)[i]);
            } else {
                assert(spec_decimal_digits(n)[i] == (48 + n % 10) as u8);
            }
        }
    } else {
        assert(spec_decimal_digits(n)[0] == (48 + n) as u8);
    }
}

/// Renders `n` in decimal, most significant digit first.
pub fn decimal_bytes(n: u64) -> (v: Vec<u8>)
    ensures
        v@ == spec_decimal_digits(n as nat),
    decreases n,
{
    if n < 10 {
        let mut v: Vec<u8> = Vec::new();
        v.push(48 + n as u8);
        proof {
            assert(v@ =~= spec_decimal_digits(n as nat));
        }
        v
    } else {
        let mut v = decimal_bytes(n / 10);
        v.push(48 + (n % 10) as u8);
        v
    }
}

/// Relies on std's `String::from_utf8`: returns the string whose UTF-8
/// encoding is the given bytes, or nothing when the bytes are not valid
/// UTF-8.  UTF-8 is ASCII-compatible, so on bytes below 128 the decoding
/// maps each byte to the character of the same value.
#[verifier::external_body]
pub fn string_from_bytes(bytes: &Vec<u8>) -> (r: Option<String>)
    ensures
        r is Some <==> vstd::utf8::valid_utf8(bytes@),
        r is Some ==> r.unwrap()@ == vstd::utf8::decode_utf8(bytes@),
        (forall|i: int| 0 <= i < bytes@.len() ==> bytes@[i] < 128) ==> (r is Some
            && r.unwrap()@.len() == bytes@.len() && (forall|i: int|
            0 <= i < bytes@.len() ==> r.unwrap()@[i] == bytes@[i] as char)),
{
    match String::from_utf8(bytes.clone()) {
        Ok(s) => Some(s),
        Err(_) => None,
    }
}

/// Renders a count in decimal as a `String`.
pub fn usize_to_string(n: usize) -> (s: String)
    ensures
        s@ == spec_decimal(n as nat),
{
    let bytes = decimal_bytes(n as u64);
    proof {
        lemma_decimal_digits_ascii(n as nat);
    }
    let r = string_from_bytes(&bytes);
    match r {
        Some(s) => {
            proof {
                assert(s@ =~= spec_decimal(n as nat));
            }
            s
        },
        None => {
            proof {
                assert(false);
            }
            String::new()
        },
    }
}

} // verus!
