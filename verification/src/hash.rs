//! The room identifier hash and its decimal rendering.

use vstd::prelude::*;
use vstd::string::*;

verus! {

/// The multiplicative string hash over a byte sequence: start at 5381 and,
/// for every byte `b`, replace `h` by `h * 33 + b`, both modulo 2^64.
pub open spec fn hash_bytes(bytes: Seq<u8>) -> u64
    decreases bytes.len(),
{
    if bytes.len() == 0 {
        5381
    } else {
        vstd::wrapping::u64_specs::wrapping_add(
            vstd::wrapping::u64_specs::wrapping_mul(hash_bytes(bytes.drop_last()), 33),
            bytes.last() as u64,
        )
    }
}

/// Hashes the UTF-8 bytes of `s`.
pub fn simple_hash(s: &str) -> (hash: u64)
    ensures
        hash == hash_bytes(s.spec_bytes()),
{
    let bytes = s.as_bytes();
    let mut hash: u64 = 5381;
    let mut i: usize = 0;
    while i < bytes.len()
        invariant
            i <= bytes@.len(),
            bytes@ == s.spec_bytes(),
            hash == hash_bytes(bytes@.take(i as int)),
        decreases bytes@.len() - i,
    {
        assert(bytes@.take(i as int + 1).drop_last() =~= bytes@.take(i as int));
        hash = hash.wrapping_mul(33).wrapping_add(bytes[i] as u64);
        i = i + 1;
    }
    assert(bytes@.take(i as int) =~= bytes@);
    hash
}


/// The character of a decimal digit.
pub open spec fn digit_char(d: nat) -> char
    recommends
        d < 10,
{
    (48 + d) as char
}

/// The decimal rendering of `n`, most significant digit first, with no leading zeros.
pub open spec fn decimal(n: nat) -> Seq<char>
    decreases n,
{
    if n < 10 {
        seq![digit_char(n)]
    } else {
        decimal(n / 10).push(digit_char(n % 10))
    }
}

/// The identifier of the room that wraps an endpoint with these UTF-8 bytes:
/// `room-` followed by the hash modulo 100000 in decimal.
pub open spec fn room_id(endpoint_bytes: Seq<u8>) -> Seq<char> {
    seq!['r', 'o', 'o', 'm', '-'] + decimal((hash_bytes(endpoint_bytes) % 100000) as nat)
}

/// A decimal rendering has one digit per power of ten up to the number.
proof fn lemma_decimal_len(n: nat)
    ensures
        decimal(n).len() >= 1,
        n < 100000 ==> decimal(n).len() <= 5,
        n < 10000 ==> decimal(n).len() <= 4,
        n < 1000 ==> decimal(n).len() <= 3,
        n < 100 ==> decimal(n).len() <= 2,
    decreases n,
{
    if n >= 10 {
        lemma_decimal_len(n / 10);
    }
}

/// A room identifier is `room-` followed by one to five decimal digits.
pub proof fn lemma_room_id_shape(endpoint_bytes: Seq<u8>)
    ensures
        6 <= room_id(endpoint_bytes).len() <= 10,
        room_id(endpoint_bytes).take(5) == seq!['r', 'o', 'o', 'm', '-'],
{
    let n = (hash_bytes(endpoint_bytes) % 100000) as nat;
    lemma_decimal_len(n);
    assert(room_id(endpoint_bytes).take(5) =~= seq!['r', 'o', 'o', 'm', '-']);
}

fn digit_str(d: u64) -> (s: &'static str)
    requires
        d < 10,
    ensures
        s@ == seq![digit_char(d as nat)],
{
    if d == 0 {
        proof { reveal_strlit("0"); }
        "0"
    } else if d == 1 {
        proof { reveal_strlit("1"); }
        "1"
    } else if d == 2 {
        proof { reveal_strlit("2"); }
        "2"
    } else if d == 3 {
        proof { reveal_strlit("3"); }
        "3"
    } else if d == 4 {
        proof { reveal_strlit("4"); }
        "4"
    } else if d == 5 {
        proof { reveal_strlit("5"); }
        "5"
    } else if d == 6 {
        proof { reveal_strlit("6"); }
        "6"
    } else if d == 7 {
        proof { reveal_strlit("7"); }
        "7"
    } else if d == 8 {
        proof { reveal_strlit("8"); }
        "8"
    } else {
        proof { reveal_strlit("9"); }
        "9"
    }
}

/// Appends the decimal rendering of `n` to `s`.
pub fn push_decimal(s: &mut String, n: u64)
    ensures
        final(s)@ == old(s)@ + decimal(n as nat),
    decreases n,
{
    if n >= 10 {
        push_decimal(s, n / 10);
    }
    s.append(digit_str(n % 10));
    assert(s@ =~= old(s)@ + decimal(n as nat));
}

/// The identifier of the room that wraps `endpoint`.
pub fn room_id_for(endpoint: &str) -> (id: String)
    ensures
        id@ == room_id(endpoint.spec_bytes()),
{
    proof { reveal_strlit("room-"); }
    let mut id = String::from_str("room-");
    let h = simple_hash(endpoint);
    push_decimal(&mut id, h % 100000);
    id
}

} // verus!
