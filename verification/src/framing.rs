use vstd::prelude::*;

verus! {

/// The eight bytes of `n`, most significant first.
pub open spec fn be_bytes(n: u64) -> Seq<u8> {
    seq![
        (n >> 56u64) as u8,
        (n >> 48u64) as u8,
        (n >> 40u64) as u8,
        (n >> 32u64) as u8,
        (n >> 24u64) as u8,
        (n >> 16u64) as u8,
        (n >> 8u64) as u8,
        n as u8,
    ]
}

/// The number whose eight bytes, most significant first, are `b0` to `b7`.
pub open spec fn be_value(b0: u8, b1: u8, b2: u8, b3: u8, b4: u8, b5: u8, b6: u8, b7: u8) -> u64 {
    ((b0 as u64) << 56u64) | ((b1 as u64) << 48u64) | ((b2 as u64) << 40u64) | ((b3 as u64) << 32u64) | ((b4 as u64)
        << 24u64) | ((b5 as u64) << 16u64) | ((b6 as u64) << 8u64) | (b7 as u64)
}

/// The prefix that announces a message of `len` bytes to the account service:
/// the length in eight bytes, most significant first.
pub fn length_prefix(len: u64) -> (b: [u8; 8])
    ensures
        b@ == be_bytes(len),
{
    let b: [u8; 8] = [
        (len >> 56u64) as u8,
        (len >> 48u64) as u8,
        (len >> 40u64) as u8,
        (len >> 32u64) as u8,
        (len >> 24u64) as u8,
        (len >> 16u64) as u8,
        (len >> 8u64) as u8,
        len as u8,
    ];
    assert(b@ =~= be_bytes(len));
    b
}

/// The length that a prefix of eight bytes, most significant first, announces.
pub fn prefix_length(b: [u8; 8]) -> (n: u64)
    ensures
        n == be_value(b[0], b[1], b[2], b[3], b[4], b[5], b[6], b[7]),
{
    ((b[0] as u64) << 56u64) | ((b[1] as u64) << 48u64) | ((b[2] as u64) << 40u64) | ((b[3] as u64) << 32u64) | ((
    b[4] as u64) << 24u64) | ((b[5] as u64) << 16u64) | ((b[6] as u64) << 8u64) | (b[7] as u64)
}

/// Reading a prefix gives back the length it was made for.
pub proof fn law_prefix_round_trip(n: u64)
    ensures
        be_value(
            be_bytes(n)[0],
            be_bytes(n)[1],
            be_bytes(n)[2],
            be_bytes(n)[3],
            be_bytes(n)[4],
            be_bytes(n)[5],
            be_bytes(n)[6],
            be_bytes(n)[7],
        ) == n,
{
    let b = be_bytes(n);
    assert(b[0] == (n >> 56u64) as u8 && b[1] == (n >> 48u64) as u8 && b[2] == (n >> 40u64) as u8 && b[3] == (n
        >> 32u64) as u8 && b[4] == (n >> 24u64) as u8 && b[5] == (n >> 16u64) as u8 && b[6] == (n >> 8u64) as u8
        && b[7] == n as u8);
    assert(((((n >> 56u64) as u8) as u64) << 56u64) | ((((n >> 48u64) as u8) as u64) << 48u64) | ((((n >> 40u64) as u8)
        as u64) << 40u64) | ((((n >> 32u64) as u8) as u64) << 32u64) | ((((n >> 24u64) as u8) as u64) << 24u64) | ((((n
        >> 16u64) as u8) as u64) << 16u64) | ((((n >> 8u64) as u8) as u64) << 8u64) | (((n as u8) as u64)) == n)
        by (bit_vector);
}

/// Making a prefix of the length that a prefix announces gives back that prefix.
pub proof fn law_length_round_trip(b0: u8, b1: u8, b2: u8, b3: u8, b4: u8, b5: u8, b6: u8, b7: u8)
    ensures
        be_bytes(be_value(b0, b1, b2, b3, b4, b5, b6, b7)) == seq![b0, b1, b2, b3, b4, b5, b6, b7],
{
    let v = be_value(b0, b1, b2, b3, b4, b5, b6, b7);
    assert((v >> 56u64) as u8 == b0 && (v >> 48u64) as u8 == b1 && (v >> 40u64) as u8 == b2 && (v >> 32u64) as u8 == b3
        && (v >> 24u64) as u8 == b4 && (v >> 16u64) as u8 == b5 && (v >> 8u64) as u8 == b6 && v as u8 == b7) by (bit_vector)
        requires
            v == ((b0 as u64) << 56u64) | ((b1 as u64) << 48u64) | ((b2 as u64) << 40u64) | ((b3 as u64) << 32u64) | ((b4
                as u64) << 24u64) | ((b5 as u64) << 16u64) | ((b6 as u64) << 8u64) | (b7 as u64),
    ;
    assert(be_bytes(v) =~= seq![b0, b1, b2, b3, b4, b5, b6, b7]);
}

} // verus!
