//! Fixed-width integers as bytes.

use vstd::prelude::*;

verus! {

/// The four bytes of `x`, least significant first.
pub open spec fn le32(x: u32) -> Seq<u8> {
    seq![
        (x % 256) as u8,
        (x / 256 % 256) as u8,
        (x / 65536 % 256) as u8,
        (x / 16777216 % 256) as u8,
    ]
}

/// The eight bytes of `x`, least significant first.
pub open spec fn le64(x: u64) -> Seq<u8> {
    seq![
        (x % 256) as u8,
        (x / 256 % 256) as u8,
        (x / 65536 % 256) as u8,
        (x / 16777216 % 256) as u8,
        (x / 4294967296 % 256) as u8,
        (x / 1099511627776 % 256) as u8,
        (x / 281474976710656 % 256) as u8,
        (x / 72057594037927936 % 256) as u8,
    ]
}

/// The eight bytes of `x`, most significant first.
pub open spec fn be64(x: u64) -> Seq<u8> {
    le64(x).reverse()
}

/// The number whose four bytes these are, least significant first.
pub open spec fn from_le32(s: Seq<u8>) -> int {
    s[0] + 256 * s[1] + 65536 * s[2] + 16777216 * s[3]
}

/// The number whose eight bytes these are, least significant first.
pub open spec fn from_le64(s: Seq<u8>) -> int {
    s[0] + 256 * s[1] + 65536 * s[2] + 16777216 * s[3] + 4294967296 * s[4] + 1099511627776 * s[5]
        + 281474976710656 * s[6] + 72057594037927936 * s[7]
}

/// Reading back what was written gives the number.
pub proof fn law_le32_round_trip(x: u32)
    ensures
        from_le32(le32(x)) == x,
{
    assert(x % 256 + 256 * (x / 256 % 256) + 65536 * (x / 65536 % 256) + 16777216 * (x / 16777216
        % 256) == x) by (bit_vector);
}

/// Reading back what was written gives the number.
pub proof fn law_le64_round_trip(x: u64)
    ensures
        from_le64(le64(x)) == x,
{
    let low = (x % 4294967296) as u32;
    let high = (x / 4294967296) as u32;
    law_le32_round_trip(low);
    law_le32_round_trip(high);
    assert((x % 4294967296) % 256 == x % 256 && (x % 4294967296) / 256 % 256 == x / 256 % 256 && (x
        % 4294967296) / 65536 % 256 == x / 65536 % 256 && (x % 4294967296) / 16777216 % 256 == x
        / 16777216 % 256) by (bit_vector);
    assert((x / 4294967296) / 256 % 256 == x / 1099511627776 % 256 && (x / 4294967296) / 65536 % 256
        == x / 281474976710656 % 256 && (x / 4294967296) / 16777216 % 256 == x / 72057594037927936
        % 256) by (bit_vector);
}

/// Different numbers have different bytes.
pub proof fn lemma_be64_injective(x: u64, y: u64)
    requires
        be64(x) == be64(y),
    ensures
        x == y,
{
    law_le64_round_trip(x);
    law_le64_round_trip(y);
    assert(le64(x) =~= be64(x).reverse());
    assert(le64(y) =~= be64(y).reverse());
}

pub fn u32_le(x: u32) -> (b: [u8; 4])
    ensures
        b@ == le32(x),
{
    let b = [
        (x % 256) as u8,
        (x / 256 % 256) as u8,
        (x / 65536 % 256) as u8,
        (x / 16777216 % 256) as u8,
    ];
    assert(b@ =~= le32(x));
    b
}

pub fn u64_le(x: u64) -> (b: [u8; 8])
    ensures
        b@ == le64(x),
{
    let b = [
        (x % 256) as u8,
        (x / 256 % 256) as u8,
        (x / 65536 % 256) as u8,
        (x / 16777216 % 256) as u8,
        (x / 4294967296 % 256) as u8,
        (x / 1099511627776 % 256) as u8,
        (x / 281474976710656 % 256) as u8,
        (x / 72057594037927936 % 256) as u8,
    ];
    assert(b@ =~= le64(x));
    b
}

pub fn u64_be(x: u64) -> (b: [u8; 8])
    ensures
        b@ == be64(x),
{
    let l = u64_le(x);
    let b = [l[7], l[6], l[5], l[4], l[3], l[2], l[1], l[0]];
    assert(b@ =~= be64(x));
    b
}

pub fn u32_from_le(b: &[u8]) -> (x: u32)
    requires
        b@.len() == 4,
    ensures
        x == from_le32(b@),
{
    b[0] as u32 + 256 * (b[1] as u32) + 65536 * (b[2] as u32) + 16777216 * (b[3] as u32)
}

pub fn u64_from_le(b: &[u8]) -> (x: u64)
    requires
        b@.len() == 8,
    ensures
        x == from_le64(b@),
{
    b[0] as u64 + 256 * (b[1] as u64) + 65536 * (b[2] as u64) + 16777216 * (b[3] as u64)
        + 4294967296 * (b[4] as u64) + 1099511627776 * (b[5] as u64) + 281474976710656 * (
    b[6] as u64) + 72057594037927936 * (b[7] as u64)
}

} // verus!
