//! Access to the bytes of a guest page.
//!
//! Scalars are little-endian. An aligned access touches its bytes as one
//! unit; an unaligned access is made of aligned parts, the same parts for a
//! load and for a store. Bulk copies run over aligned eight-byte chunks with
//! single bytes at both ends.
use vstd::prelude::*;
use vstd::arithmetic::div_mod::*;
use vstd::arithmetic::mul::*;
use crate::page_store::splice;

verus! {

/// 256 to the power of `n`.
pub open spec fn pow256(n: nat) -> nat
    decreases n,
{
    if n == 0 {
        1
    } else {
        256 * pow256((n - 1) as nat)
    }
}

/// The number whose little-endian bytes are `s`.
pub open spec fn le_value(s: Seq<u8>) -> nat
    decreases s.len(),
{
    if s.len() == 0 {
        0
    } else {
        s[0] as nat + 256 * le_value(s.drop_first())
    }
}

/// The `n` low little-endian bytes of `v`.
pub open spec fn to_le(v: nat, n: nat) -> Seq<u8> {
    Seq::new(n, |i: int| ((v / pow256(i as nat)) % 256) as u8)
}

/// The `n` bytes of `s` from `offset` on.
pub open spec fn window(s: Seq<u8>, offset: int, n: int) -> Seq<u8> {
    s.subrange(offset, offset + n)
}

pub proof fn lemma_pow256_values()
    ensures
        pow256(0) == 1,
        pow256(1) == 0x100,
        pow256(2) == 0x1_0000,
        pow256(3) == 0x100_0000,
        pow256(4) == 0x1_0000_0000,
        pow256(5) == 0x100_0000_0000,
        pow256(6) == 0x1_0000_0000_0000,
        pow256(7) == 0x100_0000_0000_0000,
        pow256(8) == 0x1_0000_0000_0000_0000,
{
    reveal_with_fuel(pow256, 9);
}

pub proof fn lemma_pow256_positive(n: nat)
    ensures
        pow256(n) > 0,
    decreases n,
{
    if n > 0 {
        lemma_pow256_positive((n - 1) as nat);
    }
}

proof fn lemma_pow256_adds(m: nat, n: nat)
    ensures
        pow256(m + n) == pow256(m) * pow256(n),
    decreases m,
{
    if m == 0 {
        assert(1 * pow256(n) == pow256(n));
    } else {
        lemma_pow256_adds((m - 1) as nat, n);
        assert((m + n - 1) as nat == (m - 1) as nat + n);
        lemma_mul_is_associative(256, pow256((m - 1) as nat) as int, pow256(n) as int);
    }
}

/// A number made of bytes is below the next power of 256.
pub proof fn lemma_le_value_bound(s: Seq<u8>)
    ensures
        le_value(s) < pow256(s.len()),
    decreases s.len(),
{
    if s.len() > 0 {
        lemma_le_value_bound(s.drop_first());
    }
}

/// Bytes that follow others count for the power of 256 of their place.
pub proof fn lemma_le_value_concat(a: Seq<u8>, b: Seq<u8>)
    ensures
        le_value(a + b) == le_value(a) + pow256(a.len()) * le_value(b),
    decreases a.len(),
{
    if a.len() == 0 {
        assert(a + b =~= b);
        assert(1 * le_value(b) == le_value(b));
    } else {
        assert((a + b).drop_first() =~= a.drop_first() + b);
        lemma_le_value_concat(a.drop_first(), b);
        let p = pow256((a.len() - 1) as nat) as int;
        let v = le_value(b) as int;
        lemma_mul_is_associative(256, p, v);
        lemma_mul_is_distributive_add(256, le_value(a.drop_first()) as int, p * v);
    }
}

/// Cutting off the first `k` bytes divides, keeping them takes the
/// remainder.
pub proof fn lemma_le_value_split(s: Seq<u8>, k: nat)
    requires
        k <= s.len(),
    ensures
        le_value(s.skip(k as int)) == le_value(s) / pow256(k),
        le_value(s.take(k as int)) == le_value(s) % pow256(k),
{
    let a = s.take(k as int);
    let b = s.skip(k as int);
    assert(s =~= a + b);
    lemma_le_value_concat(a, b);
    lemma_le_value_bound(a);
    lemma_pow256_positive(k);
    lemma_mul_is_commutative(pow256(k) as int, le_value(b) as int);
    lemma_fundamental_div_mod_converse(
        le_value(s) as int,
        pow256(k) as int,
        le_value(b) as int,
        le_value(a) as int,
    );
}

/// Reading back the bytes of a number gives the number.
pub proof fn lemma_le_value_of_to_le(v: nat, n: nat)
    requires
        v < pow256(n),
    ensures
        le_value(to_le(v, n)) == v,
    decreases n,
{
    let s = to_le(v, n);
    if n > 0 {
        let m = (n - 1) as nat;
        assert(v / 256 < pow256(m)) by {
            lemma_fundamental_div_mod(v as int, 256);
        }
        assert(s.drop_first() =~= to_le(v / 256, m)) by {
            assert forall|i: int| 0 <= i < m implies s.drop_first()[i] == to_le(v / 256, m)[i] by {
                lemma_pow256_positive(i as nat);
                lemma_div_denominator(v as int, 256, pow256(i as nat) as int);
                assert(pow256((i + 1) as nat) == 256 * pow256(i as nat));
            }
        }
        lemma_le_value_of_to_le(v / 256, m);
        assert(pow256(0) == 1);
        assert(v / 1 == v);
        assert(s[0] == (v % 256) as u8);
        lemma_fundamental_div_mod(v as int, 256);
    }
}

/// Taking the bytes of a number that was read gives the bytes back.
pub proof fn lemma_to_le_of_le_value(s: Seq<u8>)
    ensures
        to_le(le_value(s), s.len()) == s,
{
    let v = le_value(s);
    assert forall|i: int| 0 <= i < s.len() implies to_le(v, s.len())[i] == s[i] by {
        lemma_le_value_split(s, i as nat);
        let rest = s.skip(i);
        assert(rest[0] == s[i]);
        assert(le_value(rest) == rest[0] as nat + 256 * le_value(rest.drop_first()));
    }
    assert(to_le(v, s.len()) =~= s);
}

pub proof fn lemma_le2(s: Seq<u8>)
    requires
        s.len() == 2,
    ensures
        le_value(s) == s[0] + s[1] * 0x100,
{
    reveal_with_fuel(le_value, 3);
}

pub proof fn lemma_le4(s: Seq<u8>)
    requires
        s.len() == 4,
    ensures
        le_value(s) == s[0] + s[1] * 0x100 + s[2] * 0x1_0000 + s[3] * 0x100_0000,
{
    reveal_with_fuel(le_value, 5);
}

pub proof fn lemma_le8(s: Seq<u8>)
    requires
        s.len() == 8,
    ensures
        le_value(s) == s[0] + s[1] * 0x100 + s[2] * 0x1_0000 + s[3] * 0x100_0000
            + s[4] * 0x1_0000_0000 + s[5] * 0x100_0000_0000 + s[6] * 0x1_0000_0000_0000
            + s[7] * 0x100_0000_0000_0000,
{
    reveal_with_fuel(le_value, 9);
}

/// The bytes of a 64-bit number one by one.
proof fn lemma_to_le_elements(v: nat, n: nat)
    requires
        n <= 8,
    ensures
        n > 0 ==> to_le(v, n)[0] == (v % 256) as u8,
        n > 1 ==> to_le(v, n)[1] == ((v / 0x100) % 256) as u8,
        n > 2 ==> to_le(v, n)[2] == ((v / 0x1_0000) % 256) as u8,
        n > 3 ==> to_le(v, n)[3] == ((v / 0x100_0000) % 256) as u8,
        n > 4 ==> to_le(v, n)[4] == ((v / 0x1_0000_0000) % 256) as u8,
        n > 5 ==> to_le(v, n)[5] == ((v / 0x100_0000_0000) % 256) as u8,
        n > 6 ==> to_le(v, n)[6] == ((v / 0x1_0000_0000_0000) % 256) as u8,
        n > 7 ==> to_le(v, n)[7] == ((v / 0x100_0000_0000_0000) % 256) as u8,
{
    lemma_pow256_values();
    assert(v / 1 == v);
}

/// Loads the byte at `offset`.
pub fn load_byte(page: &Vec<u8>, offset: usize) -> (r: u8)
    requires
        offset < page@.len(),
    ensures
        r == page@[offset as int],
{
    page[offset]
}

/// Stores `value` at `offset`.
pub fn store_byte(page: &mut Vec<u8>, offset: usize, value: u8)
    requires
        offset < old(page)@.len(),
    ensures
        final(page)@ == splice(old(page)@, offset as int, seq![value]),
{
    page[offset] = value;
    assert(page@ =~= splice(old(page)@, offset as int, seq![value]));
}

/// Loads the 16-bit little-endian number at the 2-aligned `offset`.
pub fn load16_le_aligned(page: &Vec<u8>, offset: usize) -> (r: u16)
    requires
        offset % 2 == 0,
        offset + 2 <= page.len(),
    ensures
        r == le_value(window(page@, offset as int, 2)),
{
    proof {
        lemma_le2(window(page@, offset as int, 2));
    }
    page[offset] as u16 + page[offset + 1] as u16 * 0x100
}

/// Loads the 32-bit little-endian number at the 4-aligned `offset`.
pub fn load32_le_aligned(page: &Vec<u8>, offset: usize) -> (r: u32)
    requires
        offset % 4 == 0,
        offset + 4 <= page.len(),
    ensures
        r == le_value(window(page@, offset as int, 4)),
{
    proof {
        lemma_le4(window(page@, offset as int, 4));
    }
    page[offset] as u32 + page[offset + 1] as u32 * 0x100 + page[offset + 2] as u32 * 0x1_0000
        + page[offset + 3] as u32 * 0x100_0000
}

/// Loads the 64-bit little-endian number at the 8-aligned `offset`.
pub fn load64_le_aligned(page: &Vec<u8>, offset: usize) -> (r: u64)
    requires
        offset % 8 == 0,
        offset + 8 <= page.len(),
    ensures
        r == le_value(window(page@, offset as int, 8)),
{
    proof {
        lemma_le8(window(page@, offset as int, 8));
    }
    page[offset] as u64 + page[offset + 1] as u64 * 0x100 + page[offset + 2] as u64 * 0x1_0000
        + page[offset + 3] as u64 * 0x100_0000 + page[offset + 4] as u64 * 0x1_0000_0000 + page[offset
        + 5] as u64 * 0x100_0000_0000 + page[offset + 6] as u64 * 0x1_0000_0000_0000 + page[offset
        + 7] as u64 * 0x100_0000_0000_0000
}

/// Loads the 16-bit little-endian number at `offset`.
pub fn load16_le(page: &Vec<u8>, offset: usize) -> (r: u16)
    requires
        offset + 2 <= page.len(),
    ensures
        r == le_value(window(page@, offset as int, 2)),
{
    if offset % 2 == 0 {
        load16_le_aligned(page, offset)
    } else {
        proof {
            lemma_le2(window(page@, offset as int, 2));
        }
        load_byte(page, offset) as u16 + load_byte(page, offset + 1) as u16 * 0x100
    }
}

/// A number in memory is made of the number in its first `m` bytes and the
/// number in the `n` bytes behind them; `p` is 256 to the power of `m`.
proof fn lemma_parts(page: Seq<u8>, offset: int, m: nat, n: nat, p: nat)
    requires
        0 <= offset,
        offset + m + n <= page.len(),
        p == pow256(m),
    ensures
        le_value(window(page, offset, (m + n) as int)) == le_value(window(page, offset, m as int)) + p
            * le_value(window(page, offset + m, n as int)),
{
    lemma_le_value_concat(window(page, offset, m as int), window(page, offset + m, n as int));
    assert(window(page, offset, m as int) + window(page, offset + m, n as int) =~= window(
        page,
        offset,
        (m + n) as int,
    ));
}

/// A byte is a number of one byte.
proof fn lemma_le1(page: Seq<u8>, offset: int)
    requires
        0 <= offset < page.len(),
    ensures
        le_value(window(page, offset, 1)) == page[offset],
{
    reveal_with_fuel(le_value, 2);
}

/// Loads the 32-bit little-endian number at `offset`.
#[verifier::spinoff_prover]
#[verifier::rlimit(60)]
pub fn load32_le(page: &Vec<u8>, offset: usize) -> (r: u32)
    requires
        offset + 4 <= page.len(),
    ensures
        r == le_value(window(page@, offset as int, 4)),
{
    proof {
        lemma_pow256_values();
        lemma_le_value_bound(window(page@, offset as int, 4));
    }
    match offset % 4 {
        0 => load32_le_aligned(page, offset),
        2 => {
            proof {
                lemma_parts(page@, offset + 0, 2, 2, 0x1_0000);
            }
            load16_le_aligned(page, offset) as u32
                + load16_le_aligned(page, offset + 2) as u32 * 0x1_0000
        },
        _ => {
            proof {
                lemma_parts(page@, offset + 0, 1, 3, 0x100);
                lemma_le1(page@, offset + 0);
                lemma_parts(page@, offset + 1, 2, 1, 0x1_0000);
                lemma_le1(page@, offset + 3);
            }
            load_byte(page, offset) as u32
                + load16_le_aligned(page, offset + 1) as u32 * 0x100
                + load_byte(page, offset + 3) as u32 * 0x100_0000
        },
    }
}

/// Loads the 64-bit little-endian number at `offset`.
#[verifier::spinoff_prover]
#[verifier::rlimit(60)]
pub fn load64_le(page: &Vec<u8>, offset: usize) -> (r: u64)
    requires
        offset + 8 <= page.len(),
    ensures
        r == le_value(window(page@, offset as int, 8)),
{
    proof {
        lemma_pow256_values();
        lemma_le_value_bound(window(page@, offset as int, 8));
    }
    match offset % 8 {
        0 => load64_le_aligned(page, offset),
        4 => {
            proof {
                lemma_parts(page@, offset + 0, 4, 4, 0x1_0000_0000);
            }
            load32_le_aligned(page, offset) as u64
                + load32_le_aligned(page, offset + 4) as u64 * 0x1_0000_0000
        },
        2 | 6 => {
            proof {
                lemma_parts(page@, offset + 0, 2, 6, 0x1_0000);
                lemma_parts(page@, offset + 2, 4, 2, 0x1_0000_0000);
            }
            load16_le_aligned(page, offset) as u64
                + load32_le_aligned(page, offset + 2) as u64 * 0x1_0000
                + load16_le_aligned(page, offset + 6) as u64 * 0x1_0000_0000_0000
        },
        1 | 5 => {
            proof {
                lemma_parts(page@, offset + 0, 1, 7, 0x100);
                lemma_le1(page@, offset + 0);
                lemma_parts(page@, offset + 1, 2, 5, 0x1_0000);
                lemma_parts(page@, offset + 3, 4, 1, 0x1_0000_0000);
                lemma_le1(page@, offset + 7);
            }
            load_byte(page, offset) as u64
                + load16_le_aligned(page, offset + 1) as u64 * 0x100
                + load32_le_aligned(page, offset + 3) as u64 * 0x100_0000
                + load_byte(page, offset + 7) as u64 * 0x100_0000_0000_0000
        },
        _ => {
            proof {
                lemma_parts(page@, offset + 0, 1, 7, 0x100);
                lemma_le1(page@, offset + 0);
                lemma_parts(page@, offset + 1, 4, 3, 0x1_0000_0000);
                lemma_parts(page@, offset + 5, 2, 1, 0x1_0000);
                lemma_le1(page@, offset + 7);
            }
            load_byte(page, offset) as u64
                + load32_le_aligned(page, offset + 1) as u64 * 0x100
                + load16_le_aligned(page, offset + 5) as u64 * 0x100_0000_0000
                + load_byte(page, offset + 7) as u64 * 0x100_0000_0000_0000
        },
    }
}

/// Stores the 16-bit `value` at the 2-aligned `offset`, little-endian.
pub fn store16_le_aligned(page: &mut Vec<u8>, offset: usize, value: u16)
    requires
        offset % 2 == 0,
        offset + 2 <= old(page).len(),
    ensures
        final(page)@ == splice(old(page)@, offset as int, to_le(value as nat, 2)),
{
    page[offset] = (value % 0x100) as u8;
    page[offset + 1] = ((value / 0x100) % 0x100) as u8;
    proof {
        lemma_to_le_elements(value as nat, 2);
    }
    assert(page@ =~= splice(old(page)@, offset as int, to_le(value as nat, 2)));
}

/// Stores the 32-bit `value` at the 4-aligned `offset`, little-endian.
pub fn store32_le_aligned(page: &mut Vec<u8>, offset: usize, value: u32)
    requires
        offset % 4 == 0,
        offset + 4 <= old(page).len(),
    ensures
        final(page)@ == splice(old(page)@, offset as int, to_le(value as nat, 4)),
{
    page[offset] = (value % 0x100) as u8;
    page[offset + 1] = ((value / 0x100) % 0x100) as u8;
    page[offset + 2] = ((value / 0x1_0000) % 0x100) as u8;
    page[offset + 3] = ((value / 0x100_0000) % 0x100) as u8;
    proof {
        lemma_to_le_elements(value as nat, 4);
    }
    assert(page@ =~= splice(old(page)@, offset as int, to_le(value as nat, 4)));
}

/// Stores the 64-bit `value` at the 8-aligned `offset`, little-endian.
pub fn store64_le_aligned(page: &mut Vec<u8>, offset: usize, value: u64)
    requires
        offset % 8 == 0,
        offset + 8 <= old(page).len(),
    ensures
        final(page)@ == splice(old(page)@, offset as int, to_le(value as nat, 8)),
{
    page[offset] = (value % 0x100) as u8;
    page[offset + 1] = ((value / 0x100) % 0x100) as u8;
    page[offset + 2] = ((value / 0x1_0000) % 0x100) as u8;
    page[offset + 3] = ((value / 0x100_0000) % 0x100) as u8;
    page[offset + 4] = ((value / 0x1_0000_0000) % 0x100) as u8;
    page[offset + 5] = ((value / 0x100_0000_0000) % 0x100) as u8;
    page[offset + 6] = ((value / 0x1_0000_0000_0000) % 0x100) as u8;
    page[offset + 7] = ((value / 0x100_0000_0000_0000) % 0x100) as u8;
    proof {
        lemma_to_le_elements(value as nat, 8);
    }
    assert(page@ =~= splice(old(page)@, offset as int, to_le(value as nat, 8)));
}

/// The bytes of a part of a number are the bytes of the number at the place
/// of the part.
proof fn lemma_to_le_part(v: nat, at: nat, n: nat)
    ensures
        to_le((v / pow256(at)) % pow256(n), n) == to_le(v, at + n).skip(at as int),
{
    let part = (v / pow256(at)) % pow256(n);
    lemma_pow256_positive(at);
    lemma_pow256_positive(n);
    assert forall|i: int| 0 <= i < n implies #[trigger] to_le(part, n)[i] == ((v / pow256(
        at + i as nat,
    )) % 256) as u8 by {
        let q = (v / pow256(at)) as int;
        let p = pow256(i as nat) as int;
        let rest = pow256((n - i - 1) as nat) as int;
        lemma_pow256_positive(i as nat);
        lemma_pow256_positive((n - i - 1) as nat);
        lemma_pow256_adds(at, i as nat);
        lemma_pow256_adds(i as nat, (n - i) as nat);
        lemma_div_denominator(v as int, pow256(at) as int, p);
        assert(pow256((n - i) as nat) == 256 * rest);
        assert(pow256(n) == p * (256 * rest));
        // (q % (p * m)) / p == (q / p) % m, with m == 256 * rest
        lemma_mod_breakdown(q, p, 256 * rest);
        lemma_fundamental_div_mod_converse(
            q % (p * (256 * rest)),
            p,
            (q / p) % (256 * rest),
            q % p,
        );
        // a remainder by a multiple of 256 has the same low byte
        lemma_mod_mod((q / p), 256, rest);
    }
    assert(to_le(part, n) =~= to_le(v, at + n).skip(at as int));
}

/// Storing the next part of a number behind the parts that were stored.
proof fn lemma_next_part(page: Seq<u8>, offset: int, v: nat, at: nat, n: nat, part: Seq<u8>)
    requires
        0 <= offset,
        offset + at + n <= page.len(),
        part == to_le((v / pow256(at)) % pow256(n), n),
    ensures
        splice(splice(page, offset, to_le(v, at)), offset + at, part) == splice(
            page,
            offset,
            to_le(v, at + n),
        ),
{
    lemma_to_le_part(v, at, n);
    let whole = to_le(v, at + n);
    assert forall|i: int| 0 <= i < at implies to_le(v, at)[i] == whole[i] by {}
    assert forall|i: int| 0 <= i < n implies part[i] == whole[at + i] by {}
    assert(splice(splice(page, offset, to_le(v, at)), offset + at, part) =~= splice(
        page,
        offset,
        whole,
    ));
}

/// Storing one byte as the next part of a number.
proof fn lemma_next_byte(page: Seq<u8>, offset: int, v: nat, at: nat, byte: u8)
    requires
        0 <= offset,
        offset + at + 1 <= page.len(),
        byte == (v / pow256(at)) % 256,
    ensures
        splice(splice(page, offset, to_le(v, at)), offset + at, seq![byte]) == splice(
            page,
            offset,
            to_le(v, at + 1),
        ),
{
    assert(splice(splice(page, offset, to_le(v, at)), offset + at, seq![byte]) =~= splice(
        page,
        offset,
        to_le(v, at + 1),
    ));
}

/// Storing no part of a number changes nothing.
proof fn lemma_no_part(page: Seq<u8>, offset: int, v: nat)
    ensures
        splice(page, offset, to_le(v, 0)) == page,
{
    assert(splice(page, offset, to_le(v, 0)) =~= page);
}


/// Stores the 16-bit `value` at `offset`, little-endian.
pub fn store16_le(page: &mut Vec<u8>, offset: usize, value: u16)
    requires
        offset + 2 <= old(page).len(),
    ensures
        final(page)@ == splice(old(page)@, offset as int, to_le(value as nat, 2)),
{
    if offset % 2 == 0 {
        store16_le_aligned(page, offset, value);
    } else {
        store_byte(page, offset, (value % 0x100) as u8);
        store_byte(page, offset + 1, ((value / 0x100) % 0x100) as u8);
        proof {
            lemma_to_le_elements(value as nat, 2);
        }
        assert(page@ =~= splice(old(page)@, offset as int, to_le(value as nat, 2)));
    }
}

/// Stores the 32-bit `value` at `offset`, little-endian.
#[verifier::spinoff_prover]
#[verifier::rlimit(60)]
pub fn store32_le(page: &mut Vec<u8>, offset: usize, value: u32)
    requires
        offset + 4 <= old(page).len(),
    ensures
        final(page)@ == splice(old(page)@, offset as int, to_le(value as nat, 4)),
{
    let ghost start = page@;
    let ghost v = value as nat;
    proof {
        lemma_pow256_values();
        lemma_no_part(start, offset as int, v);
        assert(v / 1 == v);
    }
    match offset % 4 {
        0 => {
            store32_le_aligned(page, offset, value);
        },
        2 => {
            let part: u16 = (value % 0x1_0000) as u16;
            store16_le_aligned(page, offset, part);
            proof {
                lemma_next_part(start, offset as int, v, 0, 2, to_le(part as nat, 2));
            }
            let part: u16 = ((value / 0x1_0000) % 0x1_0000) as u16;
            store16_le_aligned(page, offset + 2, part);
            proof {
                lemma_next_part(start, offset as int, v, 2, 2, to_le(part as nat, 2));
            }
        },
        _ => {
            store_byte(page, offset, (value % 0x100) as u8);
            proof {
                lemma_next_byte(start, offset as int, v, 0, (value % 0x100) as u8);
            }
            let part: u16 = ((value / 0x100) % 0x1_0000) as u16;
            store16_le_aligned(page, offset + 1, part);
            proof {
                lemma_next_part(start, offset as int, v, 1, 2, to_le(part as nat, 2));
            }
            store_byte(page, offset + 3, ((value / 0x100_0000) % 0x100) as u8);
            proof {
                lemma_next_byte(start, offset as int, v, 3, ((value / 0x100_0000) % 0x100) as u8);
            }
        },
    }
}

/// Stores the 64-bit `value` at `offset`, little-endian.
#[verifier::spinoff_prover]
#[verifier::rlimit(60)]
pub fn store64_le(page: &mut Vec<u8>, offset: usize, value: u64)
    requires
        offset + 8 <= old(page).len(),
    ensures
        final(page)@ == splice(old(page)@, offset as int, to_le(value as nat, 8)),
{
    let ghost start = page@;
    let ghost v = value as nat;
    proof {
        lemma_pow256_values();
        lemma_no_part(start, offset as int, v);
        assert(v / 1 == v);
    }
    match offset % 8 {
        0 => {
            store64_le_aligned(page, offset, value);
        },
        4 => {
            let part: u32 = (value % 0x1_0000_0000) as u32;
            store32_le_aligned(page, offset, part);
            proof {
                lemma_next_part(start, offset as int, v, 0, 4, to_le(part as nat, 4));
            }
            let part: u32 = ((value / 0x1_0000_0000) % 0x1_0000_0000) as u32;
            store32_le_aligned(page, offset + 4, part);
            proof {
                lemma_next_part(start, offset as int, v, 4, 4, to_le(part as nat, 4));
            }
        },
        2 | 6 => {
            let part: u16 = (value % 0x1_0000) as u16;
            store16_le_aligned(page, offset, part);
            proof {
                lemma_next_part(start, offset as int, v, 0, 2, to_le(part as nat, 2));
            }
            let part: u32 = ((value / 0x1_0000) % 0x1_0000_0000) as u32;
            store32_le_aligned(page, offset + 2, part);
            proof {
                lemma_next_part(start, offset as int, v, 2, 4, to_le(part as nat, 4));
            }
            let part: u16 = ((value / 0x1_0000_0000_0000) % 0x1_0000) as u16;
            store16_le_aligned(page, offset + 6, part);
            proof {
                lemma_next_part(start, offset as int, v, 6, 2, to_le(part as nat, 2));
            }
        },
        1 | 5 => {
            store_byte(page, offset, (value % 0x100) as u8);
            proof {
                lemma_next_byte(start, offset as int, v, 0, (value % 0x100) as u8);
            }
            let part: u16 = ((value / 0x100) % 0x1_0000) as u16;
            store16_le_aligned(page, offset + 1, part);
            proof {
                lemma_next_part(start, offset as int, v, 1, 2, to_le(part as nat, 2));
            }
            let part: u32 = ((value / 0x100_0000) % 0x1_0000_0000) as u32;
            store32_le_aligned(page, offset + 3, part);
            proof {
                lemma_next_part(start, offset as int, v, 3, 4, to_le(part as nat, 4));
            }
            store_byte(page, offset + 7, ((value / 0x100_0000_0000_0000) % 0x100) as u8);
            proof {
                lemma_next_byte(
                    start,
                    offset as int,
                    v,
                    7,
                    ((value / 0x100_0000_0000_0000) % 0x100) as u8,
                );
            }
        },
        _ => {
            store_byte(page, offset, (value % 0x100) as u8);
            proof {
                lemma_next_byte(start, offset as int, v, 0, (value % 0x100) as u8);
            }
            let part: u32 = ((value / 0x100) % 0x1_0000_0000) as u32;
            store32_le_aligned(page, offset + 1, part);
            proof {
                lemma_next_part(start, offset as int, v, 1, 4, to_le(part as nat, 4));
            }
            let part: u16 = ((value / 0x100_0000_0000) % 0x1_0000) as u16;
            store16_le_aligned(page, offset + 5, part);
            proof {
                lemma_next_part(start, offset as int, v, 5, 2, to_le(part as nat, 2));
            }
            store_byte(page, offset + 7, ((value / 0x100_0000_0000_0000) % 0x100) as u8);
            proof {
                lemma_next_byte(
                    start,
                    offset as int,
                    v,
                    7,
                    ((value / 0x100_0000_0000_0000) % 0x100) as u8,
                );
            }
        },
    }
}

/// Size of the chunks of a bulk copy.
pub const CHUNK_SIZE: usize = 8;

/// The number of single bytes that a bulk copy of `count` bytes from or to
/// `offset` starts with: those up to the next chunk boundary.
fn chunk_prefix(offset: usize, count: usize) -> (r: usize)
    ensures
        r <= count,
        r < count ==> (offset + r) % 8 == 0,
        r < 8,
{
    let into: usize = offset % CHUNK_SIZE;
    let to_boundary: usize = if into == 0 {
        0
    } else {
        CHUNK_SIZE - into
    };
    if to_boundary < count {
        to_boundary
    } else {
        count
    }
}

/// Copies `count` guest bytes from `offset` on to `dst`, from `at` on.
pub fn copy_nonoverlapping_vm_to_host(
    page: &Vec<u8>,
    offset: usize,
    dst: &mut [u8],
    at: usize,
    count: usize,
)
    requires
        offset + count <= page.len(),
        at + count <= old(dst).len(),
    ensures
        final(dst)@ == splice(old(dst)@, at as int, window(page@, offset as int, count as int)),
{
    let ghost src = window(page@, offset as int, count as int);
    let prefix: usize = chunk_prefix(offset, count);
    let mut i: usize = 0;
    while i < prefix
        invariant
            i <= prefix <= count,
            offset + count <= page.len(),
            at + count <= dst@.len(),
            at + count <= usize::MAX,
            src == window(page@, offset as int, count as int),
            dst@ == splice(old(dst)@, at as int, src.take(i as int)),
        decreases prefix - i,
    {
        dst[at + i] = load_byte(page, offset + i);
        i += 1;
        assert(dst@ =~= splice(old(dst)@, at as int, src.take(i as int)));
    }
    let mid_end: usize = prefix + (count - prefix) / CHUNK_SIZE * CHUNK_SIZE;
    while i < mid_end
        invariant
            prefix <= i <= mid_end <= count,
            (mid_end - i) % 8 == 0,
            i < count ==> (offset + i) % 8 == 0,
            offset + count <= page.len(),
            at + count <= dst@.len(),
            at + count <= usize::MAX,
            src == window(page@, offset as int, count as int),
            dst@ == splice(old(dst)@, at as int, src.take(i as int)),
        decreases mid_end - i,
    {
        let chunk: u64 = load64_le_aligned(page, offset + i);
        let ghost before = dst@;
        write_chunk(dst, at + i, chunk);
        proof {
            let bytes = window(page@, offset + i, 8);
            lemma_to_le_of_le_value(bytes);
            assert(src.subrange(i as int, i + 8) =~= bytes);
        }
        i += CHUNK_SIZE;
        assert(dst@ =~= splice(old(dst)@, at as int, src.take(i as int)));
    }
    while i < count
        invariant
            mid_end <= i <= count,
            offset + count <= page.len(),
            at + count <= dst@.len(),
            at + count <= usize::MAX,
            src == window(page@, offset as int, count as int),
            dst@ == splice(old(dst)@, at as int, src.take(i as int)),
        decreases count - i,
    {
        dst[at + i] = load_byte(page, offset + i);
        i += 1;
        assert(dst@ =~= splice(old(dst)@, at as int, src.take(i as int)));
    }
    assert(src.take(count as int) =~= src);
}

/// Writes the bytes of `chunk` to `dst`, from `at` on.
fn write_chunk(dst: &mut [u8], at: usize, chunk: u64)
    requires
        at + 8 <= old(dst)@.len(),
        at + 8 <= usize::MAX,
    ensures
        final(dst)@ == splice(old(dst)@, at as int, to_le(chunk as nat, 8)),
{
    dst[at] = (chunk % 0x100) as u8;
    dst[at + 1] = ((chunk / 0x100) % 0x100) as u8;
    dst[at + 2] = ((chunk / 0x1_0000) % 0x100) as u8;
    dst[at + 3] = ((chunk / 0x100_0000) % 0x100) as u8;
    dst[at + 4] = ((chunk / 0x1_0000_0000) % 0x100) as u8;
    dst[at + 5] = ((chunk / 0x100_0000_0000) % 0x100) as u8;
    dst[at + 6] = ((chunk / 0x1_0000_0000_0000) % 0x100) as u8;
    dst[at + 7] = ((chunk / 0x100_0000_0000_0000) % 0x100) as u8;
    proof {
        lemma_to_le_elements(chunk as nat, 8);
    }
    assert(dst@ =~= splice(old(dst)@, at as int, to_le(chunk as nat, 8)));
}

/// Reads the eight bytes of `src` from `at` on as one chunk.
fn read_chunk(src: &[u8], at: usize) -> (r: u64)
    requires
        at + 8 <= src@.len(),
        at + 8 <= usize::MAX,
    ensures
        r == le_value(window(src@, at as int, 8)),
{
    proof {
        lemma_le8(window(src@, at as int, 8));
    }
    src[at] as u64 + src[at + 1] as u64 * 0x100 + src[at + 2] as u64 * 0x1_0000 + src[at + 3] as u64
        * 0x100_0000 + src[at + 4] as u64 * 0x1_0000_0000 + src[at + 5] as u64 * 0x100_0000_0000
        + src[at + 6] as u64 * 0x1_0000_0000_0000 + src[at + 7] as u64 * 0x100_0000_0000_0000
}

/// Copies `count` bytes of `src`, from `at` on, to the guest bytes from
/// `offset` on.
pub fn copy_nonoverlapping_host_to_vm(
    src: &[u8],
    at: usize,
    page: &mut Vec<u8>,
    offset: usize,
    count: usize,
)
    requires
        offset + count <= old(page).len(),
        at + count <= src.len(),
    ensures
        final(page)@ == splice(old(page)@, offset as int, window(src@, at as int, count as int)),
{
    let ghost data = window(src@, at as int, count as int);
    let prefix: usize = chunk_prefix(offset, count);
    let mut i: usize = 0;
    while i < prefix
        invariant
            i <= prefix <= count,
            offset + count <= page.len(),
            at + count <= src@.len(),
            at + count <= usize::MAX,
            data == window(src@, at as int, count as int),
            page@ == splice(old(page)@, offset as int, data.take(i as int)),
        decreases prefix - i,
    {
        store_byte(page, offset + i, src[at + i]);
        i += 1;
        assert(page@ =~= splice(old(page)@, offset as int, data.take(i as int)));
    }
    let mid_end: usize = prefix + (count - prefix) / CHUNK_SIZE * CHUNK_SIZE;
    while i < mid_end
        invariant
            prefix <= i <= mid_end <= count,
            (mid_end - i) % 8 == 0,
            i < count ==> (offset + i) % 8 == 0,
            offset + count <= page.len(),
            at + count <= src@.len(),
            at + count <= usize::MAX,
            data == window(src@, at as int, count as int),
            page@ == splice(old(page)@, offset as int, data.take(i as int)),
        decreases mid_end - i,
    {
        let chunk: u64 = read_chunk(src, at + i);
        store64_le_aligned(page, offset + i, chunk);
        proof {
            let bytes = window(src@, at + i, 8);
            lemma_to_le_of_le_value(bytes);
            assert(data.subrange(i as int, i + 8) =~= bytes);
        }
        i += CHUNK_SIZE;
        assert(page@ =~= splice(old(page)@, offset as int, data.take(i as int)));
    }
    while i < count
        invariant
            mid_end <= i <= count,
            offset + count <= page.len(),
            at + count <= src@.len(),
            at + count <= usize::MAX,
            data == window(src@, at as int, count as int),
            page@ == splice(old(page)@, offset as int, data.take(i as int)),
        decreases count - i,
    {
        store_byte(page, offset + i, src[at + i]);
        i += 1;
        assert(page@ =~= splice(old(page)@, offset as int, data.take(i as int)));
    }
    assert(data.take(count as int) =~= data);
}

} // verus!
