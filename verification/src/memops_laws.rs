//! Numbers in the bytes of a page: what loads, stores and copies do to single
//! bytes.
use vstd::prelude::*;
use crate::memops::{
    copy_nonoverlapping_host_to_vm, copy_nonoverlapping_vm_to_host, le_value, lemma_le2, lemma_le4,
    lemma_le8, lemma_le_value_of_to_le, lemma_pow256_values, load16_le, load16_le_aligned,
    load32_le, load32_le_aligned, load64_le, load64_le_aligned, load_byte, store16_le,
    store16_le_aligned, store32_le, store32_le_aligned, store64_le, store64_le_aligned, store_byte,
    to_le, window,
};

verus! {

/// The number whose little-endian bytes stand at `at`.
pub open spec fn number_in(bytes: Seq<u8>, at: int, n: int) -> int {
    if n == 1 {
        bytes[at] as int
    } else if n == 2 {
        bytes[at] + bytes[at + 1] * 0x100
    } else if n == 4 {
        bytes[at] + bytes[at + 1] * 0x100 + bytes[at + 2] * 0x1_0000 + bytes[at + 3] * 0x100_0000
    } else {
        bytes[at] + bytes[at + 1] * 0x100 + bytes[at + 2] * 0x1_0000 + bytes[at + 3] * 0x100_0000
            + bytes[at + 4] * 0x1_0000_0000 + bytes[at + 5] * 0x100_0000_0000 + bytes[at + 6]
            * 0x1_0000_0000_0000 + bytes[at + 7] * 0x100_0000_0000_0000
    }
}

/// Two pages that differ in the `n` bytes at `at` alone.
pub open spec fn same_around(before: Seq<u8>, after: Seq<u8>, at: int, n: int) -> bool {
    &&& after.len() == before.len()
    &&& forall|i: int|
        0 <= i < before.len() && !(at <= i < at + n) ==> #[trigger] after[i] == before[i]
}

proof fn lemma_number_in(bytes: Seq<u8>, at: int, n: int)
    requires
        n == 2 || n == 4 || n == 8,
        0 <= at,
        at + n <= bytes.len(),
    ensures
        le_value(window(bytes, at, n)) == number_in(bytes, at, n),
{
    let w = window(bytes, at, n);
    assert forall|i: int| 0 <= i < n implies #[trigger] w[i] == bytes[at + i] by {}
    if n == 2 {
        lemma_le2(w);
        assert(w[0] == bytes[at] && w[1] == bytes[at + 1]);
    } else if n == 4 {
        lemma_le4(w);
        assert(w[0] == bytes[at] && w[1] == bytes[at + 1] && w[2] == bytes[at + 2] && w[3]
            == bytes[at + 3]);
    } else {
        lemma_le8(w);
        assert(w[0] == bytes[at] && w[1] == bytes[at + 1] && w[2] == bytes[at + 2] && w[3]
            == bytes[at + 3] && w[4] == bytes[at + 4] && w[5] == bytes[at + 5] && w[6] == bytes[at
            + 6] && w[7] == bytes[at + 7]);
    }
}

proof fn lemma_spliced(before: Seq<u8>, after: Seq<u8>, at: int, n: int, value: nat)
    requires
        n == 2 || n == 4 || n == 8,
        0 <= at,
        at + n <= before.len(),
        value < crate::memops::pow256(n as nat),
        after == crate::page_store::splice(before, at, to_le(value, n as nat)),
    ensures
        number_in(after, at, n) == value,
        same_around(before, after, at, n),
{
    assert(window(after, at, n) =~= to_le(value, n as nat));
    lemma_le_value_of_to_le(value, n as nat);
    lemma_number_in(after, at, n);
}

/// Loads give the number whose bytes stand at the offset, aligned or not.
pub proof fn law_page_loads(
    page: &Vec<u8>,
    offset: usize,
    r8: u8,
    r16: u16,
    r32: u32,
    r64: u64,
)
    ensures
        offset < page@.len() && call_ensures(load_byte, (page, offset), r8) ==> r8
            == page@[offset as int],
        offset + 2 <= page@.len() && call_ensures(load16_le, (page, offset), r16) ==> r16
            == number_in(page@, offset as int, 2),
        offset + 2 <= page@.len() && call_ensures(load16_le_aligned, (page, offset), r16) ==> r16
            == number_in(page@, offset as int, 2),
        offset + 4 <= page@.len() && call_ensures(load32_le, (page, offset), r32) ==> r32
            == number_in(page@, offset as int, 4),
        offset + 4 <= page@.len() && call_ensures(load32_le_aligned, (page, offset), r32) ==> r32
            == number_in(page@, offset as int, 4),
        offset + 8 <= page@.len() && call_ensures(load64_le, (page, offset), r64) ==> r64
            == number_in(page@, offset as int, 8),
        offset + 8 <= page@.len() && call_ensures(load64_le_aligned, (page, offset), r64) ==> r64
            == number_in(page@, offset as int, 8),
{
    if offset + 2 <= page@.len() {
        lemma_number_in(page@, offset as int, 2);
    }
    if offset + 4 <= page@.len() {
        lemma_number_in(page@, offset as int, 4);
    }
    if offset + 8 <= page@.len() {
        lemma_number_in(page@, offset as int, 8);
    }
}

/// Stores leave the number at the offset, aligned or not, and every other byte as
/// it was.
pub proof fn law_page_stores(
    page: &mut Vec<u8>,
    offset: usize,
    v8: u8,
    v16: u16,
    v32: u32,
    v64: u64,
)
    ensures
        offset < old(page)@.len() && call_ensures(store_byte, (page, offset, v8), ()) ==> final(
            page)@[offset as int] == v8 && same_around(old(page)@, final(page)@, offset as int, 1),
        offset + 2 <= old(page)@.len() && call_ensures(store16_le, (page, offset, v16), ())
            ==> number_in(final(page)@, offset as int, 2) == v16 && same_around(
            old(page)@,
            final(page)@,
            offset as int,
            2,
        ),
        offset + 2 <= old(page)@.len() && call_ensures(store16_le_aligned, (page, offset, v16), ())
            ==> number_in(final(page)@, offset as int, 2) == v16 && same_around(
            old(page)@,
            final(page)@,
            offset as int,
            2,
        ),
        offset + 4 <= old(page)@.len() && call_ensures(store32_le, (page, offset, v32), ())
            ==> number_in(final(page)@, offset as int, 4) == v32 && same_around(
            old(page)@,
            final(page)@,
            offset as int,
            4,
        ),
        offset + 4 <= old(page)@.len() && call_ensures(store32_le_aligned, (page, offset, v32), ())
            ==> number_in(final(page)@, offset as int, 4) == v32 && same_around(
            old(page)@,
            final(page)@,
            offset as int,
            4,
        ),
        offset + 8 <= old(page)@.len() && call_ensures(store64_le, (page, offset, v64), ())
            ==> number_in(final(page)@, offset as int, 8) == v64 && same_around(
            old(page)@,
            final(page)@,
            offset as int,
            8,
        ),
        offset + 8 <= old(page)@.len() && call_ensures(store64_le_aligned, (page, offset, v64), ())
            ==> number_in(final(page)@, offset as int, 8) == v64 && same_around(
            old(page)@,
            final(page)@,
            offset as int,
            8,
        ),
{
    let before = old(page)@;
    let after = final(page)@;
    lemma_pow256_values();
    if offset + 2 <= before.len() && call_ensures(store16_le, (page, offset, v16), ()) {
        lemma_spliced(before, after, offset as int, 2, v16 as nat);
    }
    if offset + 2 <= before.len() && call_ensures(store16_le_aligned, (page, offset, v16), ()) {
        lemma_spliced(before, after, offset as int, 2, v16 as nat);
    }
    if offset + 4 <= before.len() && call_ensures(store32_le, (page, offset, v32), ()) {
        lemma_spliced(before, after, offset as int, 4, v32 as nat);
    }
    if offset + 4 <= before.len() && call_ensures(store32_le_aligned, (page, offset, v32), ()) {
        lemma_spliced(before, after, offset as int, 4, v32 as nat);
    }
    if offset + 8 <= before.len() && call_ensures(store64_le, (page, offset, v64), ()) {
        lemma_spliced(before, after, offset as int, 8, v64 as nat);
    }
    if offset + 8 <= before.len() && call_ensures(store64_le_aligned, (page, offset, v64), ()) {
        lemma_spliced(before, after, offset as int, 8, v64 as nat);
    }
}

/// Copies move every byte of the range to its place, and leave every other byte as
/// it was.
pub proof fn law_copies(
    page: &Vec<u8>,
    offset: usize,
    dst: &mut [u8],
    at: usize,
    count: usize,
    src: &[u8],
    target: &mut Vec<u8>,
)
    ensures
        offset + count <= page@.len() && at + count <= old(dst)@.len() && call_ensures(
            copy_nonoverlapping_vm_to_host,
            (page, offset, dst, at, count),
            (),
        ) ==> same_around(old(dst)@, final(dst)@, at as int, count as int) && forall|i: int|
            0 <= i < count ==> final(dst)@[at + i] == #[trigger] page@[offset + i],
        offset + count <= old(target)@.len() && at + count <= src@.len() && call_ensures(
            copy_nonoverlapping_host_to_vm,
            (src, at, target, offset, count),
            (),
        ) ==> same_around(old(target)@, final(target)@, offset as int, count as int)
            && forall|i: int|
            0 <= i < count ==> final(target)@[offset + i] == #[trigger] src@[at + i],
{
}

} // verus!
