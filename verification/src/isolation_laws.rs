//! Whose memory a page shows, and who sees a store.
use vstd::prelude::*;
use crate::access::{
    accessible, byte_at, lemma_resolved, lemma_same_pages, pages_touched, store_outcome,
};
use crate::fault::MemoryFault;
use crate::laws::{covered, host_of, law_store_elsewhere, lemma_store_keeps, unaliased};
use crate::memory::{offset_of, page_of, MemProt};
use crate::page_store::{Holder, StoreView};
use crate::page_table::{
    copied, entry_ok, forked, is_cow, mapped_pages, me, resolve, table_wf, MapRegion, MemMapFlags,
    PageEntry, PageSource, PageTableAccess,
};
use crate::scalar::{crosses, lemma_store_scalar, store_scalar_outcome};

verus! {

/// Page `n` resolves and may be written in place.
pub open spec fn in_place(st: StoreView, table: Map<u64, PageEntry>, n: int) -> bool {
    resolve(st, table, n) matches Some(page) && !page.ptr.flags.cow
}

/// The memory that page `n` shows is the machine's own, not the embedder's.
pub open spec fn own_memory(st: StoreView, table: Map<u64, PageEntry>, n: int) -> bool {
    !st.host[host_of(st, table, n)].lent
}

/// The entry shows memory that is written in place and not shared.
pub open spec fn private_in_place(e: PageEntry) -> bool {
    match e.source {
        PageSource::Shared(_) => false,
        PageSource::Private { write_protected, .. } => !write_protected,
        PageSource::Object { shared, .. } => !shared,
    }
}

/// Who holds the page that the entry of page `n` shows.
spec fn holder_of(space: nat, n: u64, e: PageEntry) -> Holder {
    match e.source {
        PageSource::Object { slot, .. } => Holder::Slot { slot },
        _ => me(space, n),
    }
}

/// What stands behind a page that resolves.
proof fn lemma_backing(st: StoreView, space: nat, table: Map<u64, PageEntry>, n: int)
    requires
        st.wf(),
        table_wf(st, space, table),
        resolve(st, table, n) is Some,
    ensures
        ({
            let page = resolve(st, table, n)->0;
            let b = page.backing as int;
            let e = table[n as u64];
            &&& entry_ok(st, space, n as u64, e)
            &&& 0 <= b < st.pages.len()
            &&& st.pages[b].allocated_page == page.ptr.page
            &&& 0 <= host_of(st, table, n) < st.host.len()
            &&& st.pages[b].should_dealloc == own_memory(st, table, n)
            &&& st.pages[b].holders@.contains(holder_of(space, n as u64, e))
            &&& e.source is Object ==> st.pages[b].holders@ == Set::empty().insert(
                holder_of(space, n as u64, e),
            )
            &&& page.ptr.flags.cow == is_cow(e)
        }),
{
    lemma_resolved(st, space, table, n);
    let e = table[n as u64];
    let b = resolve(st, table, n)->0.backing as int;
    assert(entry_ok(st, space, n as u64, e));
    if let PageSource::Object { slot, .. } = e.source {
        assert(st.slot_ok(slot as int));
    }
    assert(st.page_ok(b));
}

/// Different pages show different memory, if one of them has memory of the
/// machine.
proof fn lemma_memory_apart(st: StoreView, b: int, c: int)
    requires
        st.wf(),
        0 <= b < st.pages.len(),
        0 <= c < st.pages.len(),
        b != c,
        st.pages[b].should_dealloc,
    ensures
        st.pages[b].allocated_page != st.pages[c].allocated_page,
{
    assert(st.page_ok(b));
    assert(st.page_ok(c));
    if b < c {
        assert(st.pages[b].should_dealloc && st.pages[c].should_dealloc
            ==> st.pages[b].allocated_page != st.pages[c].allocated_page);
    } else {
        assert(st.pages[c].should_dealloc && st.pages[b].should_dealloc
            ==> st.pages[c].allocated_page != st.pages[b].allocated_page);
    }
}

/// Within an address space, no two pages that may be written in place show the
/// same memory of the machine.
pub proof fn law_pages_disjoint(
    st: StoreView,
    space: nat,
    table: Map<u64, PageEntry>,
    n: int,
    m: int,
)
    requires
        st.wf(),
        table_wf(st, space, table),
        n != m,
        in_place(st, table, n),
        in_place(st, table, m),
        own_memory(st, table, n),
    ensures
        host_of(st, table, n) != host_of(st, table, m),
{
    lemma_backing(st, space, table, n);
    lemma_backing(st, space, table, m);
    let b = resolve(st, table, n)->0.backing as int;
    let c = resolve(st, table, m)->0.backing as int;
    let e = table[n as u64];
    let f = table[m as u64];
    if b == c {
        let holders = st.pages[b].holders@;
        assert(holders.contains(holder_of(space, n as u64, e)));
        assert(holders.contains(holder_of(space, m as u64, f)));
        if e.source is Object || f.source is Object {
            assert(holder_of(space, n as u64, e) == holder_of(space, m as u64, f));
            let s = e.source->slot as int;
            assert(st.slots[s].holders@.contains(me(space, n as u64)));
            assert(st.slots[s].holders@.contains(me(space, m as u64)));
        } else {
            assert(holders.contains(me(space, n as u64)));
            assert(holders.contains(me(space, m as u64)));
            assert(holders.contains(Holder::ZeroPage));
        }
        assert(false);
    }
    lemma_memory_apart(st, b, c);
}

/// No two addresses show the same byte, as far as the pages may be written in
/// place and show memory of the machine. So a load gives back what a store
/// wrote there.
pub proof fn law_own_memory_unaliased(
    st: StoreView,
    space: nat,
    table: Map<u64, PageEntry>,
    vaddr: int,
    len: int,
)
    requires
        st.wf(),
        table_wf(st, space, table),
        forall|n: int|
            page_of(vaddr) <= n <= page_of(vaddr + len - 1) ==> #[trigger] in_place(st, table, n)
                && own_memory(st, table, n),
    ensures
        unaliased(st, table, vaddr, len),
{
    assert forall|m: int, n: int, o: int|
        #![trigger covered(vaddr, len, m, o), covered(vaddr, len, n, o)]
        page_of(vaddr) <= m < n <= page_of(vaddr + len - 1) && covered(vaddr, len, m, o) && covered(
            vaddr,
            len,
            n,
            o,
        ) implies host_of(st, table, m) != host_of(st, table, n) by {
        assert(in_place(st, table, m));
        assert(in_place(st, table, n));
        law_pages_disjoint(st, space, table, m, n);
    }
}

/// New anonymous memory that is not lazy is the machine's own, and may be
/// written in place.
pub proof fn law_mapped_memory_is_own(
    a: StoreView,
    b: StoreView,
    space: nat,
    table: Map<u64, PageEntry>,
    mapped: Map<u64, PageEntry>,
    access: PageTableAccess,
    prot: MemProt,
    flags: MemMapFlags,
    n: int,
)
    requires
        b.wf(),
        access.wf(),
        table_wf(b, space, mapped),
        mapped_pages(a, b, space, table, mapped, access, prot, MapRegion::Anon(flags)),
        flags != MemMapFlags::Cow,
        access.contains(n),
    ensures
        in_place(b, mapped, n),
        own_memory(b, mapped, n),
{
    assert(mapped.contains_key(n as u64));
    lemma_backing(b, space, mapped, n);
}

/// Private memory is private: a page that is written in place and not shared,
/// be it anonymous or of an object, shows memory that no other page of any
/// address space shows. A store through it is therefore seen nowhere else. The
/// embedder's memory is left out: it can be mapped twice.
pub proof fn law_private_pages_disjoint(
    st: StoreView,
    space: nat,
    table: Map<u64, PageEntry>,
    n: int,
    other_space: nat,
    other: Map<u64, PageEntry>,
    m: int,
)
    requires
        st.wf(),
        table_wf(st, space, table),
        table_wf(st, other_space, other),
        space != other_space || n != m,
        resolve(st, table, n) is Some,
        resolve(st, other, m) is Some,
        private_in_place(table[n as u64]),
        own_memory(st, table, n),
    ensures
        host_of(st, table, n) != host_of(st, other, m),
{
    lemma_backing(st, space, table, n);
    lemma_backing(st, other_space, other, m);
    let b = resolve(st, table, n)->0.backing as int;
    let c = resolve(st, other, m)->0.backing as int;
    let e = table[n as u64];
    let f = other[m as u64];
    if b == c {
        let holders = st.pages[b].holders@;
        assert(holders.contains(holder_of(other_space, m as u64, f)));
        assert(holder_of(other_space, m as u64, f) == holder_of(space, n as u64, e));
        if let PageSource::Object { slot, .. } = e.source {
            assert(st.slots[slot as int].holders@.contains(me(other_space, m as u64)));
        }
        assert(me(other_space, m as u64) == me(space, n as u64));
        assert(false);
    }
    lemma_memory_apart(st, b, c);
}

/// What a forked address space can write in place is not the private memory
/// that it still shares with the other one.
proof fn lemma_fork_apart(
    st: StoreView,
    space: nat,
    table: Map<u64, PageEntry>,
    k: int,
    other_space: nat,
    other: Map<u64, PageEntry>,
    n: u64,
)
    requires
        st.wf(),
        table_wf(st, space, table),
        table_wf(st, other_space, other),
        space != other_space,
        table.contains_key(n),
        other.contains_key(n),
        private_in_place(other[n]) || is_cow(table[n]) && other[n].source == table[n].source,
        resolve(st, other, n as int) is Some,
        own_memory(st, other, n as int),
        in_place(st, table, k),
    ensures
        host_of(st, table, k) != host_of(st, other, n as int),
{
    if private_in_place(other[n]) {
        law_private_pages_disjoint(st, other_space, other, n as int, space, table, k);
    } else {
        lemma_backing(st, space, table, k);
        lemma_backing(st, other_space, other, n as int);
        let b = resolve(st, other, n as int)->0.backing as int;
        let c = resolve(st, table, k)->0.backing as int;
        let e = table[k as u64];
        assert(entry_ok(st, space, n, table[n]));
        if b == c {
            let holders = st.pages[b].holders@;
            assert(holders.contains(me(space, n)));
            assert(holders.contains(holder_of(space, k as u64, e)));
            if e.source is Object {
                assert(me(space, n) == holder_of(space, k as u64, e));
            } else {
                assert(k as u64 != n);
                assert(holders.contains(me(space, k as u64)));
                assert(holders.contains(Holder::ZeroPage));
            }
            assert(false);
        }
        lemma_memory_apart(st, b, c);
    }
}

/// Of the two sides of a fork, the one that writes, and the one that looks.
pub open spec fn sides(
    space: nat,
    parent: Map<u64, PageEntry>,
    child_space: nat,
    child: Map<u64, PageEntry>,
    child_writes: bool,
) -> ((nat, Map<u64, PageEntry>), (nat, Map<u64, PageEntry>)) {
    if child_writes {
        ((child_space, child), (space, parent))
    } else {
        ((space, parent), (child_space, child))
    }
}

/// Page `n` of an address space shows memory of the machine, or memory of the
/// embedder that another address space does not write in place.
pub open spec fn out_of_reach(
    st: StoreView,
    writer: Map<u64, PageEntry>,
    reader: Map<u64, PageEntry>,
    n: int,
) -> bool {
    own_memory(st, reader, n) || forall|k: int| #[trigger]
        in_place(st, writer, k) ==> host_of(st, writer, k) != host_of(st, reader, n)
}

/// Private pages are isolated after a fork: whatever one side tries to store,
/// and whether or not it gets through, the other side sees in its private
/// pages what it saw before. The embedder's memory that the writing side has
/// mapped a second time, to write it in place, is left out.
pub proof fn law_fork_isolates(
    a: StoreView,
    b: StoreView,
    c: StoreView,
    space: nat,
    parent: Map<u64, PageEntry>,
    child_space: nat,
    child: Map<u64, PageEntry>,
    e: PageEntry,
    n: u64,
    child_writes: bool,
    vaddr: int,
    data: Seq<u8>,
    required: Option<MemProt>,
    r: Result<(), MemoryFault>,
    addr: int,
)
    requires
        b.wf(),
        table_wf(b, space, parent),
        table_wf(b, child_space, child),
        space != child_space,
        parent.contains_key(n),
        child.contains_key(n),
        !(e.source is Shared),
        e.source matches PageSource::Object { shared, .. } ==> !shared,
        forked(a, b, child_space, n, e, parent[n], child[n]),
        0 <= vaddr,
        page_of(addr) == n,
        ({
            let ((_, writer), (_, reader)) = sides(space, parent, child_space, child, child_writes);
            &&& resolve(b, reader, n as int) is Some
            &&& out_of_reach(b, writer, reader, n as int)
            &&& store_outcome(b, c, writer, vaddr, data, required, r)
        }),
    ensures
        ({
            let (_, (_, reader)) = sides(space, parent, child_space, child, child_writes);
            &&& resolve(c, reader, n as int) == resolve(b, reader, n as int)
            &&& byte_at(c, reader, addr) == byte_at(b, reader, addr)
        }),
{
    let ((writing, writer), (reading, reader)) = sides(
        space,
        parent,
        child_space,
        child,
        child_writes,
    );
    if r is Ok {
        assert forall|k: int|
            data.len() > 0 && page_of(vaddr) <= k <= page_of(
                vaddr + data.len() - 1,
            ) implies #[trigger] host_of(b, writer, k) != host_of(b, reader, page_of(addr))
            || !covered(vaddr, data.len() as int, k, offset_of(addr)) by {
            assert(accessible(b, writer, k, required, true));
            assert(in_place(b, writer, k));
            if own_memory(b, reader, n as int) {
                lemma_fork_apart(b, writing, writer, k, reading, reader, n);
            }
        }
        law_store_elsewhere(
            b,
            c,
            writing,
            writer,
            vaddr,
            data,
            required,
            reading,
            reader,
            addr,
        );
    }
}

/// The same of scalar stores: private pages are isolated after a fork.
pub proof fn law_fork_isolates_scalars(
    a: StoreView,
    b: StoreView,
    c: StoreView,
    space: nat,
    parent: Map<u64, PageEntry>,
    child_space: nat,
    child: Map<u64, PageEntry>,
    e: PageEntry,
    n: u64,
    child_writes: bool,
    vaddr: u64,
    data: Seq<u8>,
    r: Result<(), MemoryFault>,
    addr: int,
)
    requires
        b.wf(),
        table_wf(b, space, parent),
        table_wf(b, child_space, child),
        space != child_space,
        parent.contains_key(n),
        child.contains_key(n),
        !(e.source is Shared),
        e.source matches PageSource::Object { shared, .. } ==> !shared,
        forked(a, b, child_space, n, e, parent[n], child[n]),
        0 < data.len() <= 8,
        page_of(addr) == n,
        ({
            let ((_, writer), (_, reader)) = sides(space, parent, child_space, child, child_writes);
            &&& resolve(b, reader, n as int) is Some
            &&& out_of_reach(b, writer, reader, n as int)
            &&& store_scalar_outcome(b, c, writer, vaddr, data, r)
        }),
    ensures
        ({
            let (_, (_, reader)) = sides(space, parent, child_space, child, child_writes);
            &&& resolve(c, reader, n as int) == resolve(b, reader, n as int)
            &&& byte_at(c, reader, addr) == byte_at(b, reader, addr)
        }),
{
    let ((writing, writer), (reading, reader)) = sides(
        space,
        parent,
        child_space,
        child,
        child_writes,
    );
    if r is Ok {
        let p = page_of(vaddr as int);
        lemma_resolved(b, writing, writer, p);
        lemma_resolved(b, writing, writer, p + 1);
        lemma_store_scalar(b, writing, writer, vaddr as int, data);
        lemma_same_pages(b, c, reading, reader);
        let crossing = crosses(vaddr as int, data.len() as int);
        assert(in_place(b, writer, p));
        assert(crossing ==> in_place(b, writer, p + 1));
        if own_memory(b, reader, n as int) {
            lemma_fork_apart(b, writing, writer, p, reading, reader, n);
            if crossing {
                lemma_fork_apart(b, writing, writer, p + 1, reading, reader, n);
            }
        }
        let g = host_of(b, reader, n as int);
        assert(c.host[g].bytes == b.host[g].bytes);
    }
}

/// A store through pages that show memory of the machine leaves the embedder's
/// memory alone.
pub proof fn law_store_leaves_lent_memory(
    a: StoreView,
    b: StoreView,
    space: nat,
    table: Map<u64, PageEntry>,
    vaddr: int,
    data: Seq<u8>,
    required: Option<MemProt>,
    h: int,
    o: int,
)
    requires
        a.wf(),
        table_wf(a, space, table),
        0 <= vaddr,
        store_outcome(a, b, table, vaddr, data, required, Ok(())),
        forall|n: int|
            data.len() > 0 && page_of(vaddr) <= n <= page_of(vaddr + data.len() - 1)
                ==> #[trigger] own_memory(a, table, n),
        0 <= h < a.host.len(),
        a.host[h].lent,
        0 <= o < 4096,
    ensures
        b.host[h].bytes[o] == a.host[h].bytes[o],
{
    if data.len() > 0 {
        assert forall|n: int|
            page_of(vaddr) <= n <= page_of(vaddr + data.len() - 1) implies #[trigger] host_of(
            a,
            table,
            n,
        ) != h || !covered(vaddr, data.len() as int, n, o) by {
            assert(own_memory(a, table, n));
        }
        let k = pages_touched(vaddr, data.len() as int);
        lemma_store_keeps(a, space, table, vaddr, data, required, k, h, o);
    }
}

/// Once copied, a copy-on-write page shows memory of the machine, may be
/// written in place, and is seen by nobody else: a store to it changes neither
/// the embedder's memory that it may have shown nor what another address space
/// sees.
pub proof fn law_copied_pages_are_own(
    a: StoreView,
    b: StoreView,
    space: nat,
    table: Map<u64, PageEntry>,
    resolved: Map<u64, PageEntry>,
    n: u64,
)
    requires
        b.wf(),
        table_wf(b, space, resolved),
        resolved.contains_key(n),
        is_cow(table[n]),
        copied(a, b, table[n], resolved[n]),
    ensures
        in_place(b, resolved, n as int),
        own_memory(b, resolved, n as int),
        private_in_place(resolved[n]),
        resolve(b, resolved, n as int)->0.ptr.flags.write == table[n].protections.write,
{
    lemma_backing(b, space, resolved, n as int);
}

} // verus!
