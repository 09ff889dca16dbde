//! What flushing an address space does to its pages, and which slots it asks to
//! write back or to load.
use vstd::prelude::*;
use crate::cpu_fabric::CpuFabric;
use crate::icache::ICache;
use crate::io_mmu::IoMMU;
use crate::memory::PagePointer;
use crate::page_store::{Holder, StoreView};
use crate::page_table::{
    backing_of, entry_ok, flush_fold, flush_step, init_fold, lists_pages, me, resident_ok,
    same_but_dirty, table_wf, FlushState, PageEntry, PageSource,
};

verus! {

/// Page `b` is shown by the entry of guest page `n`.
pub open spec fn shows(st: StoreView, table: Map<u64, PageEntry>, n: u64, b: int) -> bool {
    &&& table.contains_key(n)
    &&& match table[n].source {
        PageSource::Shared(p) => p == b,
        PageSource::Private { page: p, .. } => p == b,
        PageSource::Object { slot, .. } => st.slots[slot as int].page matches Some(p) && p == b,
    }
}

/// But for the zero page, no two entries show the same page.
proof fn lemma_shown_once(st: StoreView, space: nat, table: Map<u64, PageEntry>, n: u64, m: u64, b: int)
    requires
        st.wf(),
        table_wf(st, space, table),
        shows(st, table, n, b),
        shows(st, table, m, b),
    ensures
        n == m || (st.zero_page matches Some(z) && z == b),
        0 <= b < st.pages.len(),
        st.pages[b].dirty_page_flags <= 3,
{
    assert(entry_ok(st, space, n, table[n]));
    assert(entry_ok(st, space, m, table[m]));
    if let PageSource::Object { slot, .. } = table[n].source {
        assert(st.slot_ok(slot as int));
        assert(resident_ok(st, slot as int));
        assert(st.pages[b].holders@.contains(Holder::Slot { slot }));
    }
    if let PageSource::Object { slot, .. } = table[m].source {
        assert(st.slot_ok(slot as int));
        assert(resident_ok(st, slot as int));
        assert(st.pages[b].holders@.contains(Holder::Slot { slot }));
    }
    assert(st.page_ok(b));
    if n != m && !(table[n].source is Object) && !(table[m].source is Object) {
        assert(st.pages[b].holders@.contains(me(space, n)));
        assert(st.pages[b].holders@.contains(me(space, m)));
    }
}

/// One of the first `k` pages of `order` shows page `b`.
spec fn shown(st: StoreView, table: Map<u64, PageEntry>, order: Seq<u64>, k: int, b: int) -> bool {
    exists|j: int| 0 <= j < k && shows(st, table, #[trigger] order[j], b)
}

/// Guest page `n` shows a page of slot `slot` of a shared object that has
/// something to write back.
pub open spec fn to_write_back(st: StoreView, table: Map<u64, PageEntry>, n: u64, slot: usize) -> bool {
    &&& table.contains_key(n)
    &&& table[n].source == (PageSource::Object { slot, shared: true })
    &&& st.slots[slot as int].page matches Some(b)
    &&& st.pages[b as int].dirty_page_flags != 0
}

/// The host memory `ptr` is what guest page `n` shows, and it has pending
/// writes.
pub open spec fn dirty_at(st: StoreView, table: Map<u64, PageEntry>, n: u64, ptr: PagePointer) -> bool {
    exists|b: int|
        #![trigger st.pages[b]]
        shows(st, table, n, b) && st.pages[b].dirty_page_flags != 0 && st.pages[b].allocated_page
            == ptr
}

/// What the first `k` steps of a flush did.
spec fn flushed_so_far(
    start: FlushState,
    s: FlushState,
    table: Map<u64, PageEntry>,
    order: Seq<u64>,
    k: int,
) -> bool {
    let st = start.store;
    &&& same_but_dirty(st, s.store)
    &&& forall|b: int|
        #![trigger s.store.pages[b]]
        0 <= b < st.pages.len() ==> {
            let before = st.pages[b].dirty_page_flags;
            let after = s.store.pages[b].dirty_page_flags;
            &&& !shown(st, table, order, k, b) ==> after == before
            &&& shown(st, table, order, k, b) && before < 3 ==> after == 0
            &&& shown(st, table, order, k, b) && before == 3 && st.zero_page != Some(b as usize)
                ==> after == 1
        }
    &&& s.requests.no_duplicates()
    &&& forall|slot: usize| #[trigger]
        s.requests.contains(slot) <==> exists|j: int|
            0 <= j < k && to_write_back(st, table, #[trigger] order[j], slot)
    &&& s.log.len() >= start.log.len()
    &&& forall|i: int| 0 <= i < start.log.len() ==> #[trigger] s.log[i] == start.log[i]
    &&& forall|i: int|
        #![trigger s.log[i]]
        start.log.len() <= i < s.log.len() ==> exists|j: int|
            0 <= j < k && dirty_at(st, table, #[trigger] order[j], s.log[i])
    &&& forall|j: int, ptr: PagePointer|
        0 <= j < k && #[trigger] dirty_at(st, table, order[j], ptr) ==> exists|i: int|
            start.log.len() <= i < s.log.len() && #[trigger] s.log[i] == ptr
}

/// Entry `n` shows page `b` and no other, and if another entry did before, `b`
/// is the zero page.
proof fn lemma_first_shown(
    st: StoreView,
    space: nat,
    table: Map<u64, PageEntry>,
    order: Seq<u64>,
    j: int,
    b: int,
)
    requires
        st.wf(),
        table_wf(st, space, table),
        lists_pages(order, table),
        0 <= j < order.len(),
        shows(st, table, order[j], b),
    ensures
        shown(st, table, order, j, b) ==> st.zero_page == Some(b as usize),
        table[order[j]].source is Object ==> !shown(st, table, order, j, b),
        0 <= b < st.pages.len(),
        st.pages[b].dirty_page_flags <= 3,
{
    let n = order[j];
    lemma_shown_once(st, space, table, n, n, b);
    if shown(st, table, order, j, b) {
        let i = choose|i: int| 0 <= i < j && shows(st, table, #[trigger] order[i], b);
        lemma_shown_once(st, space, table, n, order[i], b);
        assert(order[i] != n);
        if let PageSource::Object { slot, .. } = table[n].source {
            assert(entry_ok(st, space, n, table[n]));
            assert(st.slot_ok(slot as int));
        }
    }
}

proof fn lemma_flush_step(
    start: FlushState,
    s: FlushState,
    space: nat,
    table: Map<u64, PageEntry>,
    order: Seq<u64>,
    j: int,
)
    requires
        start.store.wf(),
        table_wf(start.store, space, table),
        lists_pages(order, table),
        0 <= j < order.len(),
        flushed_so_far(start, s, table, order, j),
    ensures
        flushed_so_far(start, flush_step(s, table[order[j]]), table, order, j + 1),
{
    let st = start.store;
    let n = order[j];
    let e = table[n];
    let t = flush_step(s, e);
    assert(order.contains(n));
    assert(entry_ok(st, space, n, e));
    if let PageSource::Object { slot, .. } = e.source {
        assert(st.slot_ok(slot as int));
    }
    assert forall|b: int| shown(st, table, order, j + 1, b) <==> shown(st, table, order, j, b)
        || shows(st, table, n, b) by {
        if shown(st, table, order, j + 1, b) {
            let i = choose|i: int| 0 <= i < j + 1 && shows(st, table, #[trigger] order[i], b);
            assert(i == j || shows(st, table, order[i], b));
        }
        if shown(st, table, order, j, b) {
            let i = choose|i: int| 0 <= i < j && shows(st, table, #[trigger] order[i], b);
            assert(shows(st, table, order[i], b));
        }
    }
    match backing_of(st, e) {
        None => {
            assert(t == s);
            assert forall|b: int| !shows(st, table, n, b) by {}
        },
        Some(page) => {
            let b = page as int;
            assert(shows(st, table, n, b));
            assert(forall|c: int| shows(st, table, n, c) ==> c == b);
            lemma_first_shown(st, space, table, order, j, b);
            let now = s.store.pages[b].dirty_page_flags;
            let before = st.pages[b].dirty_page_flags;
            assert(now != 0 ==> before != 0);
            assert(t.store.pages.len() == st.pages.len());
            assert(forall|c: int|
                0 <= c < st.pages.len() && c != b ==> t.store.pages[c] == s.store.pages[c]);
        },
    }
    assert(same_but_dirty(st, t.store));
    lemma_requests_step(start, s, space, table, order, j);
    lemma_log_step(start, s, space, table, order, j);
}

proof fn lemma_requests_step(
    start: FlushState,
    s: FlushState,
    space: nat,
    table: Map<u64, PageEntry>,
    order: Seq<u64>,
    j: int,
)
    requires
        start.store.wf(),
        table_wf(start.store, space, table),
        lists_pages(order, table),
        0 <= j < order.len(),
        flushed_so_far(start, s, table, order, j),
    ensures
        ({
            let t = flush_step(s, table[order[j]]);
            &&& t.requests.no_duplicates()
            &&& forall|slot: usize| #[trigger]
                t.requests.contains(slot) <==> exists|i: int|
                    0 <= i < j + 1 && to_write_back(start.store, table, #[trigger] order[i], slot)
        }),
{
    let st = start.store;
    let n = order[j];
    let e = table[n];
    let t = flush_step(s, e);
    assert(order.contains(n));
    assert(entry_ok(st, space, n, e));
    let pushed = t.requests != s.requests;
    if let PageSource::Object { slot, shared } = e.source {
        assert(st.slot_ok(slot as int));
        if let Some(page) = st.slots[slot as int].page {
            let b = page as int;
            assert(shows(st, table, n, b));
            lemma_first_shown(st, space, table, order, j, b);
            assert(s.store.pages[b].dirty_page_flags == st.pages[b].dirty_page_flags);
            if shared && st.pages[b].dirty_page_flags != 0 {
                assert(to_write_back(st, table, n, slot));
                assert(t.requests == s.requests.push(slot));
                assert(!s.requests.contains(slot)) by {
                    if s.requests.contains(slot) {
                        let i = choose|i: int|
                            0 <= i < j && to_write_back(st, table, #[trigger] order[i], slot);
                        assert(shows(st, table, order[i], b));
                        assert(false);
                    }
                }
                assert(t.requests.last() == slot);
                assert(t.requests.contains(slot));
            } else {
                assert(t.requests == s.requests);
                assert(forall|other: usize| !to_write_back(st, table, n, other));
            }
        } else {
            assert(t.requests == s.requests);
            assert(forall|other: usize| !to_write_back(st, table, n, other));
        }
    } else {
        assert(t.requests == s.requests);
        assert(forall|other: usize| !to_write_back(st, table, n, other));
    }
    assert forall|slot: usize| #[trigger]
        t.requests.contains(slot) <==> exists|i: int|
            0 <= i < j + 1 && to_write_back(st, table, #[trigger] order[i], slot) by {
        if t.requests.contains(slot) {
            if s.requests.contains(slot) {
                let i = choose|i: int|
                    0 <= i < j && to_write_back(st, table, #[trigger] order[i], slot);
                assert(to_write_back(st, table, order[i], slot));
            } else {
                let p = choose|p: int| 0 <= p < t.requests.len() && t.requests[p] == slot;
                if p < s.requests.len() {
                    assert(s.requests[p] == slot);
                }
                assert(to_write_back(st, table, order[j], slot));
            }
        }
        if exists|i: int| 0 <= i < j + 1 && to_write_back(st, table, #[trigger] order[i], slot) {
            let i = choose|i: int|
                0 <= i < j + 1 && to_write_back(st, table, #[trigger] order[i], slot);
            if i < j {
                assert(to_write_back(st, table, order[i], slot));
                assert(s.requests.contains(slot));
                let p = choose|p: int| 0 <= p < s.requests.len() && s.requests[p] == slot;
                assert(t.requests[p] == slot);
            }
        }
    }
}

proof fn lemma_log_step(
    start: FlushState,
    s: FlushState,
    space: nat,
    table: Map<u64, PageEntry>,
    order: Seq<u64>,
    j: int,
)
    requires
        start.store.wf(),
        table_wf(start.store, space, table),
        lists_pages(order, table),
        0 <= j < order.len(),
        flushed_so_far(start, s, table, order, j),
    ensures
        ({
            let t = flush_step(s, table[order[j]]);
            let st = start.store;
            &&& t.log.len() >= start.log.len()
            &&& forall|i: int| 0 <= i < start.log.len() ==> #[trigger] t.log[i] == start.log[i]
            &&& forall|i: int|
                #![trigger t.log[i]]
                start.log.len() <= i < t.log.len() ==> exists|l: int|
                    0 <= l < j + 1 && dirty_at(st, table, #[trigger] order[l], t.log[i])
            &&& forall|l: int, ptr: PagePointer|
                0 <= l < j + 1 && #[trigger] dirty_at(st, table, order[l], ptr) ==> exists|i: int|
                    start.log.len() <= i < t.log.len() && #[trigger] t.log[i] == ptr
        }),
{
    let st = start.store;
    let n = order[j];
    let e = table[n];
    let t = flush_step(s, e);
    assert(order.contains(n));
    assert(entry_ok(st, space, n, e));
    if let PageSource::Object { slot, .. } = e.source {
        assert(st.slot_ok(slot as int));
    }
    if let Some(page) = backing_of(st, e) {
        let b = page as int;
        assert(shows(st, table, n, b));
        lemma_first_shown(st, space, table, order, j, b);
        assert(s.store.pages[b].allocated_page == st.pages[b].allocated_page);
        if s.store.pages[b].dirty_page_flags != 0 {
            assert(st.pages[b].dirty_page_flags != 0);
            assert(dirty_at(st, table, order[j], st.pages[b].allocated_page));
            assert(t.log == s.log.push(st.pages[b].allocated_page));
            assert(t.log[s.log.len() as int] == st.pages[b].allocated_page);
        }
    }
    assert forall|i: int|
        #![trigger t.log[i]]
        start.log.len() <= i < t.log.len() implies exists|l: int|
        0 <= l < j + 1 && dirty_at(st, table, #[trigger] order[l], t.log[i]) by {
        if i < s.log.len() {
            assert(t.log[i] == s.log[i]);
            let l = choose|l: int| 0 <= l < j && dirty_at(st, table, #[trigger] order[l], s.log[i]);
            assert(dirty_at(st, table, order[l], t.log[i]));
        }
    }
    assert forall|l: int, ptr: PagePointer|
        0 <= l < j + 1 && #[trigger] dirty_at(st, table, order[l], ptr) implies exists|i: int|
        start.log.len() <= i < t.log.len() && #[trigger] t.log[i] == ptr by {
        if l < j {
            let i = choose|i: int| start.log.len() <= i < s.log.len() && #[trigger] s.log[i] == ptr;
            assert(t.log[i] == ptr);
        } else {
            let b = choose|b: int|
                #![trigger st.pages[b]]
                shows(st, table, n, b) && st.pages[b].dirty_page_flags != 0
                    && st.pages[b].allocated_page == ptr;
            assert(backing_of(st, e) == Some(b as usize));
            if s.store.pages[b].dirty_page_flags == 0 {
                assert(shown(st, table, order, j, b));
                let i = choose|i: int| 0 <= i < j && shows(st, table, #[trigger] order[i], b);
                assert(dirty_at(st, table, order[i], ptr));
                let k = choose|k: int|
                    start.log.len() <= k < s.log.len() && #[trigger] s.log[k] == ptr;
                assert(t.log[k] == ptr);
            } else {
                assert(t.log[s.log.len() as int] == ptr);
            }
        }
    }
}

proof fn lemma_flush_fold(
    start: FlushState,
    space: nat,
    table: Map<u64, PageEntry>,
    order: Seq<u64>,
    k: nat,
)
    requires
        start.store.wf(),
        table_wf(start.store, space, table),
        lists_pages(order, table),
        k <= order.len(),
        start.requests == Seq::<usize>::empty(),
    ensures
        flushed_so_far(start, flush_fold(start, table, order, k), table, order, k as int),
    decreases k,
{
    if k > 0 {
        lemma_flush_fold(start, space, table, order, (k - 1) as nat);
        lemma_flush_step(
            start,
            flush_fold(start, table, order, (k - 1) as nat),
            space,
            table,
            order,
            k - 1,
        );
    }
}

/// After a flush every page that the address space shows is clean, but for one
/// that was written while a write-back of it was under way, which stays dirty
/// for the next flush. No other page changes, and nothing but dirty states
/// does. The slots to write back are those of the shared object pages that
/// were dirty, each once, and exactly the dirty pages are notified.
pub proof fn law_flush<T: ICache>(mmu: &IoMMU, fabric: &mut CpuFabric<T>, r: Vec<usize>)
    requires
        mmu.wf(*old(fabric)),
        call_ensures(IoMMU::flush::<T>, (mmu, fabric), r) || call_ensures(
            IoMMU::refresh::<T>,
            (mmu, fabric),
            r,
        ),
    ensures
        forall|n: u64, b: int|
            #![trigger shows(old(fabric).store@, mmu.table@, n, b)]
            shows(old(fabric).store@, mmu.table@, n, b) ==> {
                let before = old(fabric).store@.pages[b].dirty_page_flags;
                let after = final(fabric).store@.pages[b].dirty_page_flags;
                &&& before < 3 ==> after == 0
                &&& before == 3 && old(fabric).store@.zero_page != Some(b as usize) ==> after == 1
            },
        forall|b: int|
            #![trigger final(fabric).store@.pages[b]]
            0 <= b < old(fabric).store@.pages.len() && (forall|n: u64|
                !#[trigger] shows(old(fabric).store@, mmu.table@, n, b)) ==> final(
                fabric
            ).store@.pages[b].dirty_page_flags == old(fabric).store@.pages[b].dirty_page_flags,
        final(fabric).store@.host == old(fabric).store@.host,
        final(fabric).store@.slots == old(fabric).store@.slots,
        r@.no_duplicates(),
        forall|slot: usize| #[trigger]
            r@.contains(slot) <==> exists|n: u64| #[trigger]
                to_write_back(old(fabric).store@, mmu.table@, n, slot),
        ({
            let log = old(fabric).instruction_cache.invalidated();
            let now = final(fabric).instruction_cache.invalidated();
            &&& now.len() >= log.len()
            &&& forall|i: int| 0 <= i < log.len() ==> #[trigger] now[i] == log[i]
            &&& forall|ptr: PagePointer| #[trigger]
                now.skip(log.len() as int).contains(ptr) <==> exists|n: u64| #[trigger]
                    dirty_at(old(fabric).store@, mmu.table@, n, ptr)
        }),
{
    let table = mmu.table@;
    let st = old(fabric).store@;
    let start = FlushState {
        store: st,
        log: old(fabric).instruction_cache.invalidated(),
        requests: seq![],
    };
    let end = FlushState {
        store: final(fabric).store@,
        log: final(fabric).instruction_cache.invalidated(),
        requests: r@,
    };
    let order = choose|order: Seq<u64>| #[trigger]
        lists_pages(order, table) && flush_fold(start, table, order, order.len()) == end;
    lemma_flush_fold(start, mmu.table.space@, table, order, order.len());
    assert(flushed_so_far(start, end, table, order, order.len() as int));
    assert forall|n: u64, b: int|
        #![trigger shows(st, table, n, b)]
        shows(st, table, n, b) implies 0 <= b < st.pages.len() && shown(
        st,
        table,
        order,
        order.len() as int,
        b,
    ) by {
        lemma_shown_once(st, mmu.table.space@, table, n, n, b);
        assert(order.contains(n));
        let j = order.index_of(n);
        assert(shows(st, table, order[j], b));
    }
    assert forall|slot: usize| #[trigger]
        r@.contains(slot) <==> exists|n: u64| #[trigger] to_write_back(st, table, n, slot) by {
        if r@.contains(slot) {
            let j = choose|j: int|
                0 <= j < order.len() && to_write_back(st, table, #[trigger] order[j], slot);
            assert(to_write_back(st, table, order[j], slot));
        }
        if exists|n: u64| #[trigger] to_write_back(st, table, n, slot) {
            let n = choose|n: u64| #[trigger] to_write_back(st, table, n, slot);
            assert(order.contains(n));
            let j = order.index_of(n);
            assert(to_write_back(st, table, order[j], slot));
        }
    }
    let news = end.log.skip(start.log.len() as int);
    assert forall|ptr: PagePointer| #[trigger]
        news.contains(ptr) <==> exists|n: u64| #[trigger] dirty_at(st, table, n, ptr) by {
        if news.contains(ptr) {
            let i = news.index_of(ptr) + start.log.len();
            assert(end.log[i] == ptr);
            let j = choose|j: int|
                0 <= j < order.len() && dirty_at(st, table, #[trigger] order[j], end.log[i]);
            assert(dirty_at(st, table, order[j], ptr));
        }
        if exists|n: u64| #[trigger] dirty_at(st, table, n, ptr) {
            let n = choose|n: u64| #[trigger] dirty_at(st, table, n, ptr);
            assert(table.contains_key(n));
            assert(order.contains(n));
            let j = order.index_of(n);
            assert(dirty_at(st, table, order[j], ptr));
            let i = choose|i: int|
                start.log.len() <= i < end.log.len() && #[trigger] end.log[i] == ptr;
            assert(news[i - start.log.len()] == ptr);
        }
    }
}

/// Guest page `n` stands for a page of slot `slot` that was not read yet.
pub open spec fn to_load(st: StoreView, table: Map<u64, PageEntry>, n: u64, slot: usize) -> bool {
    &&& table.contains_key(n)
    &&& table[n].source matches PageSource::Object { slot: of_page, .. }
    &&& of_page == slot
    &&& st.slots[slot as int].page is None
}

proof fn lemma_init_fold(
    st: StoreView,
    space: nat,
    table: Map<u64, PageEntry>,
    order: Seq<u64>,
    k: nat,
)
    requires
        st.wf(),
        table_wf(st, space, table),
        lists_pages(order, table),
        k <= order.len(),
    ensures
        init_fold(st, table, order, k).no_duplicates(),
        forall|slot: usize| #[trigger]
            init_fold(st, table, order, k).contains(slot) <==> exists|j: int|
                0 <= j < k && to_load(st, table, #[trigger] order[j], slot),
    decreases k,
{
    let t = init_fold(st, table, order, k);
    if k > 0 {
        let j = k - 1;
        lemma_init_fold(st, space, table, order, j as nat);
        let s = init_fold(st, table, order, j as nat);
        let n = order[j];
        assert(order.contains(n));
        assert(entry_ok(st, space, n, table[n]));
        if let PageSource::Object { slot, .. } = table[n].source {
            if st.slots[slot as int].page is None {
                assert(to_load(st, table, n, slot));
                assert(!s.contains(slot)) by {
                    if s.contains(slot) {
                        let i = choose|i: int|
                            0 <= i < j && to_load(st, table, #[trigger] order[i], slot);
                        assert(order.contains(order[i]));
                        assert(entry_ok(st, space, order[i], table[order[i]]));
                        assert(st.slots[slot as int].holders@.contains(me(space, n)));
                        assert(st.slots[slot as int].holders@.contains(me(space, order[i])));
                        assert(order[i] == n);
                        assert(false);
                    }
                }
                assert(t == s.push(slot));
                assert(t.last() == slot);
            }
        }
        assert forall|slot: usize| #[trigger]
            t.contains(slot) <==> exists|i: int|
                0 <= i < k && to_load(st, table, #[trigger] order[i], slot) by {
            if t.contains(slot) {
                if s.contains(slot) {
                    let i = choose|i: int|
                        0 <= i < j && to_load(st, table, #[trigger] order[i], slot);
                    assert(to_load(st, table, order[i], slot));
                } else {
                    let p = choose|p: int| 0 <= p < t.len() && t[p] == slot;
                    if p < s.len() {
                        assert(s[p] == slot);
                    }
                    assert(to_load(st, table, order[j], slot));
                }
            }
            if exists|i: int| 0 <= i < k && to_load(st, table, #[trigger] order[i], slot) {
                let i = choose|i: int| 0 <= i < k && to_load(st, table, #[trigger] order[i], slot);
                if i < j {
                    assert(to_load(st, table, order[i], slot));
                    assert(s.contains(slot));
                    let p = choose|p: int| 0 <= p < s.len() && s[p] == slot;
                    assert(t[p] == slot);
                } else {
                    assert(t[s.len() as int] == slot);
                }
            }
        }
    }
}

/// The slots to load are those of the mapped object pages that were not read
/// yet, each once.
pub proof fn law_fault_in_all<T: ICache>(mmu: &IoMMU, fabric: &CpuFabric<T>, r: Vec<usize>)
    requires
        mmu.wf(*fabric),
        call_ensures(IoMMU::fault_in_all_memory_objects::<T>, (mmu, fabric), r),
    ensures
        r@.no_duplicates(),
        forall|slot: usize| #[trigger]
            r@.contains(slot) <==> exists|n: u64| #[trigger]
                to_load(fabric.store@, mmu.table@, n, slot),
{
    let st = fabric.store@;
    let table = mmu.table@;
    let order = choose|order: Seq<u64>| #[trigger]
        lists_pages(order, table) && r@ == init_fold(st, table, order, order.len());
    lemma_init_fold(st, mmu.table.space@, table, order, order.len());
    assert forall|slot: usize| #[trigger]
        r@.contains(slot) <==> exists|n: u64| #[trigger] to_load(st, table, n, slot) by {
        if r@.contains(slot) {
            let j = choose|j: int|
                0 <= j < order.len() && to_load(st, table, #[trigger] order[j], slot);
            assert(to_load(st, table, order[j], slot));
        }
        if exists|n: u64| #[trigger] to_load(st, table, n, slot) {
            let n = choose|n: u64| #[trigger] to_load(st, table, n, slot);
            assert(order.contains(n));
            let j = order.index_of(n);
            assert(to_load(st, table, order[j], slot));
        }
    }
}

} // verus!
