//! The worker that moves the pages of memory objects leaves address spaces in
//! order.
use vstd::prelude::*;
use crate::page_store::{Holder, StoreView};
use crate::page_table::{
    contents, entry_ok, me, refers_page, refers_slot, resolve, table_wf, PageEntry, PageSource,
};

verus! {

/// The worker takes hold of a slot: address spaces stay valid and see what they
/// saw.
pub proof fn law_task_begins(st: StoreView, space: nat, table: Map<u64, PageEntry>, s: int)
    requires
        st.wf(),
        table_wf(st, space, table),
        0 <= s < st.slots.len(),
    ensures
        ({
            let b = st.hold_slot(s, Holder::Worker);
            &&& table_wf(b, space, table)
            &&& forall|n: int| #[trigger] resolve(b, table, n) == resolve(st, table, n)
            &&& forall|n: int| #[trigger] contents(b, table, n) == contents(st, table, n)
        }),
{
    let b = st.hold_slot(s, Holder::Worker);
    assert forall|n: u64| #[trigger] table.contains_key(n) implies entry_ok(b, space, n, table[n]) by {
        assert(entry_ok(st, space, n, table[n]));
    }
    assert forall|i: int, n: u64|
        0 <= i < b.slots.len() && #[trigger] b.slots[i].holders@.contains(me(space, n)) implies
        table.contains_key(n) && refers_slot(table[n], i) by {
        assert(st.slots[i].holders@.contains(me(space, n)));
    }
    assert forall|i: int, n: u64, m: u64|
        0 <= i < b.slots.len() && #[trigger] b.slots[i].holders@.contains(me(space, n))
            && #[trigger] b.slots[i].holders@.contains(me(space, m)) implies n == m by {
        assert(st.slots[i].holders@.contains(me(space, n)));
        assert(st.slots[i].holders@.contains(me(space, m)));
    }
    assert forall|n: int| #[trigger] resolve(b, table, n) == resolve(st, table, n) by {
        if 0 <= n <= u64::MAX && table.contains_key(n as u64) {
            assert(entry_ok(st, space, n as u64, table[n as u64]));
        }
    }
    assert forall|n: int| #[trigger] contents(b, table, n) == contents(st, table, n) by {
        assert(resolve(b, table, n) == resolve(st, table, n));
    }
}

/// A page that was faulted in shows what was read: address spaces stay valid,
/// the pages of the slot show the bytes, and all others what they showed.
pub proof fn law_page_becomes_resident(
    st: StoreView,
    space: nat,
    table: Map<u64, PageEntry>,
    s: int,
    bytes: Seq<u8>,
)
    requires
        st.wf(),
        st.fill_slot(s, bytes).wf(),
        table_wf(st, space, table),
        0 <= s < st.slots.len(),
        st.slots[s].page is None,
    ensures
        ({
            let b = st.fill_slot(s, bytes);
            &&& table_wf(b, space, table)
            &&& forall|n: u64| #[trigger]
                table.contains_key(n) ==> contents(b, table, n as int) == (if refers_slot(
                    table[n],
                    s,
                ) {
                    Some(bytes)
                } else {
                    contents(st, table, n as int)
                })
        }),
{
    let b = st.fill_slot(s, bytes);
    assert forall|n: u64| #[trigger] table.contains_key(n) implies entry_ok(b, space, n, table[n])
        && contents(b, table, n as int) == (if refers_slot(table[n], s) {
        Some(bytes)
    } else {
        contents(st, table, n as int)
    }) by {
        assert(entry_ok(st, space, n, table[n]));
        let e = table[n];
        match e.source {
            PageSource::Object { slot, .. } => {
                assert(st.slot_ok(slot as int));
                if slot != s {
                    if let Some(p) = st.slots[slot as int].page {
                        assert(st.page_ok(p as int));
                        assert(b.pages[p as int] == st.pages[p as int]);
                    }
                }
            },
            PageSource::Shared(p) => {
                assert(st.page_ok(p as int));
            },
            PageSource::Private { page: p, .. } => {
                assert(st.page_ok(p as int));
            },
        }
    }
    assert forall|i: int, n: u64|
        0 <= i < b.pages.len() && #[trigger] b.pages[i].holders@.contains(me(space, n)) implies
        table.contains_key(n) && refers_page(table[n], i) by {
        assert(i < st.pages.len());
        assert(st.pages[i].holders@.contains(me(space, n)));
    }
    assert forall|i: int, n: u64, m: u64|
        0 <= i < b.pages.len() && #[trigger] b.pages[i].holders@.contains(me(space, n))
            && #[trigger] b.pages[i].holders@.contains(me(space, m)) && n
            != m implies b.pages[i].holders@.contains(Holder::ZeroPage) by {
        assert(i < st.pages.len());
        assert(st.pages[i].holders@.contains(me(space, n)));
        assert(st.pages[i].holders@.contains(me(space, m)));
    }
    assert forall|i: int, n: u64|
        0 <= i < b.slots.len() && #[trigger] b.slots[i].holders@.contains(me(space, n)) implies
        table.contains_key(n) && refers_slot(table[n], i) by {
        assert(st.slots[i].holders@.contains(me(space, n)));
    }
    assert forall|i: int, n: u64, m: u64|
        0 <= i < b.slots.len() && #[trigger] b.slots[i].holders@.contains(me(space, n))
            && #[trigger] b.slots[i].holders@.contains(me(space, m)) implies n == m by {
        assert(st.slots[i].holders@.contains(me(space, n)));
        assert(st.slots[i].holders@.contains(me(space, m)));
    }
}

/// The worker lets go of a slot: address spaces stay valid and see what they
/// saw.
pub proof fn law_task_ends(st: StoreView, space: nat, table: Map<u64, PageEntry>, s: int)
    requires
        st.wf(),
        table_wf(st, space, table),
        0 <= s < st.slots.len(),
        st.slots[s].holders@.contains(Holder::Worker),
    ensures
        ({
            let b = st.release_slot(s, Holder::Worker);
            &&& table_wf(b, space, table)
            &&& forall|n: int| #[trigger] resolve(b, table, n) == resolve(st, table, n)
            &&& forall|n: int| #[trigger] contents(b, table, n) == contents(st, table, n)
        }),
{
    let b = st.release_slot(s, Holder::Worker);
    let held = st.slots[s].holders@;
    assert(st.slot_ok(s));
    let gone = st.slots[s].refs == 1;
    let k = Holder::Slot { slot: s as usize };
    assert(gone ==> held =~= Set::empty().insert(Holder::Worker)) by {
        if gone {
            assert(held.remove(Holder::Worker).len() == 0);
            assert forall|h: Holder| held.contains(h) implies h == Holder::Worker by {
                if h != Holder::Worker {
                    assert(held.remove(Holder::Worker).contains(h));
                }
            }
        }
    }
    let dropped = gone && st.slots[s].page is Some;
    let p = st.slots[s].page->0 as int;
    if dropped {
        assert(st.page_ok(p));
        assert(st.pages[p].holders@.contains(k));
    }
    assert forall|n: u64| #[trigger] table.contains_key(n) implies entry_ok(b, space, n, table[n])
        && resolve(b, table, n as int) == resolve(st, table, n as int) && contents(
        b,
        table,
        n as int,
    ) == contents(st, table, n as int) by {
        let e = table[n];
        assert(entry_ok(st, space, n, e));
        let q = match e.source {
            PageSource::Shared(q) => Some(q),
            PageSource::Private { page: q, .. } => Some(q),
            PageSource::Object { slot, .. } => st.slots[slot as int].page,
        };
        if let PageSource::Object { slot, .. } = e.source {
            assert(st.slot_ok(slot as int));
            assert(st.slots[slot as int].holders@.contains(me(space, n)));
            assert(gone ==> slot != s);
        }
        if let Some(q) = q {
            let q = q as int;
            let h = match e.source {
                PageSource::Object { slot, .. } => Holder::Slot { slot },
                _ => me(space, n),
            };
            assert(st.page_ok(q));
            assert(st.pages[q].holders@.contains(h));
            if dropped && st.drops_page(p) {
                if q == p {
                    assert(st.pages[p].holders@.remove(k).contains(h));
                    assert(st.pages[p].holders@.remove(k).remove(h).len() + 2
                        == st.pages[p].holders@.len());
                    assert(false);
                }
                if st.pages[p].should_dealloc && st.pages[q].allocated_page
                    == st.pages[p].allocated_page {
                    assert(st.pages[q].should_dealloc);
                    assert(q < p || p < q);
                    assert(false);
                }
            }
            if let PageSource::Private { write_protected: false, .. } = e.source {
                assert(b.pages[q].holders@ =~= st.pages[q].holders@);
            }
            if e.source is Object {
                assert(b.pages[q].holders@ =~= st.pages[q].holders@);
            }
        }
    }
    assert forall|i: int, n: u64|
        0 <= i < b.pages.len() && #[trigger] b.pages[i].holders@.contains(me(space, n)) implies
        table.contains_key(n) && refers_page(table[n], i) by {
        assert(st.pages[i].holders@.contains(me(space, n)));
    }
    assert forall|i: int, n: u64, m: u64|
        0 <= i < b.pages.len() && #[trigger] b.pages[i].holders@.contains(me(space, n))
            && #[trigger] b.pages[i].holders@.contains(me(space, m)) && n
            != m implies b.pages[i].holders@.contains(Holder::ZeroPage) by {
        assert(st.pages[i].holders@.contains(me(space, n)));
        assert(st.pages[i].holders@.contains(me(space, m)));
    }
    assert forall|i: int, n: u64|
        0 <= i < b.slots.len() && #[trigger] b.slots[i].holders@.contains(me(space, n)) implies
        table.contains_key(n) && refers_slot(table[n], i) by {
        assert(st.slots[i].holders@.contains(me(space, n)));
    }
    assert forall|i: int, n: u64, m: u64|
        0 <= i < b.slots.len() && #[trigger] b.slots[i].holders@.contains(me(space, n))
            && #[trigger] b.slots[i].holders@.contains(me(space, m)) implies n == m by {
        assert(st.slots[i].holders@.contains(me(space, n)));
        assert(st.slots[i].holders@.contains(me(space, m)));
    }
    assert forall|n: int| #[trigger] resolve(b, table, n) == resolve(st, table, n) by {
        if 0 <= n <= u64::MAX && table.contains_key(n as u64) {
            assert(resolve(b, table, (n as u64) as int) == resolve(st, table, (n as u64) as int));
        }
    }
    assert forall|n: int| #[trigger] contents(b, table, n) == contents(st, table, n) by {
        if 0 <= n <= u64::MAX && table.contains_key(n as u64) {
            assert(contents(b, table, (n as u64) as int) == contents(st, table, (n as u64) as int));
        }
    }
}

} // verus!
