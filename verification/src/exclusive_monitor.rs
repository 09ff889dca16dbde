//! A global exclusive monitor implementing ARM load-/store-exclusive
//! semantics (`LDXR`/`STXR`) in software.
//!
//! [`ExclusiveMonitor::ldrex`] takes a reservation on a host address and
//! [`ExclusiveMonitor::strex`] only commits its store if that reservation is
//! still intact - i.e., no other reservation was taken on a conflicting
//! address in between. Reservations are tracked in a fixed number of hashed,
//! versioned buckets, so unrelated addresses may alias into the same bucket;
//! that can cause spurious [`ReservationLost`] failures but never a wrongly
//! successful store.
use vstd::prelude::*;
use vstd::std_specs::convert::FromSpecImpl;

verus! {

/// Number of buckets; a prime, to reduce collisions.
pub const BUCKET_COUNT: usize = 257;

/// Base-two logarithm of the size of a cache line.
pub const CACHE_LINE_SHIFT: u128 = 6;

/// A host address. It has room for every byte of every host page.
#[derive(Clone, Copy, PartialEq, Eq, Structural, Debug)]
pub struct HostPointer {
    pub addr: u128,
}

/// The bits of a cache line number, well mixed.
pub open spec fn split_mix(line: u64) -> u64 {
    let a = line ^ (line >> 30u64);
    let b = a.wrapping_mul(0xbf58_476d_1ce4_e5b9);
    let c = b ^ (b >> 27u64);
    let d = c.wrapping_mul(0x94d0_49bb_1331_11eb);
    d ^ (d >> 31u64)
}

/// The bucket of an address. All addresses of a cache line share one.
pub open spec fn bucket_of(ptr: HostPointer) -> int {
    split_mix((ptr.addr >> CACHE_LINE_SHIFT) as u64) as int % 257
}

/// The bucket of an address.
pub fn reservation_index(ptr: HostPointer) -> (r: usize)
    ensures
        r == bucket_of(ptr),
        r < BUCKET_COUNT,
{
    let mut x: u64 = (ptr.addr >> CACHE_LINE_SHIFT) as u64;
    x = x ^ (x >> 30u64);
    x = x.wrapping_mul(0xbf58_476d_1ce4_e5b9);
    x = x ^ (x >> 27u64);
    x = x.wrapping_mul(0x94d0_49bb_1331_11eb);
    x = x ^ (x >> 31u64);
    (x % 257) as usize
}

/// A monotonically increasing version number for a reservation bucket.
///
/// Each successful [`strex`](ExclusiveMonitor::strex) bumps the bucket's
/// version, invalidating every outstanding [`Reservation`] that was taken
/// against the old version.
#[derive(Clone, Copy, PartialEq, Eq, Structural, Debug)]
pub struct Version {
    pub number: u128,
}

impl Version {
    /// Whether there is no next version.
    pub fn exhausted(self) -> (r: bool)
        ensures
            r == (self.number == u128::MAX),
    {
        self.number == u128::MAX
    }
}

/// The value observed by an exclusive load, tagged with its access width.
#[derive(Clone, Copy, PartialEq, Eq, Structural, Debug)]
pub enum ExclusiveMonitorLoad {
    /// A 128-bit exclusive load (e.g. `LDXP` on two 64-bit registers).
    U128(u128),
    /// A 64-bit exclusive load.
    U64(u64),
    /// A 32-bit exclusive load.
    U32(u32),
    /// A 16-bit exclusive load.
    U16(u16),
    /// An 8-bit exclusive load.
    U8(u8),
}

impl From<u128> for ExclusiveMonitorLoad {
    fn from(value: u128) -> (r: Self) {
        ExclusiveMonitorLoad::U128(value)
    }
}

impl FromSpecImpl<u128> for ExclusiveMonitorLoad {
    open spec fn obeys_from_spec() -> bool {
        true
    }

    open spec fn from_spec(value: u128) -> Self {
        ExclusiveMonitorLoad::U128(value)
    }
}

impl From<u64> for ExclusiveMonitorLoad {
    fn from(value: u64) -> (r: Self) {
        ExclusiveMonitorLoad::U64(value)
    }
}

impl FromSpecImpl<u64> for ExclusiveMonitorLoad {
    open spec fn obeys_from_spec() -> bool {
        true
    }

    open spec fn from_spec(value: u64) -> Self {
        ExclusiveMonitorLoad::U64(value)
    }
}

impl From<u32> for ExclusiveMonitorLoad {
    fn from(value: u32) -> (r: Self) {
        ExclusiveMonitorLoad::U32(value)
    }
}

impl FromSpecImpl<u32> for ExclusiveMonitorLoad {
    open spec fn obeys_from_spec() -> bool {
        true
    }

    open spec fn from_spec(value: u32) -> Self {
        ExclusiveMonitorLoad::U32(value)
    }
}

impl From<u16> for ExclusiveMonitorLoad {
    fn from(value: u16) -> (r: Self) {
        ExclusiveMonitorLoad::U16(value)
    }
}

impl FromSpecImpl<u16> for ExclusiveMonitorLoad {
    open spec fn obeys_from_spec() -> bool {
        true
    }

    open spec fn from_spec(value: u16) -> Self {
        ExclusiveMonitorLoad::U16(value)
    }
}

impl From<u8> for ExclusiveMonitorLoad {
    fn from(value: u8) -> (r: Self) {
        ExclusiveMonitorLoad::U8(value)
    }
}

impl FromSpecImpl<u8> for ExclusiveMonitorLoad {
    open spec fn obeys_from_spec() -> bool {
        true
    }

    open spec fn from_spec(value: u8) -> Self {
        ExclusiveMonitorLoad::U8(value)
    }
}

/// Proof of a reservation taken by [`ExclusiveMonitor::ldrex`].
///
/// Pass the version to [`ExclusiveMonitor::strex`] to attempt the matching
/// exclusive store; the store only succeeds if the reservation is still
/// intact.
#[derive(Clone, Copy, PartialEq, Eq, Structural, Debug)]
pub struct Reservation {
    /// The bucket's [`Version`] at the time this reservation was taken.
    pub version: Version,
    /// The value observed by the exclusive load which created this token.
    pub value: ExclusiveMonitorLoad,
}

/// A reservation as it is handed out.
pub type ReservationToken = Reservation;

impl Reservation {
    /// The value observed by the exclusive load.
    pub fn value(&self) -> (r: ExclusiveMonitorLoad)
        ensures
            r == self.value,
    {
        self.value
    }
}

/// The state of one reservation bucket: the last reserved address (if any)
/// and the bucket's current [`Version`].
#[derive(Clone, Copy, PartialEq, Eq, Structural, Debug)]
pub struct ReservationSlot {
    pub ptr: Option<HostPointer>,
    pub version: Version,
}

/// Error returned by [`ExclusiveMonitor::strex`] when the reservation was
/// lost between the exclusive load and the exclusive store, so the store was
/// not performed. This corresponds to a failing `STXR`; the usual response is
/// to retry the load/store-exclusive loop.
#[derive(Clone, Copy, PartialEq, Eq, Structural, Debug)]
pub struct ReservationLost;

/// A software exclusive monitor shared by every CPU of a machine.
pub struct ExclusiveMonitor {
    pub reservations: Vec<ReservationSlot>,
}

/// The buckets once an exclusive load reserved `ptr`.
pub open spec fn reserve(slots: Seq<ReservationSlot>, ptr: HostPointer) -> Seq<ReservationSlot> {
    let b = bucket_of(ptr);
    slots.update(b, ReservationSlot { ptr: Some(ptr), ..slots[b] })
}

/// Whether the reservation on `ptr` taken at `version` is still there.
pub open spec fn intact(slots: Seq<ReservationSlot>, ptr: HostPointer, version: Version) -> bool {
    slots[bucket_of(ptr)] == (ReservationSlot { ptr: Some(ptr), version })
}

/// The buckets once an exclusive store used up the reservation on `ptr`.
pub open spec fn consume(slots: Seq<ReservationSlot>, ptr: HostPointer) -> Seq<ReservationSlot> {
    let b = bucket_of(ptr);
    slots.update(
        b,
        ReservationSlot {
            version: Version { number: (slots[b].version.number + 1) as u128 },
            ..slots[b]
        },
    )
}

impl ExclusiveMonitor {
    pub open spec fn wf(self) -> bool {
        self.reservations@.len() == BUCKET_COUNT
    }

    /// The bucket of `ptr` has a next version.
    pub open spec fn has_version(self, ptr: HostPointer) -> bool {
        self.reservations@[bucket_of(ptr)].version.number < u128::MAX
    }

    /// A monitor without reservations.
    pub fn new() -> (r: Self)
        ensures
            r.wf(),
            forall|i: int|
                0 <= i < BUCKET_COUNT ==> #[trigger] r.reservations@[i] == (ReservationSlot {
                    ptr: None,
                    version: Version { number: 0 },
                }),
    {
        let mut reservations: Vec<ReservationSlot> = Vec::new();
        let mut i: usize = 0;
        while i < BUCKET_COUNT
            invariant
                i <= BUCKET_COUNT,
                reservations@.len() == i,
                forall|k: int|
                    0 <= k < i ==> #[trigger] reservations@[k] == (ReservationSlot {
                        ptr: None,
                        version: Version { number: 0 },
                    }),
            decreases BUCKET_COUNT - i,
        {
            reservations.push(ReservationSlot { ptr: None, version: Version { number: 0 } });
            i += 1;
        }
        ExclusiveMonitor { reservations }
    }

    /// Performs an exclusive load on `ptr` (the `LDXR` half of the
    /// protocol).
    ///
    /// Takes a reservation on `ptr`'s bucket, invokes `load_op` to read the
    /// current value, and returns a [`Reservation`] capturing both the
    /// observed value and the bucket's version. Taking a new reservation
    /// displaces any previous reservation aliasing into the same bucket.
    pub fn ldrex<F: FnOnce() -> ExclusiveMonitorLoad>(&mut self, ptr: HostPointer, load_op: F) -> (r:
        Reservation)
        requires
            old(self).wf(),
            load_op.requires(()),
        ensures
            final(self).wf(),
            final(self).reservations@ == reserve(old(self).reservations@, ptr),
            r.version == old(self).reservations@[bucket_of(ptr)].version,
            load_op.ensures((), r.value),
    {
        let b: usize = reservation_index(ptr);
        self.reservations[b].ptr = Some(ptr);
        let version: Version = self.reservations[b].version;
        let value: ExclusiveMonitorLoad = load_op();
        assert(self.reservations@ =~= reserve(old(self).reservations@, ptr));
        Reservation { version, value }
    }

    /// Uses up the reservation on `ptr` taken at `version`, if it is still
    /// intact: the bucket's version is bumped. Tells whether it was.
    pub fn claim(&mut self, ptr: HostPointer, version: Version) -> (r: bool)
        requires
            old(self).wf(),
            intact(old(self).reservations@, ptr, version) ==> old(self).has_version(ptr),
        ensures
            final(self).wf(),
            r == intact(old(self).reservations@, ptr, version),
            final(self).reservations@ == (if r {
                consume(old(self).reservations@, ptr)
            } else {
                old(self).reservations@
            }),
    {
        let b: usize = reservation_index(ptr);
        let slot: ReservationSlot = self.reservations[b];
        let same_ptr: bool = match slot.ptr {
            Some(reserved) => reserved == ptr,
            None => false,
        };
        if !same_ptr || slot.version != version {
            return false;
        }
        self.reservations[b].version = Version { number: slot.version.number + 1 };
        assert(self.reservations@ =~= consume(old(self).reservations@, ptr));
        true
    }

    /// Attempts an exclusive store on `ptr` (the `STXR` half of the
    /// protocol).
    ///
    /// If the reservation is still intact - the bucket still holds a
    /// reservation on `ptr` at the same version - the bucket's version is
    /// bumped and `store_op` is invoked to perform the store. Otherwise
    /// [`ReservationLost`] is returned and `store_op` is never called.
    /// `store_op` may itself fail with [`ReservationLost`]; its result is
    /// returned as-is.
    pub fn strex<F: FnOnce() -> Result<(), ReservationLost>>(
        &mut self,
        ptr: HostPointer,
        version: Version,
        store_op: F,
    ) -> (r: Result<(), ReservationLost>)
        requires
            old(self).wf(),
            intact(old(self).reservations@, ptr, version) ==> old(self).has_version(ptr),
            store_op.requires(()),
        ensures
            final(self).wf(),
            if intact(old(self).reservations@, ptr, version) {
                &&& final(self).reservations@ == consume(old(self).reservations@, ptr)
                &&& store_op.ensures((), r)
            } else {
                &&& final(self).reservations@ == old(self).reservations@
                &&& r == Err::<(), ReservationLost>(ReservationLost)
            },
    {
        if self.claim(ptr, version) {
            store_op()
        } else {
            Err(ReservationLost)
        }
    }
}

/// A reservation that nothing touched is intact.
pub proof fn law_fresh_reservation_is_intact(slots: Seq<ReservationSlot>, ptr: HostPointer)
    requires
        slots.len() == BUCKET_COUNT,
    ensures
        intact(reserve(slots, ptr), ptr, slots[bucket_of(ptr)].version),
{
}

/// A reservation is used up by the store that it lets through: of two
/// exclusive stores with one reservation at most one is performed, whatever
/// other exclusive loads happen in between.
pub proof fn law_reservation_used_once(
    slots: Seq<ReservationSlot>,
    ptr: HostPointer,
    version: Version,
    between: Seq<HostPointer>,
)
    requires
        slots.len() == BUCKET_COUNT,
        slots[bucket_of(ptr)].version.number < u128::MAX,
        intact(slots, ptr, version),
    ensures
        !intact(reserve_all(consume(slots, ptr), between), ptr, version),
{
    lemma_reserving_keeps_versions(consume(slots, ptr), between);
}

/// A version of a bucket lets one store through: of two reservations of an
/// address that were taken one after the other, the store that uses one of
/// them makes the other one worthless.
pub proof fn law_one_store_per_version(slots: Seq<ReservationSlot>, ptr: HostPointer)
    requires
        slots.len() == BUCKET_COUNT,
        slots[bucket_of(ptr)].version.number < u128::MAX,
    ensures
        ({
            let once = reserve(slots, ptr);
            let twice = reserve(once, ptr);
            let first = slots[bucket_of(ptr)].version;
            let second = once[bucket_of(ptr)].version;
            &&& intact(twice, ptr, first)
            &&& intact(twice, ptr, second)
            &&& !intact(consume(twice, ptr), ptr, first)
            &&& !intact(consume(twice, ptr), ptr, second)
        }),
{
}

/// The buckets once exclusive loads reserved the addresses of `ptrs` in
/// turn.
pub open spec fn reserve_all(slots: Seq<ReservationSlot>, ptrs: Seq<HostPointer>) -> Seq<
    ReservationSlot,
>
    decreases ptrs.len(),
{
    if ptrs.len() == 0 {
        slots
    } else {
        reserve(reserve_all(slots, ptrs.drop_last()), ptrs.last())
    }
}

/// Exclusive loads do not change versions.
pub proof fn lemma_reserving_keeps_versions(slots: Seq<ReservationSlot>, ptrs: Seq<HostPointer>)
    requires
        slots.len() == BUCKET_COUNT,
    ensures
        reserve_all(slots, ptrs).len() == BUCKET_COUNT,
        forall|b: int|
            0 <= b < BUCKET_COUNT ==> #[trigger] reserve_all(slots, ptrs)[b].version
                == slots[b].version,
    decreases ptrs.len(),
{
    if ptrs.len() > 0 {
        lemma_reserving_keeps_versions(slots, ptrs.drop_last());
    }
}

/// An exclusive load of an address that shares the bucket displaces the
/// reservation.
pub proof fn law_alias_displaces(
    slots: Seq<ReservationSlot>,
    ptr: HostPointer,
    other: HostPointer,
    version: Version,
)
    requires
        slots.len() == BUCKET_COUNT,
        bucket_of(other) == bucket_of(ptr),
        other != ptr,
    ensures
        !intact(reserve(slots, other), ptr, version),
{
}

/// Exclusive accesses to addresses of other buckets leave a reservation
/// alone.
pub proof fn law_other_buckets_independent(
    slots: Seq<ReservationSlot>,
    ptr: HostPointer,
    other: HostPointer,
    version: Version,
)
    requires
        slots.len() == BUCKET_COUNT,
        bucket_of(other) != bucket_of(ptr),
    ensures
        intact(reserve(slots, other), ptr, version) == intact(slots, ptr, version),
        intact(consume(slots, other), ptr, version) == intact(slots, ptr, version),
{
}

} // verus!
