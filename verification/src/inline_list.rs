//! Short lists that live inline until they grow.
use vstd::prelude::*;
use arrayvec::ArrayVec;
use smallvec::SmallVec;

verus! {

/// `arrayvec::ArrayVec`: a list with a fixed capacity.
#[verifier::external_type_specification]
#[verifier::external_body]
#[verifier::reject_recursive_types(T)]
pub struct ExArrayVec<T, const CAP: usize>(ArrayVec<T, CAP>);

/// A list of numbers that lives inline while it is short.
#[verifier::external_body]
pub struct InlineList {
    list: SmallVec<u64, 8>,
}

/// The items of a list, in order.
pub uninterp spec fn list_items(list: InlineList) -> Seq<u64>;

/// The items of a pair list, in order.
pub uninterp spec fn pair_items(list: ArrayVec<u64, 2>) -> Seq<u64>;

impl View for InlineList {
    type V = Seq<u64>;

    open spec fn view(&self) -> Seq<u64> {
        list_items(*self)
    }
}

impl InlineList {
    /// `SmallVec::new`: a list without items.
    #[verifier::external_body]
    pub(crate) fn new() -> (r: Self)
        ensures
            list_items(r) == Seq::<u64>::empty(),
    {
        InlineList { list: SmallVec::new() }
    }

    /// `SmallVec::push`: the item becomes the last one.
    #[verifier::external_body]
    pub(crate) fn push(&mut self, item: u64)
        ensures
            list_items(*final(self)) == list_items(*old(self)).push(item),
    {
        self.list.push(item)
    }

    /// `SmallVec::pop`: takes the last item, if there is one.
    #[verifier::external_body]
    pub(crate) fn pop(&mut self) -> (r: Option<u64>)
        ensures
            list_items(*old(self)).len() == 0 ==> r is None && list_items(*final(self))
                == list_items(*old(self)),
            list_items(*old(self)).len() > 0 ==> r == Some(list_items(*old(self)).last())
                && list_items(*final(self)) == list_items(*old(self)).drop_last(),
    {
        self.list.pop()
    }

    /// `SmallVec::as_ref`: the items in order, as a slice.
    #[verifier::external_body]
    pub(crate) fn as_slice(&self) -> (r: &[u64])
        ensures
            r@ == list_items(*self),
    {
        self.list.as_ref()
    }

    /// The number of items.
    pub fn len(&self) -> (r: usize)
        ensures
            r == self@.len(),
    {
        self.as_slice().len()
    }

    /// The item at place `i`.
    pub fn get(&self, i: usize) -> (r: u64)
        requires
            i < self@.len(),
        ensures
            r == self@[i as int],
    {
        self.as_slice()[i]
    }
}

/// `ArrayVec::new`: a list without items.
#[verifier::external_body]
pub(crate) fn pair_new() -> (r: ArrayVec<u64, 2>)
    ensures
        pair_items(r) == Seq::<u64>::empty(),
{
    ArrayVec::new()
}

/// `ArrayVec::push`: the item becomes the last one. The list must not be
/// full.
#[verifier::external_body]
pub(crate) fn pair_push(list: &mut ArrayVec<u64, 2>, item: u64)
    requires
        pair_items(*old(list)).len() < 2,
    ensures
        pair_items(*final(list)) == pair_items(*old(list)).push(item),
{
    list.push(item)
}

/// `ArrayVec::as_slice`: the items in order, as a slice.
#[verifier::external_body]
pub(crate) fn pair_as_slice(list: &ArrayVec<u64, 2>) -> (r: &[u64])
    ensures
        r@ == pair_items(*list),
{
    list.as_slice()
}

} // verus!
