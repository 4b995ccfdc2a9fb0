//! The operators between sets.
use crate::allocator::NodeAllocator;
use crate::key::Key;
use crate::merge::{both, either, only_first, only_one};
use crate::set::{plain, BPlusSet};
use crate::tree::fresh_default;
use vstd::prelude::*;
use vstd::std_specs::ops::{BitAndSpecImpl, BitOrSpecImpl, BitXorSpecImpl, SubSpecImpl};

verus! {

impl<'a, 'b, K: Key, const M: usize, A: NodeAllocator<K, (), M> + Default> core::ops::BitAnd<
    &'b BPlusSet<K, M, A>,
> for &'a BPlusSet<K, M, A> {
    type Output = BPlusSet<K, M, A>;

    /// The intersection of the two sets.
    fn bitand(self, rhs: &'b BPlusSet<K, M, A>) -> (r: BPlusSet<K, M, A>)
        ensures
            r.wf(),
            r@ == both(self@, rhs@, plain()),
    {
        self.bitand(rhs)
    }
}

impl<'a, 'b, K: Key, const M: usize, A: NodeAllocator<K, (), M> + Default> BitAndSpecImpl<
    &'b BPlusSet<K, M, A>,
> for &'a BPlusSet<K, M, A> {
    /// Which set comes out is stated by its keys, not by its nodes.
    open spec fn obeys_bitand_spec() -> bool {
        false
    }

    open spec fn bitand_req(self, rhs: &'b BPlusSet<K, M, A>) -> bool {
        self.wf() && rhs.wf() && fresh_default::<K, (), M, A>()
    }

    open spec fn bitand_spec(self, rhs: &'b BPlusSet<K, M, A>) -> BPlusSet<K, M, A> {
        arbitrary()
    }
}

impl<'a, 'b, K: Key, const M: usize, A: NodeAllocator<K, (), M> + Default> core::ops::BitOr<
    &'b BPlusSet<K, M, A>,
> for &'a BPlusSet<K, M, A> {
    type Output = BPlusSet<K, M, A>;

    /// The union of the two sets.
    fn bitor(self, rhs: &'b BPlusSet<K, M, A>) -> (r: BPlusSet<K, M, A>)
        ensures
            r.wf(),
            r@ == either(self@, rhs@, plain()),
    {
        self.bitor(rhs)
    }
}

impl<'a, 'b, K: Key, const M: usize, A: NodeAllocator<K, (), M> + Default> BitOrSpecImpl<
    &'b BPlusSet<K, M, A>,
> for &'a BPlusSet<K, M, A> {
    /// Which set comes out is stated by its keys, not by its nodes.
    open spec fn obeys_bitor_spec() -> bool {
        false
    }

    open spec fn bitor_req(self, rhs: &'b BPlusSet<K, M, A>) -> bool {
        &&& self.wf()
        &&& rhs.wf()
        &&& fresh_default::<K, (), M, A>()
        &&& either(self@, rhs@, plain()).len() <= usize::MAX
    }

    open spec fn bitor_spec(self, rhs: &'b BPlusSet<K, M, A>) -> BPlusSet<K, M, A> {
        arbitrary()
    }
}

impl<'a, 'b, K: Key, const M: usize, A: NodeAllocator<K, (), M> + Default> core::ops::BitXor<
    &'b BPlusSet<K, M, A>,
> for &'a BPlusSet<K, M, A> {
    type Output = BPlusSet<K, M, A>;

    /// The keys in exactly one of the two sets.
    fn bitxor(self, rhs: &'b BPlusSet<K, M, A>) -> (r: BPlusSet<K, M, A>)
        ensures
            r.wf(),
            r@ == only_one(self@, rhs@, plain()),
    {
        self.bitxor(rhs)
    }
}

impl<'a, 'b, K: Key, const M: usize, A: NodeAllocator<K, (), M> + Default> BitXorSpecImpl<
    &'b BPlusSet<K, M, A>,
> for &'a BPlusSet<K, M, A> {
    /// Which set comes out is stated by its keys, not by its nodes.
    open spec fn obeys_bitxor_spec() -> bool {
        false
    }

    open spec fn bitxor_req(self, rhs: &'b BPlusSet<K, M, A>) -> bool {
        &&& self.wf()
        &&& rhs.wf()
        &&& fresh_default::<K, (), M, A>()
        &&& only_one(self@, rhs@, plain()).len() <= usize::MAX
    }

    open spec fn bitxor_spec(self, rhs: &'b BPlusSet<K, M, A>) -> BPlusSet<K, M, A> {
        arbitrary()
    }
}

impl<'a, 'b, K: Key, const M: usize, A: NodeAllocator<K, (), M> + Default> core::ops::Sub<
    &'b BPlusSet<K, M, A>,
> for &'a BPlusSet<K, M, A> {
    type Output = BPlusSet<K, M, A>;

    /// The keys in the first set but not in the second.
    fn sub(self, rhs: &'b BPlusSet<K, M, A>) -> (r: BPlusSet<K, M, A>)
        ensures
            r.wf(),
            r@ == only_first(self@, rhs@, plain()),
    {
        self.sub(rhs)
    }
}

impl<'a, 'b, K: Key, const M: usize, A: NodeAllocator<K, (), M> + Default> SubSpecImpl<
    &'b BPlusSet<K, M, A>,
> for &'a BPlusSet<K, M, A> {
    /// Which set comes out is stated by its keys, not by its nodes.
    open spec fn obeys_sub_spec() -> bool {
        false
    }

    open spec fn sub_req(self, rhs: &'b BPlusSet<K, M, A>) -> bool {
        self.wf() && rhs.wf() && fresh_default::<K, (), M, A>()
    }

    open spec fn sub_spec(self, rhs: &'b BPlusSet<K, M, A>) -> BPlusSet<K, M, A> {
        arbitrary()
    }
}

} // verus!
