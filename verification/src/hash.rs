//! Hasher state for hash maps: the seed of a map's hashers and the default
//! hasher.

use vstd::prelude::*;
use vstd::std_specs::hash::DefaultHasherAdditionalSpecFns;
use std::hash::Hasher;

verus! {

/// The seed of a hash map's hashers: two 64-bit keys.
#[derive(Clone, Copy, Debug)]
pub struct RandomState {
    k0: u64,
    k1: u64,
}

impl RandomState {
    /// The two keys.
    pub closed spec fn spec_keys(&self) -> (u64, u64) {
        (self.k0, self.k1)
    }

    /// A seed made of the 128 random bits `random`: the first key is their
    /// low half, the second their high half.
    pub fn new(random: u128) -> (r: RandomState)
        ensures
            r.spec_keys().0 == random % 0x1_0000_0000_0000_0000,
            r.spec_keys().1 == random / 0x1_0000_0000_0000_0000,
    {
        let k0 = (random & 0xffff_ffff_ffff_ffff) as u64;
        let k1 = (random >> 64) as u64;
        assert(random & 0xffff_ffff_ffff_ffff == random % 0x1_0000_0000_0000_0000) by (bit_vector);
        assert(random >> 64 == random / 0x1_0000_0000_0000_0000) by (bit_vector);
        assert((random >> 64) <= 0xffff_ffff_ffff_ffff) by (bit_vector);
        RandomState { k0, k1 }
    }

    /// The two keys.
    #[verifier::when_used_as_spec(spec_keys)]
    pub fn keys(&self) -> (r: (u64, u64))
        ensures
            r == self.spec_keys(),
    {
        (self.k0, self.k1)
    }
}

/// The default hasher. Its algorithm is unspecified; hashers made by `new`
/// or `default` all behave alike.
pub struct DefaultHasher(std::hash::DefaultHasher);

impl View for DefaultHasher {
    type V = Seq<Seq<u8>>;

    /// The byte strings written so far, in order.
    closed spec fn view(&self) -> Seq<Seq<u8>> {
        self.0@
    }
}

impl DefaultHasher {
    /// The hash of the byte strings `written`, in the order written.
    pub open spec fn spec_finish(written: Seq<Seq<u8>>) -> u64 {
        std::hash::DefaultHasher::spec_finish(written)
    }

    /// A hasher to which nothing has been written.
    pub fn new() -> (r: DefaultHasher)
        ensures
            r@ == Seq::<Seq<u8>>::empty(),
    {
        DefaultHasher(std::hash::DefaultHasher::new())
    }

    /// Writes `msg` to the hasher.
    pub fn write(&mut self, msg: &[u8])
        ensures
            final(self)@ == old(self)@.push(msg@),
    {
        self.0.write(msg)
    }

    /// The hash of what has been written.
    pub fn finish(&self) -> (r: u64)
        ensures
            r == Self::spec_finish(self@),
    {
        self.0.finish()
    }
}

impl Default for DefaultHasher {
    fn default() -> (r: DefaultHasher)
        ensures
            r@ == Seq::<Seq<u8>>::empty(),
    {
        DefaultHasher::new()
    }
}

} // verus!
