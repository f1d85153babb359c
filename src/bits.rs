//! The set of opaque pixel indices, kept in `bit_set::BitSet`.
use vstd::prelude::*;

use bit_set::BitSet;

use crate::image::{ImageModel, RasterImage};

verus! {

/// A set of pixel indices, held in a `bit_set::BitSet`. Verus refuses a
/// declaration of `BitSet` itself (its parameter is bound by an outside
/// trait), so the set sits in a field that only the methods below touch.
#[verifier::external_body]
pub struct PixelBits {
    set: BitSet,
}

/// The indices that a `PixelBits` holds.
pub uninterp spec fn bits_members(s: PixelBits) -> Set<nat>;

impl PixelBits {
    pub open spec fn members(&self) -> Set<nat> {
        bits_members(*self)
    }

    /// Relies on `BitSet::with_capacity`: a set with no member, whatever
    /// room it reserves.
    #[verifier::external_body]
    fn with_capacity(nbits: usize) -> (s: PixelBits)
        ensures
            bits_members(s) == Set::<nat>::empty(),
    {
        PixelBits { set: BitSet::with_capacity(nbits) }
    }

    /// Relies on `BitSet::insert`: adds `value`, and reports whether it was
    /// absent. It grows the set by `value - len + 1` bits, which overflows at
    /// `usize::MAX`.
    #[verifier::external_body]
    fn insert(&mut self, value: usize) -> (added: bool)
        requires
            value < usize::MAX,
        ensures
            bits_members(*final(self)) == bits_members(*old(self)).insert(value as nat),
            added == !bits_members(*old(self)).contains(value as nat),
    {
        self.set.insert(value)
    }

    /// Relies on `BitSet::contains`: membership of `value`.
    #[verifier::external_body]
    fn contains(&self, value: usize) -> (r: bool)
        ensures
            r == bits_members(*self).contains(value as nat),
    {
        self.set.contains(value)
    }

    /// The set of the given indices.
    pub fn from_indices(indices: &[usize]) -> (s: PixelBits)
        requires
            forall|k: int| 0 <= k < indices@.len() ==> indices@[k] < usize::MAX,
        ensures
            s.members() == Set::new(|v: nat| exists|k: int| 0 <= k < indices@.len() && indices@[k] == v),
    {
        let mut s = PixelBits::with_capacity(0);
        let mut i: usize = 0;
        while i < indices.len()
            invariant
                i <= indices@.len(),
                forall|k: int| 0 <= k < indices@.len() ==> indices@[k] < usize::MAX,
                s.members() == Set::new(|v: nat| exists|k: int| 0 <= k < i && indices@[k] == v),
            decreases indices@.len() - i,
        {
            let v = indices[i];
            s.insert(v);
            proof {
                assert forall|w: nat| #[trigger] s.members().contains(w) <==> exists|k: int| 0 <= k < i + 1 && indices@[k] == w by {
                    if w == v {
                        assert(indices@[i as int] == w);
                    }
                    if exists|k: int| 0 <= k < i + 1 && indices@[k] == w {
                        let k = choose|k: int| 0 <= k < i + 1 && indices@[k] == w;
                        if k < i {
                        }
                    }
                }
                assert(s.members() =~= Set::new(|w: nat| exists|k: int| 0 <= k < i + 1 && indices@[k] == w));
            }
            i += 1;
        }
        s
    }

    /// True when `value` is in the set.
    pub fn has(&self, value: usize) -> (r: bool)
        ensures
            r == self.members().contains(value as nat),
    {
        self.contains(value)
    }
}

/// The indices of the pixels of `m` that are not fully transparent.
pub open spec fn opaque_indices(m: ImageModel) -> Set<nat> {
    Set::new(|i: nat| i < m.pixels.len() && !m.pixels[i as int].is_transparent_spec())
}

/// The set of indices `y * width + x` of the pixels that are not fully
/// transparent.
pub fn to_bitset(img: &RasterImage) -> (s: PixelBits)
    requires
        img@.is_valid(),
    ensures
        s.members() == opaque_indices(img@),
{
    let n = img.pixels.len();
    let mut s = PixelBits::with_capacity(n);
    let mut i: usize = 0;
    while i < n
        invariant
            n == img.pixels@.len(),
            i <= n,
            s.members() == Set::new(
                |k: nat| k < i && !img.pixels@[k as int].is_transparent_spec(),
            ),
        decreases n - i,
    {
        if !img.pixels[i].is_transparent() {
            s.insert(i);
        }
        proof {
            assert(s.members() =~= Set::new(
                |k: nat| k < i + 1 && !img.pixels@[k as int].is_transparent_spec(),
            ));
        }
        i += 1;
    }
    assert(s.members() =~= opaque_indices(img@));
    s
}

} // verus!
