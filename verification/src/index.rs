use vstd::prelude::*;
use vstd::std_specs::cmp::PartialEqSpec;

verus! {

/// An integer type used to address entries in the table pool and voxel array.
///
/// Smaller index types (such as [`u16`] or [`u32`]) improve memory density, at the cost of
/// supporting fewer voxels and points. This trait is implemented for [`u8`], [`u16`], [`u32`],
/// [`u64`], and [`usize`].
pub trait Index: Copy + PartialEq {
    /// The zero index.
    const ZERO: Self;

    /// The sentinel value used to mark an empty (unallocated) table entry. An index equal to
    /// this value can never be produced by [`Index::from_usize`].
    const SENTINEL: Self;

    /// The index that stands for `x`, if there is one.
    spec fn from_usize_spec(x: usize) -> Option<Self>;

    /// The `usize` that this index stands for.
    spec fn to_usize_spec(self) -> usize;

    /// `==` on indices is equality, converting to an index and back gives the same `usize`,
    /// and no `usize` converts to the sentinel.
    proof fn index_laws()
        ensures
            Self::obeys_eq_spec(),
            forall|a: Self, b: Self| #[trigger] a.eq_spec(&b) == (a == b),
            forall|x: usize|
                #![trigger Self::from_usize_spec(x)]
                match Self::from_usize_spec(x) {
                    Some(i) => i != Self::SENTINEL && i.to_usize_spec() == x,
                    None => true,
                },
            Self::ZERO.to_usize_spec() == 0,
    ;

    /// Convert a `usize` into an index, or `None` if it doesn't fit (or happens to equal
    /// [`Index::SENTINEL`]).
    fn from_usize(x: usize) -> (r: Option<Self>)
        ensures
            r == Self::from_usize_spec(x),
    ;

    /// Convert this index back into a `usize`.
    fn to_usize(self) -> (r: usize)
        ensures
            r == self.to_usize_spec(),
    ;
}

impl Index for u8 {
    const ZERO: Self = 0;

    const SENTINEL: Self = u8::MAX;

    open spec fn from_usize_spec(x: usize) -> Option<Self> {
        if x < u8::MAX {
            Some(x as u8)
        } else {
            None
        }
    }

    open spec fn to_usize_spec(self) -> usize {
        self as usize
    }

    proof fn index_laws() {
    }

    fn from_usize(x: usize) -> (r: Option<Self>) {
        if x < u8::MAX as usize {
            Some(x as u8)
        } else {
            None
        }
    }

    fn to_usize(self) -> (r: usize) {
        self as usize
    }
}

impl Index for u16 {
    const ZERO: Self = 0;

    const SENTINEL: Self = u16::MAX;

    open spec fn from_usize_spec(x: usize) -> Option<Self> {
        if x < u16::MAX {
            Some(x as u16)
        } else {
            None
        }
    }

    open spec fn to_usize_spec(self) -> usize {
        self as usize
    }

    proof fn index_laws() {
    }

    fn from_usize(x: usize) -> (r: Option<Self>) {
        if x < u16::MAX as usize {
            Some(x as u16)
        } else {
            None
        }
    }

    fn to_usize(self) -> (r: usize) {
        self as usize
    }
}

impl Index for u32 {
    const ZERO: Self = 0;

    const SENTINEL: Self = u32::MAX;

    open spec fn from_usize_spec(x: usize) -> Option<Self> {
        if x < u32::MAX {
            Some(x as u32)
        } else {
            None
        }
    }

    open spec fn to_usize_spec(self) -> usize {
        self as usize
    }

    proof fn index_laws() {
    }

    fn from_usize(x: usize) -> (r: Option<Self>) {
        if x < u32::MAX as usize {
            Some(x as u32)
        } else {
            None
        }
    }

    fn to_usize(self) -> (r: usize) {
        self as usize
    }
}

impl Index for u64 {
    const ZERO: Self = 0;

    const SENTINEL: Self = u64::MAX;

    open spec fn from_usize_spec(x: usize) -> Option<Self> {
        if x < u64::MAX {
            Some(x as u64)
        } else {
            None
        }
    }

    open spec fn to_usize_spec(self) -> usize {
        self as usize
    }

    proof fn index_laws() {
    }

    fn from_usize(x: usize) -> (r: Option<Self>) {
        if (x as u64) < u64::MAX {
            Some(x as u64)
        } else {
            None
        }
    }

    fn to_usize(self) -> (r: usize) {
        self as usize
    }
}

impl Index for usize {
    const ZERO: Self = 0;

    const SENTINEL: Self = usize::MAX;

    open spec fn from_usize_spec(x: usize) -> Option<Self> {
        if x < usize::MAX {
            Some(x)
        } else {
            None
        }
    }

    open spec fn to_usize_spec(self) -> usize {
        self
    }

    proof fn index_laws() {
    }

    fn from_usize(x: usize) -> (r: Option<Self>) {
        if x < usize::MAX {
            Some(x)
        } else {
            None
        }
    }

    fn to_usize(self) -> (r: usize) {
        self
    }
}

} // verus!
