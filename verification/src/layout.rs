//! Sizes and alignments of values in memory.


use vstd::prelude::*;

verus! {

/// The size and the alignment of a value in memory, in bytes.
#[derive(Clone, Copy, PartialEq, Eq, Structural, Debug)]
pub struct Layout {
    pub size: usize,
    pub align: usize,
}

/// The largest size, rounded up to the alignment, that a value can have.
pub open spec fn max_size() -> int {
    usize::MAX as int / 2
}

/// The least multiple of `align` that is not below `n`.
pub open spec fn round_up(n: int, align: int) -> int {
    if n % align == 0 {
        n
    } else {
        n + (align - n % align)
    }
}

/// What comes of putting a value of layout `next` behind a value of layout
/// `first`: the layout of both together, and where the second one starts.
pub open spec fn extended(first: Layout, next: Layout) -> Option<(Layout, usize)> {
    let offset = round_up(first.size as int, next.align as int);
    let size = offset + next.size;
    let align = if first.align < next.align {
        next.align
    } else {
        first.align
    };
    if round_up(size, align as int) <= max_size() {
        Some((Layout { size: size as usize, align }, offset as usize))
    } else {
        None
    }
}

/// `round_up` gives a multiple of `align` between `n` and `n + align - 1`.
pub proof fn lemma_round_up(n: int, align: int)
    requires
        0 <= n,
        0 < align,
    ensures
        n <= round_up(n, align) < n + align,
        round_up(n, align) % align == 0,
{
    if n % align != 0 {
        let q = n / align;
        assert(n == q * align + n % align) by {
            vstd::arithmetic::div_mod::lemma_fundamental_div_mod(n, align);
            assert(align * q == q * align) by (nonlinear_arith);
        }
        assert(round_up(n, align) == (q + 1) * align) by {
            assert((q + 1) * align == q * align + align) by (nonlinear_arith);
        }
        vstd::arithmetic::div_mod::lemma_mod_multiples_basic(q + 1, align);
    }
}

impl Layout {
    /// A layout that memory can be asked for.
    pub open spec fn valid(self) -> bool {
        &&& 0 < self.align <= max_size() + 1
        &&& round_up(self.size as int, self.align as int) <= max_size()
    }

    /// The layout of this value with one of layout `next` behind it, and where
    /// that one starts. There is none where the whole gets too large.
    pub fn extend(self, next: Layout) -> (both: Option<(Layout, usize)>)
        requires
            self.valid(),
            next.valid(),
        ensures
            both == extended(self, next),
            both matches Some((whole, _)) ==> whole.valid(),
    {
        proof {
            lemma_round_up(self.size as int, self.align as int);
            lemma_round_up(self.size as int, next.align as int);
            lemma_round_up(next.size as int, next.align as int);
        }
        let largest: usize = usize::MAX / 2;
        let spare: usize = self.size % next.align;
        let offset: usize = if spare == 0 {
            self.size
        } else {
            self.size + (next.align - spare)
        };
        let align: usize = if self.align < next.align {
            next.align
        } else {
            self.align
        };
        proof {
            lemma_round_up(offset + next.size, align as int);
        }
        if offset > largest || next.size > largest - offset {
            return None;
        }
        let size: usize = offset + next.size;
        let rest: usize = size % align;
        if rest != 0 && align - rest > largest - size {
            return None;
        }
        Some((Layout { size, align }, offset))
    }
}

} // verus!
