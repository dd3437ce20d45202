//! Address alignment and the layout of a request.

use vstd::arithmetic::div_mod::{
    lemma_fundamental_div_mod, lemma_mod_bound, lemma_mod_multiples_basic,
};
use vstd::arithmetic::power2::is_pow2;
use vstd::prelude::*;

verus! {

/// Whether `addr` is a multiple of `align`.
pub open spec fn is_aligned(addr: int, align: int) -> bool {
    addr % align == 0
}

/// The smallest multiple of `align` that is not below `addr`.
pub open spec fn align_up(addr: int, align: int) -> int
    recommends
        align > 0,
{
    if addr % align == 0 {
        addr
    } else {
        addr + (align - addr % align)
    }
}

/// A power of two is positive.
pub proof fn lemma_pow2_positive(n: int)
    requires
        is_pow2(n),
    ensures
        n > 0,
{
    reveal(is_pow2);
}

/// `align_up(addr, align)` is a multiple of `align`, lies in
/// `[addr, addr + align)`, and no multiple of `align` lies between `addr`
/// and it.
pub proof fn lemma_align_up(addr: int, align: int)
    requires
        align > 0,
    ensures
        addr <= align_up(addr, align) < addr + align,
        is_aligned(align_up(addr, align), align),
        forall|m: int| #[trigger] is_aligned(m, align) && addr <= m ==> align_up(addr, align) <= m,
{
    let r = align_up(addr, align);
    lemma_mod_bound(addr, align);
    lemma_fundamental_div_mod(addr, align);
    if addr % align != 0 {
        assert(r == align * (addr / align + 1)) by (nonlinear_arith)
            requires
                r == addr + (align - addr % align),
                addr == align * (addr / align) + addr % align,
        ;
        lemma_mod_multiples_basic(addr / align + 1, align);
        assert(((addr / align + 1) * align) == align * (addr / align + 1)) by (nonlinear_arith);
    }
    assert forall|m: int| #[trigger] is_aligned(m, align) && addr <= m implies r <= m by {
        lemma_fundamental_div_mod(m, align);
        if m < r {
            assert(false) by (nonlinear_arith)
                requires
                    align > 0,
                    m == align * (m / align),
                    addr == align * (addr / align) + addr % align,
                    0 <= addr % align < align,
                    addr <= m,
                    m < r,
                    r == if addr % align == 0 {
                        addr
                    } else {
                        addr + (align - addr % align)
                    },
            ;
        }
    }
}

/// A multiple of `align` is a multiple of whatever `align` is a multiple of.
pub proof fn lemma_aligned_to_multiple(addr: int, align: int, d: int)
    requires
        d > 0,
        align > 0,
        is_aligned(align, d),
        is_aligned(addr, align),
    ensures
        is_aligned(addr, d),
{
    lemma_fundamental_div_mod(addr, align);
    lemma_fundamental_div_mod(align, d);
    let q = (align / d) * (addr / align);
    assert(addr == q * d) by (nonlinear_arith)
        requires
            addr == align * (addr / align),
            align == d * (align / d),
            q == (align / d) * (addr / align),
    ;
    lemma_mod_multiples_basic(q, d);
}

/// Whether `x` is a power of two.
pub fn is_power_of_two(x: usize) -> (yes: bool)
    ensures
        yes == is_pow2(x as int),
{
    if x == 0 {
        proof {
            reveal(is_pow2);
        }
        return false;
    }
    let mut n: usize = x;
    while n % 2 == 0
        invariant
            n > 0,
            is_pow2(n as int) == is_pow2(x as int),
        decreases n,
    {
        proof {
            reveal(is_pow2);
        }
        n = n / 2;
    }
    proof {
        reveal(is_pow2);
    }
    n == 1
}

/// Aligns `addr` upwards to `align`, or says that no `usize` holds the
/// result.
pub fn checked_align_to(addr: usize, align: usize) -> (aligned: Option<usize>)
    requires
        is_pow2(align as int),
    ensures
        match aligned {
            Some(a) => a == align_up(addr as int, align as int),
            None => align_up(addr as int, align as int) > usize::MAX,
        },
{
    proof {
        lemma_pow2_positive(align as int);
    }
    let rem: usize = addr % align;
    if rem == 0 {
        Some(addr)
    } else {
        addr.checked_add(align - rem)
    }
}

/// Aligns `addr` upwards to `align`.
pub fn align_to(addr: usize, align: usize) -> (aligned: usize)
    requires
        is_pow2(align as int),
        align_up(addr as int, align as int) <= usize::MAX,
    ensures
        aligned == align_up(addr as int, align as int),
        addr <= aligned < addr + align,
        is_aligned(aligned as int, align as int),
{
    proof {
        lemma_pow2_positive(align as int);
        lemma_align_up(addr as int, align as int);
    }
    let rem: usize = addr % align;
    if rem == 0 {
        addr
    } else {
        addr + (align - rem)
    }
}

/// A request for memory: so many bytes, starting at a multiple of `align`.
#[derive(Clone, Copy, Debug)]
pub struct Layout {
    size: usize,
    align: usize,
}

impl Layout {
    /// The alignment is a power of two.
    #[verifier::type_invariant]
    pub open spec fn wf(&self) -> bool {
        is_pow2(self.align() as int)
    }

    pub closed spec fn spec_size(&self) -> usize {
        self.size
    }

    pub closed spec fn spec_align(&self) -> usize {
        self.align
    }

    /// The layout of `size` bytes aligned to `align`, if `align` is a power
    /// of two.
    pub fn from_size_align(size: usize, align: usize) -> (layout: Option<Layout>)
        ensures
            layout is Some <==> is_pow2(align as int),
            layout matches Some(l) ==> l.wf() && l.size() == size && l.align() == align,
    {
        if is_power_of_two(align) {
            Some(Layout { size, align })
        } else {
            None
        }
    }

    /// The number of bytes asked for.
    #[verifier::when_used_as_spec(spec_size)]
    pub fn size(&self) -> (size: usize)
        ensures
            size == self.size(),
    {
        self.size
    }

    /// The alignment asked for, a power of two.
    #[verifier::when_used_as_spec(spec_align)]
    pub fn align(&self) -> (align: usize)
        ensures
            align == self.align(),
            is_pow2(align as int),
    {
        proof {
            use_type_invariant(self);
        }
        self.align
    }

    /// The layout of `size` bytes aligned to the power of two `align`.
    pub fn new(size: usize, align: usize) -> (layout: Layout)
        requires
            is_pow2(align as int),
        ensures
            layout.wf(),
            layout.size() == size,
            layout.align() == align,
    {
        Layout { size, align }
    }
}

/// The alignment of a block that serves a request aligned to `align` and
/// can later hold a value aligned to `meta_align`: the larger of the two.
pub open spec fn adjusted_align(align: int, meta_align: int) -> int {
    if align >= meta_align {
        align
    } else {
        meta_align
    }
}

/// The `size` asked for, rounded up to the adjusted alignment.
pub open spec fn padded_size(size: int, align: int, meta_align: int) -> int {
    align_up(size, adjusted_align(align, meta_align))
}

/// The size of such a block: the larger of the `size` asked for and
/// `meta_size`, rounded up to the adjusted alignment.
pub open spec fn adjusted_size(size: int, align: int, meta_size: int, meta_align: int) -> int {
    let larger = if size >= meta_size {
        size
    } else {
        meta_size
    };
    align_up(larger, adjusted_align(align, meta_align))
}

/// What the adjusted size and alignment of a request are good for: the
/// alignment is one of the two, and no smaller than either; the size is a
/// multiple of the alignment, covers the padded request and `meta_size`,
/// and lies less than the alignment above the larger of `size` and
/// `meta_size`.
pub proof fn lemma_adjusted(size: int, align: int, meta_size: int, meta_align: int)
    requires
        align > 0,
        meta_align > 0,
    ensures
        adjusted_align(align, meta_align) == align || adjusted_align(align, meta_align)
            == meta_align,
        adjusted_align(align, meta_align) >= align,
        adjusted_align(align, meta_align) >= meta_align,
        is_aligned(
            adjusted_size(size, align, meta_size, meta_align),
            adjusted_align(align, meta_align),
        ),
        adjusted_size(size, align, meta_size, meta_align) >= size,
        adjusted_size(size, align, meta_size, meta_align) >= meta_size,
        adjusted_size(size, align, meta_size, meta_align) >= padded_size(size, align, meta_align),
        adjusted_size(size, align, meta_size, meta_align) < (if size >= meta_size {
            size
        } else {
            meta_size
        }) + adjusted_align(align, meta_align),
{
    let align = adjusted_align(align, meta_align);
    lemma_align_up(size, align);
    if size < meta_size {
        lemma_align_up(meta_size, align);
    }
}

/// Adjusts `layout` so that a block granted for it can later hold a value
/// of layout `meta` as well, or says that no `usize` holds the adjusted
/// size. Returns the adjusted size and alignment.
pub fn checked_size_align(layout: Layout, meta: Layout) -> (adjusted: Option<(usize, usize)>)
    ensures
        match adjusted {
            Some((size, align)) => {
                &&& size == adjusted_size(
                    layout.size() as int,
                    layout.align() as int,
                    meta.size() as int,
                    meta.align() as int,
                )
                &&& align == adjusted_align(layout.align() as int, meta.align() as int)
                &&& is_pow2(align as int)
                &&& is_aligned(size as int, align as int)
            },
            None => adjusted_size(
                layout.size() as int,
                layout.align() as int,
                meta.size() as int,
                meta.align() as int,
            ) > usize::MAX,
        },
{
    let align: usize = if layout.align() >= meta.align() {
        layout.align()
    } else {
        meta.align()
    };
    let size: usize = if layout.size() >= meta.size() {
        layout.size()
    } else {
        meta.size()
    };
    proof {
        lemma_pow2_positive(align as int);
        lemma_align_up(size as int, align as int);
    }
    let padded: usize = checked_align_to(size, align)?;
    Some((padded, align))
}

/// Adjusts `layout` so that a block granted for it can later hold a value
/// of layout `meta` as well. Returns the adjusted size and alignment.
pub fn size_align(layout: Layout, meta: Layout) -> (adjusted: (usize, usize))
    requires
        padded_size(layout.size() as int, layout.align() as int, meta.align() as int)
            <= isize::MAX,
        adjusted_size(
            layout.size() as int,
            layout.align() as int,
            meta.size() as int,
            meta.align() as int,
        ) <= usize::MAX,
    ensures
        adjusted.0 == adjusted_size(
            layout.size() as int,
            layout.align() as int,
            meta.size() as int,
            meta.align() as int,
        ),
        adjusted.1 == adjusted_align(layout.align() as int, meta.align() as int),
        is_pow2(adjusted.1 as int),
        is_aligned(adjusted.0 as int, adjusted.1 as int),
        adjusted.0 >= layout.size(),
        adjusted.0 >= meta.size(),
{
    let align: usize = if layout.align() >= meta.align() {
        layout.align()
    } else {
        meta.align()
    };
    let size: usize = if layout.size() >= meta.size() {
        layout.size()
    } else {
        meta.size()
    };
    proof {
        lemma_pow2_positive(align as int);
        lemma_align_up(size as int, align as int);
    }
    let padded: usize = align_to(size, align);
    (padded, align)
}

} // verus!
