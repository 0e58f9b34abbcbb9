//! Sizes and alignments of stored items.
use vstd::arithmetic::power2::*;
use vstd::layout::*;
use vstd::prelude::*;

verus! {

/// The size and the alignment of an item, in bytes.
#[derive(Clone, Copy, PartialEq, Eq, Structural, Debug)]
pub struct Layout {
    /// The size of the item
    pub size: usize,
    /// The alignment of the item, a power of two
    pub align: usize,
}

/// The size and the alignment do not make a layout.
#[derive(Clone, Copy, PartialEq, Eq, Structural, Debug)]
pub struct LayoutError;

/// The bytes that are missing from `size` to the next multiple of `align`.
pub open spec fn padding(size: int, align: int) -> int {
    (align - size % align) % align
}

/// The largest power of two is a power of two's multiple.
proof fn pow2_divides_words(e: nat)
    requires
        e < usize::BITS,
    ensures
        (usize::MAX + 1) % (pow2(e) as int) == 0,
        pow2(e) <= usize::MAX,
        pow2(e) > 0,
{
    lemma2_to64();
    lemma2_to64_rest();
    vstd::bits::lemma_usize_pow2_no_overflow(e);
    let rest = (usize::BITS - e) as nat;
    lemma_pow2_adds(e, rest);
    assert(usize::MAX + 1 == pow2(usize::BITS as nat));
    lemma_pow2_pos(e);
    vstd::arithmetic::div_mod::lemma_mod_multiples_basic(pow2(rest) as int, pow2(e) as int);
    vstd::arithmetic::mul::lemma_mul_is_commutative(pow2(e) as int, pow2(rest) as int);
}

/// A power of two in a machine word has an exponent below the word's width.
proof fn pow2_exponent(n: usize) -> (e: nat)
    requires
        is_pow2(n as int),
    ensures
        e < usize::BITS,
        n == pow2(e),
{
    is_pow2_equiv(n as int);
    let e = choose|e: nat| vstd::arithmetic::power::pow(2, e) == n;
    if e >= usize::BITS {
        lemma2_to64();
        lemma2_to64_rest();
        if e > usize::BITS {
            lemma_pow2_strictly_increases(usize::BITS as nat, e);
        }
    }
    e
}

impl Layout {
    /// The alignment is a power of two, and the size, rounded up to it, fits in a machine word.
    pub open spec fn wf(self) -> bool {
        &&& is_pow2(self.align as int)
        &&& self.size + padding(self.size as int, self.align as int) <= usize::MAX
    }

    /// An alignment is positive.
    pub proof fn align_positive(self)
        requires
            self.wf(),
        ensures
            self.align > 0,
    {
        is_pow2_positive(self.align as int);
    }

    /// The layout of values of type `T`.
    pub fn new<T>() -> (r: Self)
        ensures
            r.wf(),
            r.size == size_of::<T>(),
            r.align == align_of::<T>(),
    {
        layout_for_type_is_valid::<T>();
        proof {
            is_pow2_positive(align_of::<T>() as int);
            round_up_within(
                size_of::<T>() as int,
                align_of::<T>() as int,
                isize::MAX as int,
            );
        }
        Layout { size: core::mem::size_of::<T>(), align: core::mem::align_of::<T>() }
    }

    /// The layout with the given size and alignment, where there is one: the alignment has to be
    /// a power of two, and the size, rounded up to it, at most `isize::MAX`.
    pub fn from_size_align(size: usize, align: usize) -> (r: Result<Self, LayoutError>)
        ensures
            r == if valid_layout(size, align) {
                Ok(Layout { size, align })
            } else {
                Err(LayoutError)
            },
            r matches Ok(l) ==> l.wf(),
    {
        if !is_power_of_two(align) {
            return Err(LayoutError);
        }
        proof {
            is_pow2_positive(align as int);
            vstd::arithmetic::div_mod::lemma_mod_decreases(isize::MAX as nat, align as nat);
        }
        let top: usize = isize::MAX as usize;
        if size > top - top % align {
            return Err(LayoutError);
        }
        proof {
            round_up_within(size as int, align as int, top as int);
        }
        Ok(Layout { size, align })
    }

    pub fn size(&self) -> (r: usize)
        ensures
            r == self.size,
    {
        self.size
    }

    pub fn align(&self) -> (r: usize)
        ensures
            r == self.align,
    {
        self.align
    }
}

proof fn is_pow2_positive(n: int)
    requires
        is_pow2(n),
    ensures
        n > 0,
{
    reveal(is_pow2);
}

/// A size below a multiple of the alignment is still below it when rounded up.
proof fn round_up_within(size: int, align: int, top: int)
    requires
        0 < align,
        0 <= size <= top - top % align,
    ensures
        size + padding(size, align) <= top,
{
    let bound = top - top % align;
    vstd::arithmetic::div_mod::lemma_fundamental_div_mod(top, align);
    vstd::arithmetic::div_mod::lemma_fundamental_div_mod(size, align);
    let q = size / align;
    let s = size % align;
    let b = top / align;
    assert(0 <= s < align);
    if s == 0 {
        assert(padding(size, align) == 0) by {
            vstd::arithmetic::div_mod::lemma_mod_self_0(align);
        }
    } else {
        assert(padding(size, align) == align - s) by {
            vstd::arithmetic::div_mod::lemma_small_mod((align - s) as nat, align as nat);
        }
        assert(bound == align * b);
        assert(size == align * q + s);
        assert(q < b) by (nonlinear_arith)
            requires
                align * q + s <= align * b,
                s > 0,
                align > 0,
        ;
        assert(align * q + align <= align * b) by (nonlinear_arith)
            requires
                q + 1 <= b,
                align > 0,
        ;
    }
}

/// `n` is a power of two.
fn is_power_of_two(n: usize) -> (r: bool)
    ensures
        r == is_pow2(n as int),
{
    proof {
        reveal(is_pow2);
    }
    if n == 0 {
        return false;
    }
    let mut m: usize = n;
    while m % 2 == 0
        invariant
            0 < m <= n,
            is_pow2(n as int) == is_pow2(m as int),
        decreases m,
    {
        proof {
            reveal(is_pow2);
        }
        m = m / 2;
    }
    m == 1
}

/// The layout of `n` items of the given layout, one after the other, each at a multiple of its
/// alignment; nothing when its size is too large for a machine word.
pub fn array_layout(layout: &Layout, n: usize) -> (r: Option<Layout>)
    requires
        layout.wf(),
    ensures
        ({
            let stride = layout.size + padding(layout.size as int, layout.align as int);
            r == if stride * n <= usize::MAX {
                Some(Layout { size: (stride * n) as usize, align: layout.align })
            } else {
                None
            }
        }),
        r matches Some(l) ==> l.wf(),
{
    match repeat_layout(layout, n) {
        Some((array_layout, _)) => Some(array_layout),
        None => None,
    }
}

/// The layout of `n` items, and the distance from one to the next.
fn repeat_layout(layout: &Layout, n: usize) -> (r: Option<(Layout, usize)>)
    requires
        layout.wf(),
    ensures
        ({
            let stride = layout.size + padding(layout.size as int, layout.align as int);
            r == if stride * n <= usize::MAX {
                Some((Layout { size: (stride * n) as usize, align: layout.align }, stride as usize))
            } else {
                None
            }
        }),
        r matches Some(p) ==> p.0.wf(),
{
    proof {
        is_pow2_positive(layout.align as int);
    }
    let padded_size: usize = layout.size() + padding_needed_for(layout, layout.align());
    let alloc_size: usize = match padded_size.checked_mul(n) {
        Some(alloc_size) => alloc_size,
        None => return None,
    };
    proof {
        padded_is_multiple(layout.size as int, layout.align as int, n as int);
    }
    Some((Layout { size: alloc_size, align: layout.align() }, padded_size))
}

/// Any number of padded items needs no further padding.
proof fn padded_is_multiple(size: int, align: int, n: int)
    requires
        align > 0,
        size >= 0,
    ensures
        padding((size + padding(size, align)) * n, align) == 0,
{
    let s = size % align;
    vstd::arithmetic::div_mod::lemma_fundamental_div_mod(size, align);
    let q = size / align;
    let k = if s == 0 {
        q
    } else {
        q + 1
    };
    if s == 0 {
        vstd::arithmetic::div_mod::lemma_mod_self_0(align);
    } else {
        vstd::arithmetic::div_mod::lemma_small_mod((align - s) as nat, align as nat);
        assert(align * q + align == align * (q + 1)) by (nonlinear_arith);
    }
    assert(size + padding(size, align) == align * k);
    assert((align * k) * n == (k * n) * align) by (nonlinear_arith);
    vstd::arithmetic::div_mod::lemma_mod_multiples_basic(k * n, align);
    vstd::arithmetic::div_mod::lemma_mod_self_0(align);
}

/// The padding after an item of the given layout so that what follows is aligned to `align`.
pub fn padding_needed_for(layout: &Layout, align: usize) -> (r: usize)
    requires
        is_pow2(align as int),
    ensures
        r == padding(layout.size as int, align as int),
{
    let len: usize = layout.size();
    let sum: usize = len.wrapping_add(align).wrapping_sub(1);
    let len_rounded_up: usize = sum & !align.wrapping_sub(1);
    proof {
        let e = pow2_exponent(align);
        pow2_divides_words(e);
        let low = (align - 1) as usize;
        assert(low == vstd::bits::low_bits_mask(e) as usize);
        vstd::bits::lemma_usize_low_bits_mask_is_mod(sum, e);
        assert((sum & !low) == sum - (sum & low)) by (bit_vector);
        assert(len_rounded_up == sum - sum % align);
        round_up_word(len as int, align as int, sum as int);
    }
    len_rounded_up.wrapping_sub(len)
}

/// Rounding up in a machine word: clearing the low part of `len + align - 1`, which may have
/// wrapped around to a value below `align`.
proof fn round_up_word(len: int, align: int, sum: int)
    requires
        0 < align <= usize::MAX,
        0 <= len <= usize::MAX,
        (usize::MAX + 1) % align == 0,
        sum == if len + align - 1 > usize::MAX {
            len + align - 1 - (usize::MAX + 1)
        } else {
            len + align - 1
        },
    ensures
        ({
            let up = sum - sum % align;
            padding(len, align) == if up >= len {
                up - len
            } else {
                up + (usize::MAX + 1) - len
            }
        }),
{
    let s = len % align;
    let q = len / align;
    vstd::arithmetic::div_mod::lemma_fundamental_div_mod(len, align);
    vstd::arithmetic::div_mod::lemma_fundamental_div_mod(usize::MAX + 1, align);
    let w = (usize::MAX + 1) / align;
    assert(usize::MAX + 1 == align * w);
    // `len + align - 1`, rounded down, is `len` rounded up
    let full = len + align - 1;
    if s == 0 {
        vstd::arithmetic::div_mod::lemma_mod_self_0(align);
        assert(padding(len, align) == 0);
        assert(full == q * align + (align - 1)) by {
            vstd::arithmetic::mul::lemma_mul_is_commutative(q, align);
        }
        vstd::arithmetic::div_mod::lemma_fundamental_div_mod_converse(full, align, q, align - 1);
        assert(full % align == align - 1);
    } else {
        vstd::arithmetic::div_mod::lemma_small_mod((align - s) as nat, align as nat);
        assert(padding(len, align) == align - s);
        assert(align * q + align == (q + 1) * align) by (nonlinear_arith);
        assert(full == (q + 1) * align + (s - 1));
        vstd::arithmetic::div_mod::lemma_fundamental_div_mod_converse(full, align, q + 1, s - 1);
        assert(full % align == s - 1);
    }
    assert(full - full % align == len + padding(len, align));
    if full > usize::MAX {
        // the sum wrapped; the rounded value is exactly one past the largest word
        assert(sum < align);
        vstd::arithmetic::div_mod::lemma_small_mod(sum as nat, align as nat);
        assert(sum - sum % align == 0);
        assert(len > 0);
        let k = if s == 0 {
            q
        } else {
            q + 1
        };
        assert(align * (q + 1) == align * q + align) by (nonlinear_arith);
        assert(len + padding(len, align) == align * k);
        assert(k >= w) by (nonlinear_arith)
            requires
                align * k > align * w - align,
                align > 0,
        ;
        assert(q < w) by (nonlinear_arith)
            requires
                align * q <= len,
                len < align * w,
                align > 0,
        ;
        assert(k == w);
    }
}

} // verus!
