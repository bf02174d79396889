//! The layout of a header that is followed by a number of entries.
use core::future::Future;
use vstd::arithmetic::div_mod::{lemma_mod_adds, lemma_mod_multiples_basic};
use vstd::arithmetic::power2::is_pow2;
use vstd::layout::layout_for_type_is_valid;
use vstd::prelude::*;
use crate::erased::{Entry, JoinHeader};

verus! {

/// The size and the alignment of a piece of memory.
#[derive(Clone, Copy, Debug, PartialEq, Eq, Structural)]
pub struct Layout {
    pub size: usize,
    pub align: usize,
}

/// The smallest multiple of `align` that is not less than `size`.
pub open spec fn padded(size: int, align: int) -> int {
    (size + align - 1) / align * align
}

/// Where the entries begin behind a header of type `H`.
pub open spec fn tail_offset<H, E>() -> int {
    padded(vstd::layout::size_of::<H>() as int, vstd::layout::align_of::<E>() as int)
}

/// The size of a header of type `H` with `count` entries of type `E`.
pub open spec fn record_size<H, E>(count: int) -> int {
    tail_offset::<H, E>() + count * vstd::layout::size_of::<E>()
}

/// The alignment of a header of type `H` with entries of type `E`.
pub open spec fn record_align<H, E>() -> int {
    if vstd::layout::align_of::<H>() < vstd::layout::align_of::<E>() {
        vstd::layout::align_of::<E>() as int
    } else {
        vstd::layout::align_of::<H>() as int
    }
}

/// Whether memory of this size and alignment can exist: the size, padded to the alignment, fits
/// into an `isize`.
pub open spec fn can_exist(size: int, align: int) -> bool {
    size <= isize::MAX as int - (isize::MAX as int % align)
}

/// `usize::next_multiple_of`: the smallest multiple of `rhs` that is not less than `lhs`. It panics
/// if `rhs` is zero or the result does not fit.
pub assume_specification[ usize::next_multiple_of ](lhs: usize, rhs: usize) -> (multiple: usize)
    requires
        rhs > 0,
        padded(lhs as int, rhs as int) <= usize::MAX,
    ensures
        multiple == padded(lhs as int, rhs as int),
;

/// The larger one of two numbers.
pub fn max(a: usize, b: usize) -> (m: usize)
    ensures
        m == (if a < b {
            b
        } else {
            a
        }),
{
    if a < b {
        b
    } else {
        a
    }
}

/// The alignment of `T`, which is a power of two.
pub fn checked_align_of<T>() -> (align: usize)
    ensures
        align == vstd::layout::align_of::<T>(),
        is_pow2(align as int),
{
    layout_for_type_is_valid::<T>();
    core::mem::align_of::<T>()
}

/// Where the entries begin behind a header of type `H`.
pub fn offset_behind<H, E>() -> (offset: usize)
    ensures
        offset == tail_offset::<H, E>(),
        offset < vstd::layout::size_of::<H>() + vstd::layout::align_of::<E>(),
        vstd::layout::size_of::<H>() <= offset,
{
    let entry_align = checked_align_of::<E>();
    layout_for_type_is_valid::<H>();
    let header_size = core::mem::size_of::<H>();
    proof {
        lemma_padded(header_size as int, entry_align as int);
        lemma_align_bound(entry_align);
    }
    header_size.next_multiple_of(entry_align)
}

/// Where the entries of a join begin.
pub fn entries_offset<T: Future>() -> (offset: usize)
    ensures
        offset == tail_offset::<JoinHeader, Entry<T>>(),
{
    offset_behind::<JoinHeader, Entry<T>>()
}

/// The layout of the memory of a join of `entry_count` futures.
pub fn join_impl_layout<T: Future>(entry_count: usize) -> (layout: Layout)
    requires
        can_exist(
            record_size::<JoinHeader, Entry<T>>(entry_count as int),
            record_align::<JoinHeader, Entry<T>>(),
        ),
    ensures
        layout.size == record_size::<JoinHeader, Entry<T>>(entry_count as int),
        layout.align == record_align::<JoinHeader, Entry<T>>(),
        vstd::layout::valid_layout(layout.size, layout.align),
{
    let entry_size = core::mem::size_of::<Entry<T>>();
    let offset = entries_offset::<T>();
    let align = max(checked_align_of::<Entry<T>>(), checked_align_of::<JoinHeader>());
    assert(entry_count * entry_size <= isize::MAX) by {
        assert(isize::MAX as int % align as int >= 0);
    }
    let entries_size = entry_count * entry_size;
    Layout { size: offset + entries_size, align }
}

/// Of two powers of two the smaller one divides the larger one.
proof fn lemma_pow2_divides(a: int, b: int)
    requires
        is_pow2(a),
        is_pow2(b),
        a <= b,
    ensures
        b % a == 0,
    decreases a,
{
    reveal(is_pow2);
    if a > 1 {
        lemma_pow2_divides(a / 2, b / 2);
        let h = a / 2;
        let q = (b / 2) / h;
        assert(b / 2 == h * q) by (nonlinear_arith)
            requires
                (b / 2) % h == 0,
                q == (b / 2) / h,
                h > 0,
        ;
        assert(b == a * q) by (nonlinear_arith)
            requires
                b == 2 * (h * q),
                a == 2 * h,
        ;
        assert((a * q) % a == 0) by (nonlinear_arith)
            requires
                a > 0,
        ;
    }
}

/// A power of two that fits into a `usize` is at most half of what does.
proof fn lemma_align_bound(align: usize)
    requires
        is_pow2(align as int),
    ensures
        align <= isize::MAX + 1,
{
    reveal_with_fuel(is_pow2, 66);
    assert(is_pow2(0x1_0000_0000));
    assert(is_pow2(0x1_0000_0000_0000_0000));
    let top = usize::MAX + 1;
    assert(is_pow2(top));
    if align > isize::MAX + 1 {
        lemma_pow2_divides(align as int, top);
        let a = align as int;
        assert(top % a == top - a) by (nonlinear_arith)
            requires
                a < top < 2 * a,
        ;
    }
}

/// Padding adds less than the alignment and makes a multiple of it.
proof fn lemma_padded(size: int, align: int)
    requires
        0 <= size,
        0 < align,
    ensures
        size <= padded(size, align) < size + align,
        padded(size, align) % align == 0,
{
    let x = size + align - 1;
    assert(x / align * align + x % align == x && 0 <= x % align < align) by (nonlinear_arith)
        requires
            align > 0,
    ;
    let q = x / align;
    assert((q * align) % align == 0) by (nonlinear_arith)
        requires
            align > 0,
    ;
}

/// A layout was asked for that cannot exist.
#[derive(Clone, Copy, Debug, PartialEq, Eq, Structural)]
pub struct LayoutError;

/// The layout of a header of type `H` with `count` entries of type `E`, and where the entries
/// begin.
pub fn record_layout<H, E>(count: usize) -> (result: Result<(Layout, usize), LayoutError>)
    ensures
        result is Ok <==> {
            &&& can_exist(
                count * vstd::layout::size_of::<E>(),
                vstd::layout::align_of::<E>() as int,
            )
            &&& can_exist(record_size::<H, E>(count as int), record_align::<H, E>())
        },
        result matches Ok((layout, offset)) ==> {
            &&& layout.size == record_size::<H, E>(count as int)
            &&& layout.align == record_align::<H, E>()
            &&& offset == tail_offset::<H, E>()
        },
{
    let entry_size = core::mem::size_of::<E>();
    let entry_align = checked_align_of::<E>();
    let align = max(entry_align, checked_align_of::<H>());
    let offset = offset_behind::<H, E>();
    proof {
        lemma_room(entry_align);
        lemma_room(align);
    }
    match entry_size.checked_mul(count) {
        Some(entries_size) => {
            assert(entries_size == count * entry_size) by (nonlinear_arith)
                requires
                    entries_size == entry_size * count,
            ;
            if entries_size > isize::MAX as usize - (entry_align - 1) {
                return Err(LayoutError);
            }
            match offset.checked_add(entries_size) {
                Some(size) if size <= isize::MAX as usize - (align - 1) => Ok(
                    (Layout { size, align }, offset),
                ),
                _ => Err(LayoutError),
            }
        },
        None => {
            assert(count * entry_size == entry_size * count) by (nonlinear_arith);
            Err(LayoutError)
        },
    }
}

/// How much of an `isize` is left for the size of something with this alignment.
proof fn lemma_room(align: usize)
    requires
        is_pow2(align as int),
    ensures
        isize::MAX as int % align as int == align - 1,
        align - 1 <= isize::MAX,
{
    lemma_align_bound(align);
    reveal_with_fuel(is_pow2, 66);
    let top = isize::MAX + 1;
    assert(is_pow2(0x8000_0000));
    assert(is_pow2(0x8000_0000_0000_0000));
    assert(is_pow2(top));
    let a = align as int;
    lemma_pow2_divides(a, top);
    assert((top - 1) % a == a - 1) by (nonlinear_arith)
        requires
            top % a == 0,
            a > 0,
    ;
}

/// A header that lies at `base` lies at a multiple of its alignment. Every entry behind it lies
/// inside the memory, behind the header, apart from the other entries, and at a multiple of its
/// alignment.
pub proof fn entries_lie_well<H, E>(base: int, count: int, i: int)
    requires
        is_pow2(vstd::layout::align_of::<H>() as int),
        is_pow2(vstd::layout::align_of::<E>() as int),
        vstd::layout::size_of::<E>() % vstd::layout::align_of::<E>() == 0,
        base % record_align::<H, E>() == 0,
    ensures
        base % vstd::layout::align_of::<H>() as int == 0,
        0 <= count ==> base + vstd::layout::size_of::<H>() <= base + record_size::<H, E>(count),
        0 <= i < count ==> {
            let at = base + tail_offset::<H, E>() + i * vstd::layout::size_of::<E>();
            &&& at % vstd::layout::align_of::<E>() as int == 0
            &&& base + vstd::layout::size_of::<H>() <= at
            &&& at + vstd::layout::size_of::<E>() <= base + tail_offset::<H, E>() + (i + 1)
                * vstd::layout::size_of::<E>()
            &&& at + vstd::layout::size_of::<E>() <= base + record_size::<H, E>(count)
        },
{
    let size = vstd::layout::size_of::<E>() as int;
    let ea = vstd::layout::align_of::<E>() as int;
    let ha = vstd::layout::align_of::<H>() as int;
    let ra = record_align::<H, E>();
    let off = tail_offset::<H, E>();
    reveal(is_pow2);
    lemma_padded(vstd::layout::size_of::<H>() as int, ea);
    lemma_pow2_divides(ea, ra);
    lemma_pow2_divides(ha, ra);
    lemma_divides_through(base, ra, ea);
    lemma_divides_through(base, ra, ha);
    assert((i * size) % ea == 0) by {
        let q = size / ea;
        assert(size == ea * q) by (nonlinear_arith)
            requires
                size % ea == 0,
                q == size / ea,
                ea > 0,
        ;
        assert(i * (ea * q) == (i * q) * ea) by (nonlinear_arith);
        lemma_mod_multiples_basic(i * q, ea);
    }
    lemma_mod_adds(base, off, ea);
    lemma_mod_adds(base + off, i * size, ea);
    assert((i + 1) * size == i * size + size) by (nonlinear_arith);
    if 0 <= i < count {
        assert((i + 1) * size <= count * size) by (nonlinear_arith)
            requires
                i + 1 <= count,
                size >= 0,
        ;
        assert(i * size >= 0) by (nonlinear_arith)
            requires
                i >= 0,
                size >= 0,
        ;
    }
    if 0 <= count {
        assert(count * size >= 0) by (nonlinear_arith)
            requires
                count >= 0,
                size >= 0,
        ;
    }
}

/// What a multiple of `b` is a multiple of, if `a` divides `b`.
proof fn lemma_divides_through(x: int, b: int, a: int)
    requires
        x % b == 0,
        b % a == 0,
        a > 0,
        b > 0,
    ensures
        x % a == 0,
{
    let p = x / b;
    let q = b / a;
    assert(x == b * p && b == a * q) by (nonlinear_arith)
        requires
            x % b == 0,
            b % a == 0,
            p == x / b,
            q == b / a,
            a > 0,
            b > 0,
    ;
    assert(a * q * p == (q * p) * a) by (nonlinear_arith);
    lemma_mod_multiples_basic(q * p, a);
}

/// The padded size is the smallest multiple of the alignment that is not less than the size.
pub proof fn padding_is_minimal(size: int, align: int, multiple: int)
    requires
        0 <= size,
        0 < align,
    ensures
        size <= padded(size, align) < size + align,
        padded(size, align) % align == 0,
        size <= multiple && multiple % align == 0 ==> padded(size, align) <= multiple,
{
    lemma_padded(size, align);
    if size <= multiple && multiple % align == 0 {
        let p = padded(size, align);
        let a = p / align;
        let b = multiple / align;
        assert(p == align * a && multiple == align * b) by (nonlinear_arith)
            requires
                p % align == 0,
                multiple % align == 0,
                a == p / align,
                b == multiple / align,
                align > 0,
        ;
        assert(a <= b) by (nonlinear_arith)
            requires
                align * a < align * b + align,
                align > 0,
        ;
        assert(align * a <= align * b) by (nonlinear_arith)
            requires
                a <= b,
                align > 0,
        ;
    }
}

/// The memory of a header without entries ends where the entries would begin, which is the first
/// place behind the header that suits them; each entry makes it longer by its own size; and it suits
/// the header and the entries, and no larger alignment is asked for.
pub proof fn a_record_is_as_small_as_possible<H, E>(count: int)
    requires
        is_pow2(vstd::layout::align_of::<H>() as int),
        is_pow2(vstd::layout::align_of::<E>() as int),
    ensures
        record_size::<H, E>(0) == tail_offset::<H, E>(),
        record_size::<H, E>(count + 1) == record_size::<H, E>(count) + vstd::layout::size_of::<E>(),
        vstd::layout::size_of::<H>() <= tail_offset::<H, E>(),
        tail_offset::<H, E>() < vstd::layout::size_of::<H>() + vstd::layout::align_of::<E>(),
        tail_offset::<H, E>() % vstd::layout::align_of::<E>() as int == 0,
        record_align::<H, E>() >= vstd::layout::align_of::<H>(),
        record_align::<H, E>() >= vstd::layout::align_of::<E>(),
        record_align::<H, E>() == vstd::layout::align_of::<H>() || record_align::<H, E>()
            == vstd::layout::align_of::<E>(),
{
    reveal(is_pow2);
    lemma_padded(
        vstd::layout::size_of::<H>() as int,
        vstd::layout::align_of::<E>() as int,
    );
    let size = vstd::layout::size_of::<E>() as int;
    assert((count + 1) * size == count * size + size) by (nonlinear_arith);
    assert(0 * size == 0) by (nonlinear_arith);
}

/// Memory can exist exactly if its size, padded to its alignment, fits into an `isize`.
pub proof fn what_can_exist_fits(size: int, align: usize)
    requires
        0 <= size,
        is_pow2(align as int),
    ensures
        can_exist(size, align as int) <==> padded(size, align as int) <= isize::MAX as int,
{
    lemma_room(align);
    let a = align as int;
    reveal(is_pow2);
    assert(a > 0);
    let top = isize::MAX as int - (a - 1);
    assert(top % a == 0) by {
        let m = isize::MAX as int;
        assert((m - m % a) % a == 0) by (nonlinear_arith)
            requires
                a > 0,
        ;
    }
    lemma_padded(size, a);
    if size <= top {
        padding_is_minimal(size, a, top);
    } else {
        let p = padded(size, a);
        let x = p / a;
        let y = top / a;
        assert(p == a * x && top == a * y) by (nonlinear_arith)
            requires
                p % a == 0,
                top % a == 0,
                x == p / a,
                y == top / a,
                a > 0,
        ;
        assert(x >= y + 1) by (nonlinear_arith)
            requires
                a * x > a * y,
                a > 0,
        ;
        assert(a * x >= a * y + a) by (nonlinear_arith)
            requires
                x >= y + 1,
                a > 0,
        ;
    }
}

} // verus!
