//! Spectrogram history ring/cursor.
//!
//! The history texture is a fixed-width ring: each new column is written at the
//! current cursor, then the cursor advances modulo the width. The cursor also
//! gives the offset by which the display is shifted, so that the newest column
//! sits at the right edge and history scrolls left.
use vstd::arithmetic::power2::*;
use vstd::prelude::*;

use crate::order;
use crate::single;
use crate::single::{Single, ONE};

verus! {

/// The bits of the greatest number below 1.
pub const BELOW_ONE: u32 = 0x3f7f_ffff;

/// A column's place as a fraction of the width, held below 1: where the two are too
/// great to be told apart in single precision, it is the number next to 1.
pub open spec fn offset(column: int, width: int) -> Single {
    let quotient = Single::of_integer(column).quotient(Single::of_integer(width));
    if quotient.less(Single { bits: ONE }) {
        quotient
    } else {
        Single { bits: BELOW_ONE }
    }
}

/// The texture column that is shown at screen column `s`, from the left, when
/// `next` is the column that is written next.
pub open spec fn shown(next: int, s: int, width: int) -> int {
    (next + s) % width
}

/// Write cursor over a fixed-width history texture.
#[derive(Copy, Clone, Debug)]
pub struct HistoryCursor {
    width: u32,
    x: u32,
}

impl HistoryCursor {
    #[verifier::type_invariant]
    spec fn within(self) -> bool {
        self.x < self.width
    }

    /// The number of columns.
    pub closed spec fn columns(self) -> int {
        self.width as int
    }

    /// The column that is written next.
    pub closed spec fn next_column(self) -> int {
        self.x as int
    }

    /// Create a cursor for a texture `width` columns wide.
    pub fn new(width: u32) -> (c: HistoryCursor)
        requires
            width > 0,
        ensures
            c.columns() == width,
            c.next_column() == 0,
    {
        HistoryCursor { width, x: 0 }
    }

    pub fn width(&self) -> (r: u32)
        ensures
            r == self.columns(),
            r > 0,
    {
        proof {
            use_type_invariant(self);
        }
        self.width
    }

    /// Current write position (the texture column the next column goes into).
    pub fn position(&self) -> (r: u32)
        ensures
            r == self.next_column(),
            r < self.columns(),
    {
        proof {
            use_type_invariant(self);
        }
        self.x
    }

    /// Return the column index to write the next column into, then advance the
    /// cursor by one (wrapping at `width`).
    pub fn advance(&mut self) -> (r: u32)
        ensures
            r == old(self).next_column(),
            r < old(self).columns(),
            final(self).columns() == old(self).columns(),
            final(self).next_column() == (old(self).next_column() + 1) % old(self).columns(),
    {
        proof {
            use_type_invariant(&*self);
        }
        let pos = self.x;
        let next: u32 = (self.x + 1) % self.width;
        self.x = next;
        pos
    }

    /// The columns that the next `count` writes go to, in order; advances past them.
    pub fn advance_by(&mut self, count: usize) -> (r: Vec<u32>)
        ensures
            r.len() == count,
            forall|k: int|
                0 <= k < count ==> #[trigger] r[k] == (old(self).next_column() + k)
                    % old(self).columns(),
            final(self).columns() == old(self).columns(),
            final(self).next_column() == (old(self).next_column() + count) % old(self).columns(),
    {
        let mut r: Vec<u32> = Vec::new();
        let width = self.width();
        let start = self.position();
        let ghost w = width as int;
        let ghost x = start as int;
        proof {
            vstd::arithmetic::div_mod::lemma_small_mod(x as nat, w as nat);
        }
        let mut k: usize = 0;
        while k < count
            invariant
                k <= count,
                r.len() == k,
                w > 0,
                self.columns() == w,
                self.next_column() == (x + k) % w,
                forall|j: int| 0 <= j < k ==> #[trigger] r[j] == (x + j) % w,
            decreases count - k,
        {
            let c = self.advance();
            r.push(c);
            proof {
                vstd::arithmetic::div_mod::lemma_add_mod_noop(x + k, 1, w);
                if w == 1 {
                    assert((x + k) % w == 0 && (x + k + 1) % w == 0);
                } else {
                    vstd::arithmetic::div_mod::lemma_small_mod(1, w as nat);
                }
            }
            k = k + 1;
        }
        r
    }

    /// Horizontal UV offset for the shader so the newest column is at the right
    /// edge: the just-written column is at `x-1 (mod width)`, and that should map
    /// to UV `1.0`. Returned in `[0, 1)`.
    pub fn uv_offset(&self) -> (r: Single)
        ensures
            r == offset(self.next_column(), self.columns()),
            (Single { bits: 0 }).at_most(r),
            r.less(Single { bits: ONE }),
    {
        proof {
            use_type_invariant(self);
            offset_is_in_unit_range(self.x as int, self.width as int);
        }
        let quotient = Single::from_u64(self.x as u64).over(Single::from_u64(self.width as u64));
        if quotient.lt(Single { bits: ONE }) {
            quotient
        } else {
            Single { bits: BELOW_ONE }
        }
    }
}

/// The offset lies in `[0, 1)`, and up to `2^24` columns it is the quotient itself.
pub proof fn offset_is_in_unit_range(column: int, width: int)
    requires
        0 <= column < width <= u32::MAX,
    ensures
        (Single { bits: 0 }).at_most(offset(column, width)),
        offset(column, width).less(Single { bits: ONE }),
        width <= 0x100_0000 ==> offset(column, width) == Single::of_integer(column).quotient(
            Single::of_integer(width),
        ),
{
    let a = Single::of_integer(column);
    let b = Single::of_integer(width);
    order::lemma_conversion(column);
    order::lemma_conversion(width);
    order::conversion_is_monotone(column, width);
    if width <= 0x100_0000 {
        order::whole_numbers_are_exact(column);
        order::whole_numbers_are_exact(width);
        lemma_pow2_pos(149);
        assert(column * pow2(149) < width * pow2(149)) by (nonlinear_arith)
            requires
                column < width,
                pow2(149) > 0,
        ;
        single::order_is_by_value(a, b);
    }
    if a.less(b) {
        order::proper_fraction_is_below_one(a, b);
    } else {
        order::lemma_bits_of_rank(a, b);
        order::self_quotient_is_one(b);
    }
}

/// A column's offset is its share of the width.
pub proof fn lemma_offset(x: int, w: int)
    requires
        0 <= x < w <= 0x100_0000,
    ensures
        order::near(offset(x, w), x * pow2(149), w),
{
    let u = pow2(149) as int;
    let (a, b) = (Single::of_integer(x), Single::of_integer(w));
    lemma_pow2_pos(149);
    order::whole_numbers_are_exact(x);
    order::whole_numbers_are_exact(w);
    order::lemma_conversion(w);
    offset_is_in_unit_range(x, w);
    order::operations_are_near(a, b);
    order::lemma_near_reduced(offset(x, w), x * u, w, u, a.value() * u, b.value());
}

/// The offset is the next column's share of the width, up to rounding, for textures of
/// up to `2^24` columns.
pub proof fn offset_is_the_share_of_the_width(c: HistoryCursor, r: Single)
    requires
        call_ensures(HistoryCursor::uv_offset, (&c,), r),
        0 <= c.next_column() < c.columns() <= 0x100_0000,
    ensures
        order::near(r, c.next_column() * pow2(149), c.columns()),
{
    lemma_offset(c.next_column(), c.columns());
}

/// Reading the ring from the next column on, the newest column, written just
/// before it, is shown at the right edge, the one before it next to that, and so
/// on back to the oldest at the left edge.
pub proof fn newest_column_is_at_the_right_edge(last: int, age: int, width: int)
    requires
        0 <= last < width,
        0 <= age < width,
    ensures
        shown((last + 1) % width, width - 1 - age, width) == (last - age) % width,
{
    let next = (last + 1) % width;
    vstd::arithmetic::div_mod::lemma_add_mod_noop(last + 1, width - 1 - age, width);
    vstd::arithmetic::div_mod::lemma_add_mod_noop(next, width - 1 - age, width);
    vstd::arithmetic::div_mod::lemma_mod_twice(last + 1, width);
    vstd::arithmetic::div_mod::lemma_mod_add_multiples_vanish(last - age, width);
    assert(last + 1 + (width - 1 - age) == width + (last - age));
}

/// After as many columns as the texture is wide, the cursor is back where it was,
/// and every column has been written once.
pub proof fn a_full_turn_writes_every_column(start: int, width: int, column: int)
    requires
        0 <= start < width,
        0 <= column < width,
    ensures
        (start + width) % width == start,
        exists|k: int| 0 <= k < width && #[trigger] shown(start, k, width) == column,
        forall|j: int, k: int|
            0 <= j < k < width ==> #[trigger] shown(start, j, width) != #[trigger] shown(
                start,
                k,
                width,
            ),
{
    vstd::arithmetic::div_mod::lemma_mod_add_multiples_vanish(start, width);
    vstd::arithmetic::div_mod::lemma_small_mod(start as nat, width as nat);
    let k = if column >= start {
        column - start
    } else {
        column - start + width
    };
    vstd::arithmetic::div_mod::lemma_mod_add_multiples_vanish(column, width);
    vstd::arithmetic::div_mod::lemma_small_mod(column as nat, width as nat);
    assert(shown(start, k, width) == column);
    assert forall|i: int, j: int| 0 <= i < j < width implies #[trigger] shown(start, i, width)
        != #[trigger] shown(start, j, width) by {
        lemma_turn(start + i, width);
        lemma_turn(start + j, width);
    }
}

proof fn lemma_turn(x: int, width: int)
    requires
        0 <= x < 2 * width,
    ensures
        x % width == if x < width {
            x
        } else {
            x - width
        },
{
    if x < width {
        vstd::arithmetic::div_mod::lemma_small_mod(x as nat, width as nat);
    } else {
        vstd::arithmetic::div_mod::lemma_mod_add_multiples_vanish(x - width, width);
        vstd::arithmetic::div_mod::lemma_small_mod((x - width) as nat, width as nat);
    }
}

/// A cursor starts at the first column.
pub proof fn cursors_start_at_the_first_column(width: u32, c: HistoryCursor)
    requires
        call_ensures(HistoryCursor::new, (width,), c),
    ensures
        c.columns() == width,
        c.next_column() == 0,
{
}

/// Advancing hands out the column that was next and goes on to the one beside it, or from
/// the last one back to the first.
pub proof fn columns_are_written_from_left_to_right(c: &mut HistoryCursor, r: u32)
    requires
        call_ensures(HistoryCursor::advance, (c,), r),
        0 <= old(c).next_column() < old(c).columns(),
    ensures
        r == old(c).next_column(),
        final(c).columns() == old(c).columns(),
        final(c).next_column() == if old(c).next_column() == old(c).columns() - 1 {
            0
        } else {
            old(c).next_column() + 1
        },
{
    let (x, w) = (old(c).next_column(), old(c).columns());
    if x == w - 1 {
        vstd::arithmetic::div_mod::lemma_mod_self_0(w);
    } else {
        vstd::arithmetic::div_mod::lemma_small_mod((x + 1) as nat, w as nat);
    }
}

/// Advancing by several columns is advancing by one as often: the first column handed out
/// is the next one, each is beside the one before it, or the first after the last, and the
/// cursor ends beside the last one handed out.
pub proof fn several_columns_are_written_one_by_one(
    c: &mut HistoryCursor,
    count: usize,
    r: Vec<u32>,
    k: int,
)
    requires
        call_ensures(HistoryCursor::advance_by, (c, count), r),
        0 <= old(c).next_column() < old(c).columns(),
        0 <= k < count,
    ensures
        r.len() == count,
        final(c).columns() == old(c).columns(),
        r[0] == old(c).next_column(),
        ({
            let beside = if r[k] == old(c).columns() - 1 {
                0
            } else {
                r[k] + 1
            };
            if k + 1 < count {
                r[k + 1] == beside
            } else {
                final(c).next_column() == beside
            }
        }),
{
    let (x, w) = (old(c).next_column(), old(c).columns());
    vstd::arithmetic::div_mod::lemma_small_mod(x as nat, w as nat);
    assert(r[0] == (x + 0) % w);
    assert(r[k] == (x + k) % w);
    vstd::arithmetic::div_mod::lemma_mod_bound(x + k, w);
    vstd::arithmetic::div_mod::lemma_add_mod_noop(x + k, 1, w);
    vstd::arithmetic::div_mod::lemma_add_mod_noop(r[k] as int, 1, w);
    vstd::arithmetic::div_mod::lemma_small_mod(r[k] as nat, w as nat);
    if r[k] == w - 1 {
        vstd::arithmetic::div_mod::lemma_mod_self_0(w);
    } else {
        vstd::arithmetic::div_mod::lemma_small_mod((r[k] + 1) as nat, w as nat);
    }
    if k + 1 < count {
        assert(r[k + 1] == (x + (k + 1)) % w);
    }
}

} // verus!
