use vstd::prelude::*;

verus! {

/// Horizontal offset (0 or 1) of quadrant `k` in the traversal's quadrant
/// sequence: top-left, top-right, bottom-left, bottom-right of a flipped square,
/// that is (0,1), (1,1), (0,0), (1,0).
pub open spec fn quad_x(k: int) -> int {
    if k == 1 || k == 3 { 1 } else { 0 }
}

/// Vertical offset (0 or 1) of quadrant `k` in the traversal's quadrant sequence.
pub open spec fn quad_y(k: int) -> int {
    if k == 0 || k == 1 { 1 } else { 0 }
}

/// The position of the quadrant with offsets `(qx, qy)` in the quadrant sequence.
pub open spec fn quad_index(qx: int, qy: int) -> int {
    (1 - qy) * 2 + qx
}

/// Column within an 8x8 block of the `i`-th pixel of the block traversal:
/// the sum of an outer offset (step 4), a middle offset (step 2) and an inner
/// offset (step 1), the outer varying slowest.
pub open spec fn order_x(i: int) -> int {
    4 * quad_x(i / 16) + 2 * quad_x((i / 4) % 4) + quad_x(i % 4)
}

/// Row within an 8x8 block of the `i`-th pixel of the block traversal.
pub open spec fn order_y(i: int) -> int {
    4 * quad_y(i / 16) + 2 * quad_y((i / 4) % 4) + quad_y(i % 4)
}

/// The step of the block traversal at which the pixel at `(x, y)` of a block
/// is visited.
pub open spec fn order_index(x: int, y: int) -> int {
    16 * quad_index(x / 4, y / 4) + 4 * quad_index((x / 2) % 2, (y / 2) % 2) + quad_index(
        x % 2,
        y % 2,
    )
}

proof fn lemma_digits(i: int)
    requires
        0 <= i < 64,
    ensures
        0 <= i / 16 < 4,
        0 <= (i / 4) % 4 < 4,
        0 <= i % 4 < 4,
        i == 16 * (i / 16) + 4 * ((i / 4) % 4) + i % 4,
{
}

/// The traversal visits positions inside the block, and `order_index` tells
/// back the step from the position.
pub proof fn lemma_order_inverse(i: int)
    requires
        0 <= i < 64,
    ensures
        0 <= order_x(i) < 8,
        0 <= order_y(i) < 8,
        order_index(order_x(i), order_y(i)) == i,
{
    lemma_digits(i);
    let a = i / 16;
    let b = (i / 4) % 4;
    let c = i % 4;
    let x = order_x(i);
    let y = order_y(i);
    assert(x / 4 == quad_x(a) && (x / 2) % 2 == quad_x(b) && x % 2 == quad_x(c));
    assert(y / 4 == quad_y(a) && (y / 2) % 2 == quad_y(b) && y % 2 == quad_y(c));
}

/// Every position of an 8x8 block is visited by the traversal, at step
/// `order_index(x, y)`.
pub proof fn lemma_order_covers(x: int, y: int)
    requires
        0 <= x < 8,
        0 <= y < 8,
    ensures
        0 <= order_index(x, y) < 64,
        order_x(order_index(x, y)) == x,
        order_y(order_index(x, y)) == y,
{
    let a = quad_index(x / 4, y / 4);
    let b = quad_index((x / 2) % 2, (y / 2) % 2);
    let c = quad_index(x % 2, y % 2);
    let i = order_index(x, y);
    assert(0 <= a < 4 && 0 <= b < 4 && 0 <= c < 4);
    assert(i / 16 == a && (i / 4) % 4 == b && i % 4 == c);
}

/// The offset inside a block of the `i`-th pixel of the block traversal.
pub fn traversal_offset(i: usize) -> (r: (u32, u32))
    requires
        i < 64,
    ensures
        r.0 == order_x(i as int),
        r.1 == order_y(i as int),
        r.0 < 8,
        r.1 < 8,
{
    proof {
        lemma_order_inverse(i as int);
    }
    let outer: usize = i / 16;
    let middle: usize = (i / 4) % 4;
    let inner: usize = i % 4;
    let x: u32 = 4 * quad_offset_x(outer) + 2 * quad_offset_x(middle) + quad_offset_x(inner);
    let y: u32 = 4 * quad_offset_y(outer) + 2 * quad_offset_y(middle) + quad_offset_y(inner);
    (x, y)
}

/// The step of the block traversal at which the pixel at `(x, y)` of a block
/// is visited.
pub fn traversal_step(x: u32, y: u32) -> (r: usize)
    requires
        x < 8,
        y < 8,
    ensures
        r == order_index(x as int, y as int),
        r < 64,
{
    proof {
        lemma_order_covers(x as int, y as int);
    }
    let outer: usize = quad_position(x / 4, y / 4);
    let middle: usize = quad_position((x / 2) % 2, (y / 2) % 2);
    let inner: usize = quad_position(x % 2, y % 2);
    16 * outer + 4 * middle + inner
}

fn quad_position(qx: u32, qy: u32) -> (r: usize)
    requires
        qx < 2,
        qy < 2,
    ensures
        r == quad_index(qx as int, qy as int),
{
    (1 - qy as usize) * 2 + qx as usize
}

fn quad_offset_x(k: usize) -> (r: u32)
    ensures
        r == quad_x(k as int),
{
    if k == 1 || k == 3 {
        1
    } else {
        0
    }
}

fn quad_offset_y(k: usize) -> (r: u32)
    ensures
        r == quad_y(k as int),
{
    if k == 0 || k == 1 {
        1
    } else {
        0
    }
}

/// Pairs each value of a 64-value block with its position in the block, in
/// traversal order: entry `i` is `(order_x(i), order_y(i), buffer[i])`.
pub fn read_in_image_order(buffer: &[u8; 64]) -> (r: Vec<(u32, u32, u8)>)
    ensures
        r@.len() == 64,
        forall|i: int|
            0 <= i < 64 ==> #[trigger] r@[i] == (order_x(i) as u32, order_y(i) as u32, buffer@[i]),
{
    let mut out: Vec<(u32, u32, u8)> = Vec::new();
    let mut i: usize = 0;
    while i < 64
        invariant
            i <= 64,
            buffer@.len() == 64,
            out@.len() == i,
            forall|j: int|
                0 <= j < i ==> #[trigger] out@[j] == (order_x(j) as u32, order_y(j) as u32, buffer@[j]),
        decreases 64 - i,
    {
        let (x, y) = traversal_offset(i);
        out.push((x, y, buffer[i]));
        i = i + 1;
    }
    out
}

} // verus!
