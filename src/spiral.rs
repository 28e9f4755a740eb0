use vstd::prelude::*;

verus! {

/// Absolute value.
pub open spec fn abs_spec(a: int) -> int {
    if a < 0 {
        -a
    } else {
        a
    }
}

/// The square ring that offset `(x, y)` lies on: `max(|x|, |y|)`.
pub open spec fn ring(x: int, y: int) -> int {
    if abs_spec(x) >= abs_spec(y) {
        abs_spec(x)
    } else {
        abs_spec(y)
    }
}

/// Number of offsets on rings below `r`: `(2r - 1)^2` for `r >= 1`.
pub open spec fn ring_start(r: int) -> int {
    if r <= 0 {
        0
    } else {
        (2 * r - 1) * (2 * r - 1)
    }
}

/// Number of offsets on rings `0..=r`: `(2r + 1)^2`.
pub open spec fn cells_within(r: int) -> int {
    (2 * r + 1) * (2 * r + 1)
}

/// Position of `(x, y)` on its ring `r >= 1`. The ring is walked from `(r, 1 - r)`
/// up to `(r, r)`, left to `(-r, r)`, down to `(-r, -r)` and right to `(r, -r)`.
pub open spec fn ring_pos(x: int, y: int) -> int {
    let r = ring(x, y);
    if x == r && y > -r {
        y + r - 1
    } else if y == r && x < r {
        2 * r + (r - 1 - x)
    } else if x == -r && y < r {
        4 * r + (r - 1 - y)
    } else {
        6 * r + (x + r - 1)
    }
}

/// Step at which the spiral walk from `(0, 0)` reaches offset `(x, y)`.
pub open spec fn spiral_index(x: int, y: int) -> int {
    if ring(x, y) == 0 {
        0
    } else {
        ring_start(ring(x, y)) + ring_pos(x, y)
    }
}

/// The direction of the step that brings the walk to `(x, y)`; `(0, -1)` at the start.
pub open spec fn incoming_dir(x: int, y: int) -> (int, int) {
    let r = ring(x, y);
    if r == 0 {
        (0, -1)
    } else if x == r && y == 1 - r {
        (1, 0)
    } else if x == r && y > -r {
        (0, 1)
    } else if y == r && x < r {
        (-1, 0)
    } else if x == -r && y < r {
        (0, -1)
    } else {
        (1, 0)
    }
}

/// The corners of a ring, where the walk turns left.
pub open spec fn is_turn(x: int, y: int) -> bool {
    x == y || (x < 0 && x == -y) || (x > 0 && x == 1 - y)
}

/// The direction `(dx, dy)` turned a quarter to the left.
pub open spec fn turn_left(d: (int, int)) -> (int, int) {
    (-d.1, d.0)
}

/// The direction of the step taken from `(x, y)`.
pub open spec fn outgoing_dir(x: int, y: int) -> (int, int) {
    if is_turn(x, y) {
        turn_left(incoming_dir(x, y))
    } else {
        incoming_dir(x, y)
    }
}

/// The offset after `(x, y)` in the spiral walk.
pub open spec fn spiral_next(x: int, y: int) -> (int, int) {
    (x + outgoing_dir(x, y).0, y + outgoing_dir(x, y).1)
}

/// The offset reached after `n` steps of the walk from `(0, 0)`.
pub open spec fn spiral_walk(n: nat) -> (int, int)
    decreases n,
{
    if n == 0 {
        (0, 0)
    } else {
        spiral_next(spiral_walk((n - 1) as nat).0, spiral_walk((n - 1) as nat).1)
    }
}

proof fn lemma_small_rings()
    ensures
        ring_start(1) == 1,
        cells_within(0) == 1,
{
    assert((2 * 1 - 1) * (2 * 1 - 1) == 1int) by (nonlinear_arith);
    assert((2 * 0 + 1) * (2 * 0 + 1) == 1int) by (nonlinear_arith);
}

/// Each side of ring `r` takes a quarter of the ring's positions.
proof fn lemma_ring_sides(x: int, y: int)
    requires
        ring(x, y) >= 1,
    ensures
        ({
            let r = ring(x, y);
            let p = ring_pos(x, y);
            &&& (x == r && y > -r) ==> 0 <= p < 2 * r
            &&& !(x == r && y > -r) && (y == r && x < r) ==> 2 * r <= p < 4 * r
            &&& !(x == r && y > -r) && !(y == r && x < r) && (x == -r && y < r) ==> 4 * r <= p < 6
                * r
            &&& !(x == r && y > -r) && !(y == r && x < r) && !(x == -r && y < r) ==> y == -r && -r
                < x <= r && 6 * r <= p < 8 * r
        }),
{
}

proof fn lemma_ring_start_step(r: int)
    requires
        r >= 1,
    ensures
        ring_start(r + 1) == ring_start(r) + 8 * r,
        cells_within(r) == ring_start(r + 1),
{
    assert((2 * r + 1) * (2 * r + 1) == (2 * r - 1) * (2 * r - 1) + 8 * r) by (nonlinear_arith);
}

/// Offsets on ring `r >= 1` take the steps `ring_start(r) .. ring_start(r + 1)`.
proof fn lemma_index_range(x: int, y: int)
    ensures
        ring(x, y) == 0 ==> spiral_index(x, y) == 0 && x == 0 && y == 0,
        ring(x, y) >= 1 ==> ring_start(ring(x, y)) <= spiral_index(x, y) < ring_start(ring(x, y) + 1),
        ring(x, y) >= 1 ==> 0 <= ring_pos(x, y) < 8 * ring(x, y),
{
    if ring(x, y) >= 1 {
        lemma_ring_start_step(ring(x, y));
    }
}

proof fn lemma_ring_start_mono(a: int, b: int)
    requires
        0 <= a < b,
    ensures
        ring_start(a + 1) <= ring_start(b),
{
    lemma_small_rings();
    if a >= 1 {
        assert(ring_start(a + 1) == (2 * a + 1) * (2 * a + 1));
        assert((2 * a + 1) * (2 * a + 1) <= (2 * b - 1) * (2 * b - 1)) by (nonlinear_arith)
            requires
                1 <= a < b,
        ;
    } else {
        assert((2 * b - 1) * (2 * b - 1) >= 1) by (nonlinear_arith)
            requires
                1 <= b,
        ;
    }
}

/// One step of the walk advances the step count by one, arrives from the
/// direction it was taken in, and never moves to an inner ring.
pub proof fn lemma_spiral_step(x: int, y: int)
    ensures
        spiral_index(spiral_next(x, y).0, spiral_next(x, y).1) == spiral_index(x, y) + 1,
        incoming_dir(spiral_next(x, y).0, spiral_next(x, y).1) == outgoing_dir(x, y),
        ring(x, y) <= ring(spiral_next(x, y).0, spiral_next(x, y).1) <= ring(x, y) + 1,
{
    let r = ring(x, y);
    lemma_small_rings();
    if r >= 1 {
        lemma_ring_start_step(r);
        if x == r && y == -r {
            assert(spiral_next(x, y) == (r + 1, -r));
            assert(ring(r + 1, -r) == r + 1);
            assert(ring_pos(r + 1, -r) == 0);
        } else if x == r && y > -r {
            if y < r {
                assert(spiral_next(x, y) == (x, y + 1));
            } else {
                assert(spiral_next(x, y) == (x - 1, y));
            }
        } else if y == r && x < r {
            if x > -r {
                assert(spiral_next(x, y) == (x - 1, y));
            } else {
                assert(spiral_next(x, y) == (x, y - 1));
            }
        } else if x == -r && y < r {
            if y > -r {
                assert(spiral_next(x, y) == (x, y - 1));
            } else {
                assert(spiral_next(x, y) == (x + 1, y));
            }
        } else {
            assert(y == -r && x < r);
            assert(spiral_next(x, y) == (x + 1, y));
        }
    } else {
        assert(spiral_next(x, y) == (1int, 0int));
        assert(ring_pos(1, 0) == 0);
    }
}

/// Distinct offsets are reached at distinct steps.
pub proof fn lemma_index_injective(x1: int, y1: int, x2: int, y2: int)
    requires
        spiral_index(x1, y1) == spiral_index(x2, y2),
    ensures
        x1 == x2 && y1 == y2,
{
    lemma_index_range(x1, y1);
    lemma_index_range(x2, y2);
    let r1 = ring(x1, y1);
    let r2 = ring(x2, y2);
    lemma_small_rings();
    if r1 == r2 && r1 >= 1 {
        assert(ring_pos(x1, y1) == ring_pos(x2, y2));
        lemma_ring_sides(x1, y1);
        lemma_ring_sides(x2, y2);
    }
    if r1 < r2 {
        lemma_ring_start_mono(r1, r2);
    } else if r2 < r1 {
        lemma_ring_start_mono(r2, r1);
    }
}

/// An offset lies within ring `radius` exactly when the walk reaches it in fewer
/// than `cells_within(radius)` steps.
pub proof fn lemma_index_bound(x: int, y: int, radius: int)
    requires
        radius >= 0,
    ensures
        (ring(x, y) <= radius) == (spiral_index(x, y) < cells_within(radius)),
        spiral_index(x, y) >= 0,
        spiral_index(x, y) <= cells_within(radius) ==> ring(x, y) <= radius + 1,
{
    lemma_index_range(x, y);
    let r = ring(x, y);
    if radius == 0 {
        lemma_small_rings();
        if r >= 2 {
            lemma_ring_start_mono(1, r);
            lemma_ring_start_step(1);
        }
    } else {
        lemma_ring_start_step(radius);
        if r <= radius {
            if r >= 1 && r < radius {
                lemma_ring_start_mono(r, radius);
            }
        } else {
            if r > radius + 1 {
                lemma_ring_start_mono(radius + 1, r);
                lemma_ring_start_step(radius + 1);
            }
        }
    }
}

/// After `n` steps the walk stands on the offset whose step count is `n`.
pub proof fn lemma_walk_index(n: nat)
    ensures
        spiral_index(spiral_walk(n).0, spiral_walk(n).1) == n,
    decreases n,
{
    if n > 0 {
        lemma_walk_index((n - 1) as nat);
        lemma_spiral_step(spiral_walk((n - 1) as nat).0, spiral_walk((n - 1) as nat).1);
    }
}

/// Spiral coverage: walked from `(0, 0)`, the spiral visits every offset within
/// ring `radius` exactly once in its first `cells_within(radius)` steps, leaves the
/// ring at the step after, and never moves to an inner ring.
pub proof fn lemma_spiral_coverage(radius: int)
    requires
        radius >= 0,
    ensures
        forall|n: nat|
            n < cells_within(radius) ==> ring(#[trigger] spiral_walk(n).0, spiral_walk(n).1)
                <= radius,
        ring(
            spiral_walk(cells_within(radius) as nat).0,
            spiral_walk(cells_within(radius) as nat).1,
        ) > radius,
        forall|i: nat, j: nat|
            i < cells_within(radius) && j < cells_within(radius) && #[trigger] spiral_walk(i)
                == #[trigger] spiral_walk(j) ==> i == j,
        forall|x: int, y: int|
            ring(x, y) <= radius ==> exists|n: nat|
                n < cells_within(radius) && #[trigger] spiral_walk(n) == (x, y),
        forall|n: nat|
            ring(#[trigger] spiral_walk(n).0, spiral_walk(n).1) <= ring(
                spiral_walk(n + 1).0,
                spiral_walk(n + 1).1,
            ),
{
    assert(cells_within(radius) >= 1) by (nonlinear_arith)
        requires
            radius >= 0,
    ;
    assert forall|n: nat| n < cells_within(radius) implies ring(
        #[trigger] spiral_walk(n).0,
        spiral_walk(n).1,
    ) <= radius by {
        lemma_walk_index(n);
        lemma_index_bound(spiral_walk(n).0, spiral_walk(n).1, radius);
    }
    let m = cells_within(radius) as nat;
    lemma_walk_index(m);
    lemma_index_bound(spiral_walk(m).0, spiral_walk(m).1, radius);
    assert forall|i: nat, j: nat|
        i < cells_within(radius) && j < cells_within(radius) && #[trigger] spiral_walk(i)
            == #[trigger] spiral_walk(j) implies i == j by {
        lemma_walk_index(i);
        lemma_walk_index(j);
    }
    assert forall|x: int, y: int| ring(x, y) <= radius implies exists|n: nat|
        n < cells_within(radius) && #[trigger] spiral_walk(n) == (x, y) by {
        lemma_index_bound(x, y, radius);
        let n = spiral_index(x, y) as nat;
        lemma_walk_index(n);
        lemma_index_injective(spiral_walk(n).0, spiral_walk(n).1, x, y);
        assert(spiral_walk(n) == (x, y));
    }
    assert forall|n: nat|
        ring(#[trigger] spiral_walk(n).0, spiral_walk(n).1) <= ring(
            spiral_walk(n + 1).0,
            spiral_walk(n + 1).1,
        ) by {
        lemma_spiral_step(spiral_walk(n).0, spiral_walk(n).1);
        assert(spiral_walk(n + 1) == spiral_next(spiral_walk(n).0, spiral_walk(n).1));
    }
}

} // verus!
