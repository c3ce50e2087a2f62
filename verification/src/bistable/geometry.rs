//! Where dots lie, and how far apart.

use vstd::prelude::*;

use super::kink::{distance, dot_place, place};
use super::symmetry::exact_arithmetic_is_order_free;
use crate::exact::exact_zero;
use crate::numerics::Arithmetic;
use crate::objects::CellView;
use crate::reals::{
    square_is_not_negative, square_root_is_unique, times, times_associates, times_commutes,
    times_distributes, times_keeps_order, times_of_difference, times_of_negation,
    times_of_one, times_trades,
    turn_keeps_length,
};
use crate::rounding::exact_arithmetic_measures_lengths;

verus! {

/// A place, by its real coordinates.
pub open spec fn point<S>(value: spec_fn(S) -> real, place: (S, S)) -> (real, real) {
    (value(place.0), value(place.1))
}

/// The square of the distance between two points.
pub open spec fn squared_distance(p: (real, real), q: (real, real)) -> real {
    times(p.0 - q.0, p.0 - q.0) + times(p.1 - q.1, p.1 - q.1)
}

/// A distance is the length that it should be.
pub proof fn distance_is_euclidean<S: Copy>(
    m: Arithmetic<S>,
    value: spec_fn(S) -> real,
    p: (S, S),
    q: (S, S),
)
    requires
        m.is_exact(value),
    ensures
        value(distance(m, p, q)) >= 0real,
        times(value(distance(m, p, q)), value(distance(m, p, q))) == squared_distance(
            point(value, p),
            point(value, q),
        ),
{
    let dx = (m.difference)(p.0, q.0);
    let dy = (m.difference)(p.1, q.1);
    square_is_not_negative(value(dx));
    square_is_not_negative(value(dy));
    let square = (m.sum)((m.power)(dx, m.num(2, 0)), (m.power)(dy, m.num(2, 0)));
    assert(value(square) >= 0real);
}

/// A distance is never below zero, it is the same from either end, and it is zero from
/// a place to itself, where a coordinate taken from itself leaves zero: that is, where
/// it is finite.
pub proof fn distance_is_a_length<S: Copy>(m: Arithmetic<S>, p: (S, S), q: (S, S))
    requires
        m.measures_lengths(),
        m.is_even_handed(),
    ensures
        !(m.exceeds)(m.zero(), distance(m, p, q)),
        distance(m, p, q) == distance(m, q, p),
        (m.difference)(p.0, p.0) == m.zero() && (m.difference)(p.1, p.1) == m.zero() ==> distance(
            m,
            p,
            p,
        ) == m.zero(),
{
}

/// In exact arithmetic a distance is a length, and zero from every place to itself.
pub proof fn exact_distance_is_a_length<S: Copy>(
    m: Arithmetic<S>,
    value: spec_fn(S) -> real,
    p: (S, S),
    q: (S, S),
)
    requires
        m.is_exact(value),
    ensures
        !(m.exceeds)(m.zero(), distance(m, p, q)),
        distance(m, p, q) == distance(m, q, p),
        distance(m, p, p) == m.zero(),
{
    exact_zero(m, value);
    exact_arithmetic_measures_lengths(m, value);
    exact_arithmetic_is_order_free(m, value);
    assert(value((m.difference)(p.0, p.0)) == value(m.zero()));
    assert(value((m.difference)(p.1, p.1)) == value(m.zero()));
    distance_is_a_length(m, p, q);
}

/// Distances between points that are equally far apart are the same.
proof fn lemma_same_distance<S: Copy>(
    m: Arithmetic<S>,
    value: spec_fn(S) -> real,
    p: (S, S),
    q: (S, S),
    p2: (S, S),
    q2: (S, S),
)
    requires
        m.is_exact(value),
        squared_distance(point(value, p), point(value, q)) == squared_distance(
            point(value, p2),
            point(value, q2),
        ),
    ensures
        distance(m, p, q) == distance(m, p2, q2),
{
    distance_is_euclidean(m, value, p, q);
    distance_is_euclidean(m, value, p2, q2);
    square_root_is_unique(value(distance(m, p, q)), value(distance(m, p2, q2)));
}

/// The dots of a cell lie rigidly: how far two of them are apart is a matter of the
/// architecture, wherever the cell is and however it is turned.
pub proof fn dots_keep_their_distances<S: Copy>(
    m: Arithmetic<S>,
    value: spec_fn(S) -> real,
    first: (S, S),
    second: (S, S),
    cell: CellView<S>,
)
    requires
        m.is_exact(value),
    ensures
        distance(m, dot_place(m, first, cell), dot_place(m, second, cell)) == distance(
            m,
            first,
            second,
        ),
{
    let p = point(value, first);
    let q = point(value, second);
    let c = value((m.cosine)(cell.rotation));
    let s = value((m.sine)(cell.rotation));
    times_of_difference(p.0, q.0, c);
    times_of_difference(p.0, q.0, s);
    times_of_difference(p.1, q.1, c);
    times_of_difference(p.1, q.1, s);
    turn_keeps_length(p.0 - q.0, p.1 - q.1, c, s);
    let p2 = point(value, dot_place(m, first, cell));
    let q2 = point(value, dot_place(m, second, cell));
    assert(p2.0 - q2.0 == times(p.0 - q.0, c) - times(p.1 - q.1, s));
    assert(p2.1 - q2.1 == times(p.1 - q.1, c) + times(p.0 - q.0, s));
    lemma_same_distance(
        m,
        value,
        dot_place(m, first, cell),
        dot_place(m, second, cell),
        first,
        second,
    );
}

/// A dot is as far from the centre of its cell as the architecture puts it.
pub proof fn dots_keep_their_distance_from_the_centre<S: Copy>(
    m: Arithmetic<S>,
    value: spec_fn(S) -> real,
    dot: (S, S),
    cell: CellView<S>,
)
    requires
        m.is_exact(value),
    ensures
        distance(m, dot_place(m, dot, cell), place(cell.position)) == distance(
            m,
            dot,
            (m.zero(), m.zero()),
        ),
{
    exact_zero(m, value);
    let p = point(value, dot);
    let c = value((m.cosine)(cell.rotation));
    let s = value((m.sine)(cell.rotation));
    turn_keeps_length(p.0, p.1, c, s);
    let p2 = point(value, dot_place(m, dot, cell));
    let centre = point(value, place(cell.position));
    assert(p2.0 - centre.0 == times(p.0, c) - times(p.1, s));
    assert(p2.1 - centre.1 == times(p.1, c) + times(p.0, s));
    lemma_same_distance(
        m,
        value,
        dot_place(m, dot, cell),
        place(cell.position),
        dot,
        (m.zero(), m.zero()),
    );
}

/// A rigid motion of the plane: a turn about the origin, by its cosine and sine, and
/// a shift.
pub struct Motion {
    pub cos: real,
    pub sin: real,
    pub dx: real,
    pub dy: real,
}

impl Motion {
    /// The cosine and the sine belong to an angle.
    pub open spec fn is_rigid(self) -> bool {
        times(self.cos, self.cos) + times(self.sin, self.sin) == 1real
    }

    /// Where the motion takes a point.
    pub open spec fn takes(self, p: (real, real)) -> (real, real) {
        (
            times(p.0, self.cos) - times(p.1, self.sin) + self.dx,
            times(p.1, self.cos) + times(p.0, self.sin) + self.dy,
        )
    }

    /// The motion takes the cell from `before` to `after`: it moves its centre, and
    /// adds its angle to the rotation.
    pub open spec fn moves<S: Copy>(
        self,
        m: Arithmetic<S>,
        value: spec_fn(S) -> real,
        before: CellView<S>,
        after: CellView<S>,
    ) -> bool {
        let c = value((m.cosine)(before.rotation));
        let s = value((m.sine)(before.rotation));
        &&& point(value, place(after.position)) == self.takes(point(value, place(before.position)))
        &&& value((m.cosine)(after.rotation)) == times(c, self.cos) - times(s, self.sin)
        &&& value((m.sine)(after.rotation)) == times(s, self.cos) + times(c, self.sin)
    }
}

/// A motion of a cell takes its dots along.
pub proof fn motion_takes_dots_along<S: Copy>(
    m: Arithmetic<S>,
    value: spec_fn(S) -> real,
    motion: Motion,
    before: CellView<S>,
    after: CellView<S>,
    dot: (S, S),
)
    requires
        m.is_exact(value),
        motion.moves(m, value, before, after),
    ensures
        point(value, dot_place(m, dot, after)) == motion.takes(
            point(value, dot_place(m, dot, before)),
        ),
{
    let x = value(dot.0);
    let y = value(dot.1);
    let c = value((m.cosine)(before.rotation));
    let s = value((m.sine)(before.rotation));
    let c2 = value((m.cosine)(after.rotation));
    let s2 = value((m.sine)(after.rotation));
    let centre = point(value, place(before.position));
    let p = point(value, dot_place(m, dot, before));
    assert(p.0 == centre.0 + times(x, c) - times(y, s));
    assert(p.1 == centre.1 + times(y, c) + times(x, s));
    lemma_times_of_sum(centre.0, times(x, c), -times(y, s), motion.cos);
    lemma_times_of_sum(centre.1, times(y, c), times(x, s), motion.sin);
    lemma_times_of_sum(centre.1, times(y, c), times(x, s), motion.cos);
    lemma_times_of_sum(centre.0, times(x, c), -times(y, s), motion.sin);
    times_of_negation(times(y, s), motion.cos);
    times_of_negation(times(y, s), motion.sin);
    times_associates(x, c, motion.cos);
    times_associates(x, c, motion.sin);
    times_associates(x, s, motion.cos);
    times_associates(x, s, motion.sin);
    times_associates(y, c, motion.cos);
    times_associates(y, c, motion.sin);
    times_associates(y, s, motion.cos);
    times_associates(y, s, motion.sin);
    let cc = times(c, motion.cos);
    let cs = times(c, motion.sin);
    let sc = times(s, motion.cos);
    let ss = times(s, motion.sin);
    times_of_difference(cc, ss, x);
    times_of_difference(cc, ss, y);
    lemma_times_of_sum(0real, sc, cs, x);
    lemma_times_of_sum(0real, sc, cs, y);
    times_commutes(0real, x);
    times_commutes(0real, y);
    times_of_one(x);
    times_of_one(y);
    times_commutes(sc + cs, x);
    times_commutes(sc + cs, y);
    times_commutes(sc, x);
    times_commutes(cs, x);
    times_commutes(sc, y);
    times_commutes(cs, y);
    assert(c2 == cc - ss);
    assert(s2 == sc + cs);
    assert(times(x, c2) == times(x, cc) - times(x, ss));
    assert(times(y, c2) == times(y, cc) - times(y, ss));
    assert(times(x, s2) == times(x, sc) + times(x, cs));
    assert(times(y, s2) == times(y, sc) + times(y, cs));
}

proof fn lemma_times_of_sum(x: real, y: real, z: real, factor: real)
    ensures
        times(x + y + z, factor) == times(x, factor) + times(y, factor) + times(z, factor),
{
    times_distributes(x + y, z, factor);
    times_distributes(x, y, factor);
}

/// A rigid motion keeps distances.
pub proof fn motion_keeps_distances<S: Copy>(
    m: Arithmetic<S>,
    value: spec_fn(S) -> real,
    motion: Motion,
    p: (S, S),
    q: (S, S),
    p2: (S, S),
    q2: (S, S),
)
    requires
        m.is_exact(value),
        motion.is_rigid(),
        point(value, p2) == motion.takes(point(value, p)),
        point(value, q2) == motion.takes(point(value, q)),
    ensures
        distance(m, p2, q2) == distance(m, p, q),
{
    let a = point(value, p);
    let b = point(value, q);
    let a2 = point(value, p2);
    let b2 = point(value, q2);
    times_of_difference(a.0, b.0, motion.cos);
    times_of_difference(a.0, b.0, motion.sin);
    times_of_difference(a.1, b.1, motion.cos);
    times_of_difference(a.1, b.1, motion.sin);
    turn_keeps_length(a.0 - b.0, a.1 - b.1, motion.cos, motion.sin);
    assert(a2.0 - b2.0 == times(a.0 - b.0, motion.cos) - times(a.1 - b.1, motion.sin));
    assert(a2.1 - b2.1 == times(a.1 - b.1, motion.cos) + times(a.0 - b.0, motion.sin));
    lemma_same_distance(m, value, p2, q2, p, q);
}

/// The point `s` times as far from the origin.
pub open spec fn scaled(p: (real, real), s: real) -> (real, real) {
    (times(p.0, s), times(p.1, s))
}

/// Where the centre of a cell and the place of a dot in it are both scaled, so is the
/// place of the dot.
pub proof fn scaling_takes_dots_along<S: Copy>(
    m: Arithmetic<S>,
    value: spec_fn(S) -> real,
    s: real,
    before: CellView<S>,
    after: CellView<S>,
    dot: (S, S),
    dot2: (S, S),
)
    requires
        m.is_exact(value),
        after.rotation == before.rotation,
        point(value, place(after.position)) == scaled(point(value, place(before.position)), s),
        point(value, dot2) == scaled(point(value, dot), s),
    ensures
        point(value, dot_place(m, dot2, after)) == scaled(
            point(value, dot_place(m, dot, before)),
            s,
        ),
{
    let x = value(dot.0);
    let y = value(dot.1);
    let cos = value((m.cosine)(before.rotation));
    let sin = value((m.sine)(before.rotation));
    let centre = point(value, place(before.position));
    lemma_times_of_sum(centre.0, times(x, cos), -times(y, sin), s);
    lemma_times_of_sum(centre.1, times(y, cos), times(x, sin), s);
    times_of_negation(times(y, sin), s);
    lemma_scale_moves_in(x, cos, s);
    lemma_scale_moves_in(x, sin, s);
    lemma_scale_moves_in(y, cos, s);
    lemma_scale_moves_in(y, sin, s);
}

proof fn lemma_scale_moves_in(x: real, y: real, s: real)
    ensures
        times(times(x, y), s) == times(times(x, s), y),
{
    times_associates(x, y, s);
    times_commutes(y, s);
    times_associates(x, s, y);
}

/// Between scaled places the distance is scaled.
pub proof fn scaling_scales_distances<S: Copy>(
    m: Arithmetic<S>,
    value: spec_fn(S) -> real,
    s: real,
    p: (S, S),
    q: (S, S),
    p2: (S, S),
    q2: (S, S),
)
    requires
        m.is_exact(value),
        s > 0real,
        point(value, p2) == scaled(point(value, p), s),
        point(value, q2) == scaled(point(value, q), s),
    ensures
        value(distance(m, p2, q2)) == times(value(distance(m, p, q)), s),
{
    let a = point(value, p);
    let b = point(value, q);
    let d = value(distance(m, p, q));
    let d2 = value(distance(m, p2, q2));
    distance_is_euclidean(m, value, p, q);
    distance_is_euclidean(m, value, p2, q2);
    times_of_difference(a.0, b.0, s);
    times_of_difference(a.1, b.1, s);
    let u = a.0 - b.0;
    let v = a.1 - b.1;
    times_trades(u, s, u, s);
    times_trades(v, s, v, s);
    times_trades(d, s, d, s);
    times_distributes(times(u, u), times(v, v), times(s, s));
    times_keeps_order(0real, d, s);
    times_commutes(0real, s);
    times_of_one(s);
    square_root_is_unique(d2, times(d, s));
}

} // verus!
