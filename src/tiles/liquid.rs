//! Liquid cells and the stepper that moves liquid between them.
//!
//! Amounts and velocities are fixed-point numbers: `UNIT` stands for 1.0.
use vstd::prelude::*;

use super::coord::{chunk_of, inner_of, lemma_split_combine};
use super::generic_tiles::{
    cell_index, in_i32, key_of, lemma_cell_index, lemma_chunk_in_range, lemma_index_split,
    lemma_key, GenericTiles, Tile,
};
use super::sort_dedup::{
    has_pair_inner, has_pair_points, lemma_has_pair_inner_push, lemma_has_pair_points_push,
    pair_lt_points, sort_dedup_points, strictly_sorted_points,
};
use super::OptTileIndex;

verus! {

/// The fixed-point value of 1.0.
pub const UNIT: u64 = 10000;

/// A cell holding at most this amount (0.01) is empty.
pub const EMPTY_THRESHOLD: u64 = 100;

/// The downward pull added to the force toward Down, and taken from the
/// force toward Up (0.1).
pub const GRAVITY: u64 = 1000;

/// A liquid cell: an amount and an outward velocity toward each of the four
/// directions, indexed as `Direction::index` gives.
#[derive(Clone, Copy, Debug, PartialEq, Eq)]
pub struct LiquidTile {
    pub amount: u64,
    pub velocity: [u64; 4],
}

impl LiquidTile {
    /// A cell holding `amount`, at rest.
    pub fn new(amount: u64) -> (r: Self)
        ensures
            r.amount == amount,
            r.velocity@ == seq![0u64, 0u64, 0u64, 0u64],
    {
        LiquidTile { amount, velocity: [0, 0, 0, 0] }
    }

    pub open spec fn spec_is_empty(&self) -> bool {
        self.amount <= EMPTY_THRESHOLD
    }

    /// Whether the cell holds no more than the empty threshold.
    pub fn is_empty(&self) -> (r: bool)
        ensures
            r == self.spec_is_empty(),
    {
        self.amount <= EMPTY_THRESHOLD
    }
}

impl Tile for LiquidTile {
    open spec fn spec_default() -> Self {
        LiquidTile { amount: 0, velocity: [0, 0, 0, 0] }
    }

    open spec fn spec_needs_sprite(&self) -> bool {
        !self.spec_is_empty()
    }

    fn default_tile() -> (r: Self) {
        LiquidTile { amount: 0, velocity: [0, 0, 0, 0] }
    }

    fn needs_sprite(&self) -> (r: bool) {
        !self.is_empty()
    }
}

/// The four cardinal directions, in the order of a velocity's components.
#[derive(Clone, Copy, Debug, PartialEq, Eq)]
pub enum Direction {
    Right,
    Down,
    Left,
    Up,
}

pub open spec fn spec_direction(i: int) -> Direction {
    if i == 0 {
        Direction::Right
    } else if i == 1 {
        Direction::Down
    } else if i == 2 {
        Direction::Left
    } else {
        Direction::Up
    }
}

impl Direction {
    pub open spec fn spec_index(self) -> int {
        match self {
            Direction::Right => 0,
            Direction::Down => 1,
            Direction::Left => 2,
            Direction::Up => 3,
        }
    }

    pub open spec fn spec_offset(self) -> (int, int) {
        match self {
            Direction::Right => (1, 0),
            Direction::Down => (0, -1),
            Direction::Left => (-1, 0),
            Direction::Up => (0, 1),
        }
    }

    /// The four directions: Right, Down, Left, Up.
    pub fn all() -> (r: [Direction; 4])
        ensures
            forall|i: int| 0 <= i < 4 ==> #[trigger] r[i] == spec_direction(i),
    {
        [Direction::Right, Direction::Down, Direction::Left, Direction::Up]
    }

    /// The component of a velocity that belongs to this direction.
    pub fn index(self) -> (r: usize)
        ensures
            r == self.spec_index(),
    {
        match self {
            Direction::Right => 0,
            Direction::Down => 1,
            Direction::Left => 2,
            Direction::Up => 3,
        }
    }

    /// The step from a point to its neighbor in this direction.
    pub fn offset(self) -> (r: [i32; 2])
        ensures
            r[0] == self.spec_offset().0,
            r[1] == self.spec_offset().1,
    {
        match self {
            Direction::Right => [1, 0],
            Direction::Down => [0, -1],
            Direction::Left => [-1, 0],
            Direction::Up => [0, 1],
        }
    }

    /// The results of `f` on Right, Down, Left and Up, in that order.
    pub fn map<R, F: Fn(Direction) -> R>(f: F) -> (r: [R; 4])
        requires
            forall|d: Direction| #[trigger] f.requires((d,)),
        ensures
            forall|i: int| 0 <= i < 4 ==> f.ensures((spec_direction(i),), #[trigger] r[i]),
    {
        [f(Direction::Right), f(Direction::Down), f(Direction::Left), f(Direction::Up)]
    }

    /// The results of `f` on each neighbor of `start` with its direction,
    /// in the order Right, Down, Left, Up.
    pub fn map_offset<R, F: Fn([i32; 2], Direction) -> R>(start: [i32; 2], f: F) -> (r: [R; 4])
        requires
            i32::MIN < start[0] < i32::MAX,
            i32::MIN < start[1] < i32::MAX,
            forall|p: [i32; 2], d: Direction| #[trigger] f.requires((p, d)),
        ensures
            forall|i: int|
                0 <= i < 4 ==> exists|p: [i32; 2]|
                    p[0] == start[0] + spec_direction(i).spec_offset().0 && p[1] == start[1]
                        + spec_direction(i).spec_offset().1 && f.ensures(
                        (p, spec_direction(i)),
                        #[trigger] r[i],
                    ),
    {
        let right = [start[0] + 1, start[1]];
        let down = [start[0], start[1] - 1];
        let left = [start[0] - 1, start[1]];
        let up = [start[0], start[1] + 1];
        let r = [
            f(right, Direction::Right),
            f(down, Direction::Down),
            f(left, Direction::Left),
            f(up, Direction::Up),
        ];
        proof {
            assert(f.ensures((right, spec_direction(0)), r[0]));
            assert(f.ensures((down, spec_direction(1)), r[1]));
            assert(f.ensures((left, spec_direction(2)), r[2]));
            assert(f.ensures((up, spec_direction(3)), r[3]));
        }
        r
    }

    /// Calls `f` on Right, Down, Left and Up, in that order.
    pub fn for_each<F: Fn(Direction)>(f: F)
        requires
            forall|d: Direction| #[trigger] f.requires((d,)),
        ensures
            forall|i: int| 0 <= i < 4 ==> #[trigger] f.ensures((spec_direction(i),), ()),
    {
        f(Direction::Right);
        f(Direction::Down);
        f(Direction::Left);
        f(Direction::Up);
    }

    /// Calls `f` on each neighbor of `start` with its direction, in the
    /// order Right, Down, Left, Up.
    pub fn for_each_offset<F: Fn([i32; 2], Direction)>(start: [i32; 2], f: F)
        requires
            i32::MIN < start[0] < i32::MAX,
            i32::MIN < start[1] < i32::MAX,
            forall|p: [i32; 2], d: Direction| #[trigger] f.requires((p, d)),
        ensures
            forall|i: int|
                #![trigger spec_direction(i)]
                0 <= i < 4 ==> exists|p: [i32; 2]|
                    p[0] == start[0] + spec_direction(i).spec_offset().0 && p[1] == start[1]
                        + spec_direction(i).spec_offset().1 && #[trigger] f.ensures(
                        (p, spec_direction(i)),
                        (),
                    ),
    {
        let right = [start[0] + 1, start[1]];
        let down = [start[0], start[1] - 1];
        let left = [start[0] - 1, start[1]];
        let up = [start[0], start[1] + 1];
        f(right, Direction::Right);
        f(down, Direction::Down);
        f(left, Direction::Left);
        f(up, Direction::Up);
        proof {
            assert(f.ensures((right, spec_direction(0)), ()));
            assert(f.ensures((down, spec_direction(1)), ()));
            assert(f.ensures((left, spec_direction(2)), ()));
            assert(f.ensures((up, spec_direction(3)), ()));
        }
    }

    /// The neighbor of `start` in this direction; `None` where it falls
    /// outside the `i32` range.
    pub fn neighbor(self, start: &[i32; 2]) -> (r: Option<[i32; 2]>)
        ensures
            match r {
                Some(p) => p[0] == start[0] + self.spec_offset().0 && p[1] == start[1]
                    + self.spec_offset().1,
                None => !in_i32(start[0] + self.spec_offset().0) || !in_i32(
                    start[1] + self.spec_offset().1,
                ),
            },
    {
        let o = self.offset();
        let x = start[0] as i64 + o[0] as i64;
        let y = start[1] as i64 + o[1] as i64;
        if x < i32::MIN as i64 || x > i32::MAX as i64 || y < i32::MIN as i64 || y
            > i32::MAX as i64 {
            None
        } else {
            Some([x as i32, y as i32])
        }
    }
}


/// The gravity bias on the force toward direction `d`.
pub open spec fn bias(d: int) -> int {
    if d == 1 {
        GRAVITY as int
    } else if d == 3 {
        -(GRAVITY as int)
    } else {
        0
    }
}

/// The outward force toward a neighbor: the difference in amount plus the
/// gravity bias, and never below zero.
pub open spec fn push_force(amount: int, neighbor: int, d: int) -> int {
    let f = amount - neighbor + bias(d);
    if f > 0 {
        f
    } else {
        0
    }
}

/// A velocity component after one tick: damped by 9/10, then accelerated by
/// the force over `dt` (both fixed point), and zero toward a solid cell.
/// It saturates at `u64::MAX`.
pub open spec fn next_velocity(v: int, amount: int, neighbor: int, d: int, dt: int, blocked: bool) -> int {
    if blocked {
        0
    } else {
        let w = v * 9 / 10 + push_force(amount, neighbor, d) * dt / (UNIT as int);
        if w > u64::MAX {
            u64::MAX as int
        } else {
            w
        }
    }
}

/// The part of `rate` that leaves toward a component with velocity `v`, out
/// of a total velocity `total`; nothing when the total is zero.
pub open spec fn flow_share(rate: int, v: int, total: int) -> int {
    if total == 0 {
        0
    } else {
        rate * v / total
    }
}

pub open spec fn sum4(a: [u64; 4]) -> int {
    a[0] + a[1] + a[2] + a[3]
}

/// How much leaves a cell holding `amount` with velocity `vel` in one tick:
/// the total velocity, but never more than the amount.
pub open spec fn flow_rate(amount: int, vel: [u64; 4]) -> int {
    if sum4(vel) < amount {
        sum4(vel)
    } else {
        amount
    }
}

/// Shares of a rate in proportion to four velocity components never add up
/// to more than the rate.
pub proof fn lemma_shares_bounded(rate: int, v0: int, v1: int, v2: int, v3: int)
    requires
        rate >= 0,
        v0 >= 0,
        v1 >= 0,
        v2 >= 0,
        v3 >= 0,
    ensures
        flow_share(rate, v0, v0 + v1 + v2 + v3) + flow_share(rate, v1, v0 + v1 + v2 + v3)
            + flow_share(rate, v2, v0 + v1 + v2 + v3) + flow_share(rate, v3, v0 + v1 + v2 + v3)
            <= rate,
        0 <= flow_share(rate, v0, v0 + v1 + v2 + v3),
        0 <= flow_share(rate, v1, v0 + v1 + v2 + v3),
        0 <= flow_share(rate, v2, v0 + v1 + v2 + v3),
        0 <= flow_share(rate, v3, v0 + v1 + v2 + v3),
{
    let t = v0 + v1 + v2 + v3;
    if t > 0 {
        vstd::arithmetic::div_mod::lemma_fundamental_div_mod(rate * v0, t);
        vstd::arithmetic::div_mod::lemma_fundamental_div_mod(rate * v1, t);
        vstd::arithmetic::div_mod::lemma_fundamental_div_mod(rate * v2, t);
        vstd::arithmetic::div_mod::lemma_fundamental_div_mod(rate * v3, t);
        let q0 = rate * v0 / t;
        let q1 = rate * v1 / t;
        let q2 = rate * v2 / t;
        let q3 = rate * v3 / t;
        assert(0 <= rate * v0 && 0 <= rate * v1 && 0 <= rate * v2 && 0 <= rate * v3)
            by (nonlinear_arith)
            requires
                rate >= 0,
                v0 >= 0,
                v1 >= 0,
                v2 >= 0,
                v3 >= 0,
        ;
        vstd::arithmetic::div_mod::lemma_div_pos_is_pos(rate * v0, t);
        vstd::arithmetic::div_mod::lemma_div_pos_is_pos(rate * v1, t);
        vstd::arithmetic::div_mod::lemma_div_pos_is_pos(rate * v2, t);
        vstd::arithmetic::div_mod::lemma_div_pos_is_pos(rate * v3, t);
        assert(t * q0 + t * q1 + t * q2 + t * q3 <= rate * v0 + rate * v1 + rate * v2 + rate * v3);
        assert(q0 + q1 + q2 + q3 <= rate) by (nonlinear_arith)
            requires
                t > 0,
                t == v0 + v1 + v2 + v3,
                t * q0 + t * q1 + t * q2 + t * q3 <= rate * v0 + rate * v1 + rate * v2 + rate
                    * v3,
        ;
    }
}

fn component_velocity(v: u64, amount: u64, neighbor: u64, d: usize, dt: u32, blocked: bool) -> (r: u64)
    requires
        d < 4,
    ensures
        r == next_velocity(v as int, amount as int, neighbor as int, d as int, dt as int, blocked),
{
    if blocked {
        return 0;
    }
    let damped: u128 = v as u128 * 9 / 10;
    let b: i128 = if d == 1 {
        GRAVITY as i128
    } else if d == 3 {
        -(GRAVITY as i128)
    } else {
        0
    };
    let f: i128 = amount as i128 - neighbor as i128 + b;
    let force: u128 = if f > 0 {
        f as u128
    } else {
        0
    };
    proof {
        assert(force * dt <= (u64::MAX + 1000) * u32::MAX) by (nonlinear_arith)
            requires
                force <= u64::MAX + 1000,
                dt <= u32::MAX,
        ;
    }
    let accel: u128 = force * dt as u128 / UNIT as u128;
    let w: u128 = damped + accel;
    if w > u64::MAX as u128 {
        u64::MAX
    } else {
        w as u64
    }
}

fn share(rate: u64, v: u64, total: u128) -> (r: u64)
    requires
        rate <= total || total == 0,
        v <= total,
    ensures
        r == flow_share(rate as int, v as int, total as int),
        r <= rate,
{
    if total == 0 {
        0
    } else {
        proof {
            assert(rate * v <= rate * total) by (nonlinear_arith)
                requires
                    v <= total,
            ;
            assert(rate * v <= u128::MAX) by (nonlinear_arith)
                requires
                    rate <= 0xffff_ffff_ffff_ffffu64,
                    v <= 0xffff_ffff_ffff_ffffu64,
            ;
            vstd::arithmetic::div_mod::lemma_div_is_ordered(
                rate as int * v as int,
                rate as int * total as int,
                total as int,
            );
            vstd::arithmetic::mul::lemma_mul_is_commutative(rate as int, total as int);
            vstd::arithmetic::div_mod::lemma_div_multiples_vanish(rate as int, total as int);
        }
        (rate as u128 * v as u128 / total) as u64
    }
}

impl LiquidTile {
    /// One tick of this cell, given the amounts of its four neighbors and
    /// whether each holds a solid cell: the new velocity and the amount that
    /// flows toward each neighbor. An empty cell keeps its velocity and
    /// sends nothing.
    pub fn flow(&self, neighbors: &[u64; 4], blocked: &[bool; 4], dt: u32) -> (r: ([u64; 4], [u64; 4]))
        ensures
            self.spec_is_empty() ==> r.0 == self.velocity && r.1@ == seq![0u64, 0u64, 0u64, 0u64],
            !self.spec_is_empty() ==> forall|d: int|
                0 <= d < 4 ==> #[trigger] r.0[d] == next_velocity(
                    self.velocity[d] as int,
                    self.amount as int,
                    neighbors[d] as int,
                    d,
                    dt as int,
                    blocked[d],
                ),
            !self.spec_is_empty() ==> forall|d: int|
                0 <= d < 4 ==> #[trigger] r.1[d] == flow_share(
                    flow_rate(self.amount as int, r.0),
                    r.0[d] as int,
                    sum4(r.0),
                ),
            sum4(r.1) <= self.amount,
            forall|d: int| 0 <= d < 4 && blocked[d] ==> #[trigger] r.1[d] == 0,
            !self.spec_is_empty() ==> forall|d: int| 0 <= d < 4 && blocked[d] ==> #[trigger] r.0[d] == 0,
    {
        if self.is_empty() {
            return (self.velocity, [0, 0, 0, 0]);
        }
        let a = self.amount;
        let v0 = component_velocity(self.velocity[0], a, neighbors[0], 0, dt, blocked[0]);
        let v1 = component_velocity(self.velocity[1], a, neighbors[1], 1, dt, blocked[1]);
        let v2 = component_velocity(self.velocity[2], a, neighbors[2], 2, dt, blocked[2]);
        let v3 = component_velocity(self.velocity[3], a, neighbors[3], 3, dt, blocked[3]);
        let total: u128 = v0 as u128 + v1 as u128 + v2 as u128 + v3 as u128;
        let rate: u64 = if total < a as u128 {
            total as u64
        } else {
            a
        };
        let vel = [v0, v1, v2, v3];
        proof {
            lemma_shares_bounded(rate as int, v0 as int, v1 as int, v2 as int, v3 as int);
        }
        let flows = [share(rate, v0, total), share(rate, v1, total), share(rate, v2, total), share(rate, v3, total)];
        (vel, flows)
    }
}


pub open spec fn in_i64(v: int) -> bool {
    i64::MIN <= v <= i64::MAX
}

/// The neighbor of `(x, y)` toward direction index `d`.
pub open spec fn neighbor_of(x: int, y: int, d: int) -> (int, int) {
    (x + spec_direction(d).spec_offset().0, y + spec_direction(d).spec_offset().1)
}

/// The liquid amount at `(x, y)`; zero where no cell exists.
pub open spec fn amount_at(liquid: GenericTiles<LiquidTile>, x: int, y: int) -> int {
    match liquid.cell(x, y) {
        Some(t) => t.amount as int,
        None => 0,
    }
}

/// Whether `(x, y)` holds a solid cell with a visual index, or lies outside
/// the `i32` range.
pub open spec fn is_blocked(solid: GenericTiles<OptTileIndex>, x: int, y: int) -> bool {
    if in_i32(x) && in_i32(y) {
        match solid.cell(x, y) {
            Some(t) => t.0 is Some,
            None => false,
        }
    } else {
        true
    }
}

/// Whether `(x, y)` holds a liquid cell above the empty threshold.
pub open spec fn active_at(g: GenericTiles<LiquidTile>, x: int, y: int) -> bool {
    &&& in_i32(x)
    &&& in_i32(y)
    &&& g.cell(x, y) is Some
    &&& !g.cell(x, y).unwrap().spec_is_empty()
}

/// The amount at `point` and whether a solid cell blocks it, for a neighbor
/// that may fall outside the `i32` range (then it counts as blocked).
fn neighbor_state(
    liquid: &GenericTiles<LiquidTile>,
    solid: &GenericTiles<OptTileIndex>,
    point: Option<[i32; 2]>,
) -> (r: (u64, bool))
    requires
        liquid.wf(),
        solid.wf(),
    ensures
        match point {
            Some(q) => {
                &&& r.0 == (match liquid.cell(q[0] as int, q[1] as int) {
                    Some(t) => t.amount,
                    None => 0,
                })
                &&& r.1 == (match solid.cell(q[0] as int, q[1] as int) {
                    Some(t) => t.0 is Some,
                    None => false,
                })
            },
            None => r.1,
        },
{
    match point {
        Some(q) => {
            let amount = match liquid.get(&q) {
                Some(t) => t.amount,
                None => 0,
            };
            let blocked = match solid.get(&q) {
                Some(t) => t.needs_sprite(),
                None => false,
            };
            (amount, blocked)
        },
        None => (0, true),
    }
}

/// The cell at `(x, y)`; the default cell where none exists.
pub open spec fn tile_at(g: GenericTiles<LiquidTile>, x: int, y: int) -> LiquidTile {
    match g.cell(x, y) {
        Some(t) => t,
        None => <LiquidTile as Tile>::spec_default(),
    }
}

/// The velocity toward direction `d` that the cell at `(x, y)` has after
/// one tick when it is above the empty threshold.
pub open spec fn vel_at(g: GenericTiles<LiquidTile>, solid: GenericTiles<OptTileIndex>, x: int, y: int, d: int, dt: int) -> int {
    let t = tile_at(g, x, y);
    let (nx, ny) = neighbor_of(x, y, d);
    next_velocity(t.velocity[d] as int, t.amount as int, amount_at(g, nx, ny), d, dt, is_blocked(solid, nx, ny))
}

pub open spec fn vel_sum(g: GenericTiles<LiquidTile>, solid: GenericTiles<OptTileIndex>, x: int, y: int, dt: int) -> int {
    vel_at(g, solid, x, y, 0, dt) + vel_at(g, solid, x, y, 1, dt) + vel_at(g, solid, x, y, 2, dt)
        + vel_at(g, solid, x, y, 3, dt)
}

/// What the cell at `(x, y)` sends toward direction `d` in one tick: its
/// share of the flow rate when it is above the empty threshold, else nothing.
pub open spec fn flow_at(g: GenericTiles<LiquidTile>, solid: GenericTiles<OptTileIndex>, x: int, y: int, d: int, dt: int) -> int {
    if active_at(g, x, y) {
        let a = tile_at(g, x, y).amount as int;
        let total = vel_sum(g, solid, x, y, dt);
        flow_share(if total < a { total } else { a }, vel_at(g, solid, x, y, d, dt), total)
    } else {
        0
    }
}

/// Everything the cell at `(x, y)` sends in one tick.
pub open spec fn outflow_at(g: GenericTiles<LiquidTile>, solid: GenericTiles<OptTileIndex>, x: int, y: int, dt: int) -> int {
    flow_at(g, solid, x, y, 0, dt) + flow_at(g, solid, x, y, 1, dt) + flow_at(g, solid, x, y, 2, dt)
        + flow_at(g, solid, x, y, 3, dt)
}

/// The direction index opposite to `d`.
pub open spec fn opposite(d: int) -> int {
    if d < 2 {
        d + 2
    } else {
        d - 2
    }
}

/// What flows toward direction `opposite(d)` from the neighbor of `(x, y)`
/// in direction `d`, that is, into `(x, y)`.
pub open spec fn inflow_from(g: GenericTiles<LiquidTile>, solid: GenericTiles<OptTileIndex>, x: int, y: int, d: int, dt: int) -> int {
    flow_at(g, solid, neighbor_of(x, y, d).0, neighbor_of(x, y, d).1, opposite(d), dt)
}

/// Everything that flows into `(x, y)` in one tick.
pub open spec fn inflow_at(g: GenericTiles<LiquidTile>, solid: GenericTiles<OptTileIndex>, x: int, y: int, dt: int) -> int {
    inflow_from(g, solid, x, y, 0, dt) + inflow_from(g, solid, x, y, 1, dt) + inflow_from(g, solid, x, y, 2, dt)
        + inflow_from(g, solid, x, y, 3, dt)
}

/// The amount at `(x, y)` after one tick: what it held, less what it sends,
/// plus what it receives, saturating at `u64::MAX`.
pub open spec fn next_amount(g: GenericTiles<LiquidTile>, solid: GenericTiles<OptTileIndex>, x: int, y: int, dt: int) -> int {
    let a = tile_at(g, x, y).amount - outflow_at(g, solid, x, y, dt) + inflow_at(g, solid, x, y, dt);
    if a > u64::MAX {
        u64::MAX as int
    } else {
        a
    }
}

/// The velocity toward `d` at `(x, y)` after one tick; unchanged for a cell
/// at or below the empty threshold.
pub open spec fn next_vel(g: GenericTiles<LiquidTile>, solid: GenericTiles<OptTileIndex>, x: int, y: int, d: int, dt: int) -> int {
    if active_at(g, x, y) {
        vel_at(g, solid, x, y, d, dt)
    } else {
        tile_at(g, x, y).velocity[d] as int
    }
}

/// Whether `t` is the cell at `(x, y)` one tick after state `g`.
pub open spec fn is_next(g: GenericTiles<LiquidTile>, solid: GenericTiles<OptTileIndex>, dt: int, x: int, y: int, t: LiquidTile) -> bool {
    &&& t.amount == next_amount(g, solid, x, y, dt)
    &&& forall|d: int| 0 <= d < 4 ==> #[trigger] t.velocity[d] == next_vel(g, solid, x, y, d, dt)
}

/// Whether point `(x, y)` is recorded as modified: its chunk coordinate in
/// the grid's list and its inner coordinate in its chunk's list.
pub open spec fn written_in(g: GenericTiles<LiquidTile>, x: int, y: int) -> bool {
    let n = g.spec_chunk_size() as int;
    &&& has_pair_points(g.modified_seq(), chunk_of(x, n), chunk_of(y, n))
    &&& has_pair_inner(g.chunk_modified(chunk_of(x, n), chunk_of(y, n)), inner_of(x, n), inner_of(y, n))
}

/// The new velocity and the outgoing flows of the cell at `point` (none
/// for a point outside the `i32` range), read from the grids as they are.
fn cell_flow(
    liquid: &GenericTiles<LiquidTile>,
    solid: &GenericTiles<OptTileIndex>,
    point: Option<[i32; 2]>,
    dt: u32,
) -> (r: ([u64; 4], [u64; 4]))
    requires
        liquid.wf(),
        solid.wf(),
    ensures
        match point {
            Some(p) => {
                &&& forall|d: int| 0 <= d < 4 ==> #[trigger] r.1[d] == flow_at(*liquid, *solid, p[0] as int, p[1] as int, d, dt as int)
                &&& forall|d: int| 0 <= d < 4 ==> #[trigger] r.0[d] == next_vel(*liquid, *solid, p[0] as int, p[1] as int, d, dt as int)
                &&& sum4(r.1) <= tile_at(*liquid, p[0] as int, p[1] as int).amount
            },
            None => forall|d: int| 0 <= d < 4 ==> #[trigger] r.1[d] == 0,
        },
{
    match point {
        None => ([0, 0, 0, 0], [0, 0, 0, 0]),
        Some(p) => {
            let tile = match liquid.get(&p) {
                Some(t) => *t,
                None => LiquidTile::default_tile(),
            };
            let right = neighbor_state(liquid, solid, Direction::Right.neighbor(&p));
            let down = neighbor_state(liquid, solid, Direction::Down.neighbor(&p));
            let left = neighbor_state(liquid, solid, Direction::Left.neighbor(&p));
            let up = neighbor_state(liquid, solid, Direction::Up.neighbor(&p));
            let neighbors = [right.0, down.0, left.0, up.0];
            let blocked = [right.1, down.1, left.1, up.1];
            let x = Ghost(p[0] as int);
            let y = Ghost(p[1] as int);
            proof {
                assert forall|d: int| 0 <= d < 4 implies #[trigger] blocked[d] == is_blocked(
                    *solid,
                    neighbor_of(x@, y@, d).0,
                    neighbor_of(x@, y@, d).1,
                ) && (!blocked[d] ==> neighbors[d] == amount_at(
                    *liquid,
                    neighbor_of(x@, y@, d).0,
                    neighbor_of(x@, y@, d).1,
                )) by {
                    // one case per direction, so that each neighbor's offset unfolds
                    if d == 0 {
                    } else if d == 1 {
                    } else if d == 2 {
                    } else {
                    }
                }
            }
            let f = tile.flow(&neighbors, &blocked, dt);
            proof {
                let vel = f.0;
                assert(tile == tile_at(*liquid, x@, y@));
                if !tile.spec_is_empty() {
                    assert forall|d: int| 0 <= d < 4 implies #[trigger] vel[d] == vel_at(*liquid, *solid, x@, y@, d, dt as int) by {
                        assert(blocked[d] == is_blocked(*solid, neighbor_of(x@, y@, d).0, neighbor_of(x@, y@, d).1));
                    }
                    assert(vel[0] == vel_at(*liquid, *solid, x@, y@, 0, dt as int));
                    assert(vel[1] == vel_at(*liquid, *solid, x@, y@, 1, dt as int));
                    assert(vel[2] == vel_at(*liquid, *solid, x@, y@, 2, dt as int));
                    assert(vel[3] == vel_at(*liquid, *solid, x@, y@, 3, dt as int));
                    assert(sum4(vel) == vel_sum(*liquid, *solid, x@, y@, dt as int));
                }
            }
            f
        },
    }
}

/// The cell at `point` one tick from now, read from the grids as they are.
fn next_cell(
    liquid: &GenericTiles<LiquidTile>,
    solid: &GenericTiles<OptTileIndex>,
    point: [i32; 2],
    dt: u32,
) -> (r: LiquidTile)
    requires
        liquid.wf(),
        solid.wf(),
    ensures
        is_next(*liquid, *solid, dt as int, point[0] as int, point[1] as int, r),
{
    let tile = match liquid.get(&point) {
        Some(t) => *t,
        None => LiquidTile::default_tile(),
    };
    let own = cell_flow(liquid, solid, Some(point), dt);
    let from_right = cell_flow(liquid, solid, Direction::Right.neighbor(&point), dt).1[2];
    let from_below = cell_flow(liquid, solid, Direction::Down.neighbor(&point), dt).1[3];
    let from_left = cell_flow(liquid, solid, Direction::Left.neighbor(&point), dt).1[0];
    let from_above = cell_flow(liquid, solid, Direction::Up.neighbor(&point), dt).1[1];
    let x = Ghost(point[0] as int);
    let y = Ghost(point[1] as int);
    proof {
        assert(tile == tile_at(*liquid, x@, y@));
        assert(from_right == inflow_from(*liquid, *solid, x@, y@, 0, dt as int));
        assert(from_below == inflow_from(*liquid, *solid, x@, y@, 1, dt as int));
        assert(from_left == inflow_from(*liquid, *solid, x@, y@, 2, dt as int));
        assert(from_above == inflow_from(*liquid, *solid, x@, y@, 3, dt as int));
    }
    let outflow: u64 = own.1[0] + own.1[1] + own.1[2] + own.1[3];
    let inflow: u128 = from_right as u128 + from_below as u128 + from_left as u128 + from_above as u128;
    let kept: u64 = tile.amount - outflow;
    let total: u128 = kept as u128 + inflow;
    let amount: u64 = if total > u64::MAX as u128 {
        u64::MAX
    } else {
        total as u64
    };
    LiquidTile { amount, velocity: own.0 }
}

/// A pair found in a list is found in any list that begins with it.
proof fn lemma_prefix_keeps_pair(a: Seq<[i32; 2]>, b: Seq<[i32; 2]>, x: int, y: int)
    requires
        a.len() <= b.len(),
        forall|k: int| 0 <= k < a.len() ==> #[trigger] b[k] == a[k],
    ensures
        has_pair_points(a, x, y) ==> has_pair_points(b, x, y),
{
    if has_pair_points(a, x, y) {
        let k = choose|k: int| 0 <= k < a.len() && #[trigger] a[k][0] == x && a[k][1] == y;
        assert(b[k] == a[k]);
    }
}

/// Stepping over position `i` of the list of pending points loses only the
/// point at `i`.
proof fn lemma_pending_step(t: Seq<[i32; 2]>, i: int, x: int, y: int)
    requires
        0 <= i < t.len(),
        !(x == t[i][0] && y == t[i][1]),
    ensures
        has_pair_points(t.subrange(i, t.len() as int), x, y) ==> has_pair_points(t.subrange(i + 1, t.len() as int), x, y),
{
    let s = t.subrange(i, t.len() as int);
    if has_pair_points(s, x, y) {
        let k = choose|k: int| 0 <= k < s.len() && #[trigger] s[k][0] == x && s[k][1] == y;
        assert(k != 0);
        assert(t.subrange(i + 1, t.len() as int)[k - 1] == s[k]);
    }
}

/// Moving a neighbor back toward where it came from gives the point again.
proof fn lemma_neighbor_back(x: int, y: int, d: int)
    requires
        0 <= d < 4,
    ensures
        0 <= opposite(d) < 4,
        neighbor_of(neighbor_of(x, y, d).0, neighbor_of(x, y, d).1, opposite(d)) == (x, y),
{
}

/// A cell that did not exist, is not above the threshold and receives
/// nothing is, after one tick, the default cell.
proof fn lemma_untouched_is_next(g: GenericTiles<LiquidTile>, solid: GenericTiles<OptTileIndex>, dt: int, x: int, y: int)
    requires
        g.cell(x, y) is None,
        inflow_at(g, solid, x, y, dt) == 0,
    ensures
        is_next(g, solid, dt, x, y, <LiquidTile as Tile>::spec_default()),
{
}

/// A cell at or below the threshold that receives nothing keeps its value.
proof fn lemma_still_is_next(g: GenericTiles<LiquidTile>, solid: GenericTiles<OptTileIndex>, dt: int, x: int, y: int)
    requires
        g.cell(x, y) is Some,
        !active_at(g, x, y),
        inflow_at(g, solid, x, y, dt) == 0,
    ensures
        is_next(g, solid, dt, x, y, g.cell(x, y).unwrap()),
{
}

/// Points above the threshold, and points that receive liquid, are among the
/// targets.
proof fn lemma_targets_complete(
    g: GenericTiles<LiquidTile>,
    solid: GenericTiles<OptTileIndex>,
    dt: int,
    pts: Seq<[i32; 2]>,
    targets: Seq<[i32; 2]>,
)
    requires
        forall|x: int, y: int| #[trigger] active_at(g, x, y) ==> has_pair_points(pts, x, y),
        forall|m: int| 0 <= m < pts.len() ==> has_pair_points(targets, (#[trigger] pts[m])[0] as int, pts[m][1] as int),
        forall|m: int, d: int| 0 <= m < pts.len() && 0 <= d < 4 && flow_at(g, solid, (#[trigger] pts[m])[0] as int, pts[m][1] as int, d, dt) > 0
            && in_i32(neighbor_of(pts[m][0] as int, pts[m][1] as int, d).0) && in_i32(neighbor_of(pts[m][0] as int, pts[m][1] as int, d).1)
            ==> #[trigger] has_pair_points(targets, neighbor_of(pts[m][0] as int, pts[m][1] as int, d).0, neighbor_of(pts[m][0] as int, pts[m][1] as int, d).1),
    ensures
        forall|x: int, y: int|
            in_i32(x) && in_i32(y) && (active_at(g, x, y) || inflow_at(g, solid, x, y, dt) > 0)
                ==> #[trigger] has_pair_points(targets, x, y),
{
    assert forall|x: int, y: int|
        in_i32(x) && in_i32(y) && (active_at(g, x, y) || inflow_at(g, solid, x, y, dt) > 0)
            implies #[trigger] has_pair_points(targets, x, y) by {
        if active_at(g, x, y) {
            let m = choose|m: int| 0 <= m < pts.len() && #[trigger] pts[m][0] == x && pts[m][1] == y;
            assert(has_pair_points(targets, pts[m][0] as int, pts[m][1] as int));
        } else {
            let d: int = if inflow_from(g, solid, x, y, 0, dt) > 0 {
                0
            } else if inflow_from(g, solid, x, y, 1, dt) > 0 {
                1
            } else if inflow_from(g, solid, x, y, 2, dt) > 0 {
                2
            } else {
                3
            };
            assert(inflow_from(g, solid, x, y, d, dt) > 0);
            let (nx, ny) = neighbor_of(x, y, d);
            assert(active_at(g, nx, ny));
            let m = choose|m: int| 0 <= m < pts.len() && #[trigger] pts[m][0] == nx && pts[m][1] == ny;
            lemma_neighbor_back(x, y, d);
            assert(flow_at(g, solid, pts[m][0] as int, pts[m][1] as int, opposite(d), dt) > 0);
            assert(has_pair_points(targets, neighbor_of(pts[m][0] as int, pts[m][1] as int, opposite(d)).0, neighbor_of(pts[m][0] as int, pts[m][1] as int, opposite(d)).1));
        }
    }
}

/// Writing a point keeps every earlier record and records the point.
proof fn lemma_written_keeps_records(s0: GenericTiles<LiquidTile>, s1: GenericTiles<LiquidTile>, x: int, y: int, v: LiquidTile)
    requires
        s0.wf(),
        in_i32(x),
        in_i32(y),
        s1.written_from(s0, x, y, v),
    ensures
        forall|a: int, b: int| in_i32(a) && in_i32(b) && #[trigger] written_in(s0, a, b) ==> written_in(s1, a, b),
        written_in(s1, x, y),
{
    let n = s0.spec_chunk_size() as int;
    let cx = chunk_of(x, n);
    let cy = chunk_of(y, n);
    let m1 = s1.modified_seq();
    assert(m1 == m1.drop_last().push(m1.last()));
    let c1 = s1.chunk_modified(cx, cy);
    assert(c1 == c1.drop_last().push(c1.last()));
    lemma_has_pair_points_push(s0.modified_seq(), m1.last(), cx, cy);
    lemma_has_pair_inner_push(s0.chunk_modified(cx, cy), c1.last(), inner_of(x, n), inner_of(y, n));
    assert forall|a: int, b: int| in_i32(a) && in_i32(b) && #[trigger] written_in(s0, a, b) implies written_in(s1, a, b) by {
        lemma_chunk_in_range(a, n);
        lemma_chunk_in_range(b, n);
        lemma_has_pair_points_push(s0.modified_seq(), m1.last(), chunk_of(a, n), chunk_of(b, n));
        lemma_has_pair_inner_push(s0.chunk_modified(cx, cy), c1.last(), inner_of(a, n), inner_of(b, n));
    }
}

impl GenericTiles<LiquidTile> {
    /// The points of every cell above the empty threshold, sorted, each once.
    pub fn active_points(&self) -> (r: Vec<[i32; 2]>)
        requires
            self.wf(),
        ensures
            forall|i: int| 0 <= i < r@.len() ==> active_at(*self, (#[trigger] r@[i])[0] as int, r@[i][1] as int),
            forall|x: int, y: int| #[trigger] active_at(*self, x, y) ==> has_pair_points(r@, x, y),
            strictly_sorted_points(r@),
    {
        let n = self.chunk_size();
        let chunks = self.indexed_chunks();
        let mut raw: Vec<[i32; 2]> = Vec::new();
        let mut i: usize = 0;
        while i < chunks.len()
            invariant
                self.wf(),
                n == self.spec_chunk_size(),
                i <= chunks@.len(),
                chunks@.len() == self.chunk_list_seq().len(),
                forall|j: int|
                    0 <= j < chunks@.len() ==> (#[trigger] chunks@[j]).0 == self.chunk_list_seq()[j]
                        && self.chunk_map().contains_key(self.list_key(j)) && *chunks@[j].1
                        == self.chunk_map()[self.list_key(j)],
                forall|m: int| 0 <= m < raw@.len() ==> active_at(*self, (#[trigger] raw@[m])[0] as int, raw@[m][1] as int),
                forall|x: int, y: int|
                    #[trigger] active_at(*self, x, y) && (exists|m: int|
                        0 <= m < i && #[trigger] self.list_key(m) == key_of(
                            chunk_of(x, n as int),
                            chunk_of(y, n as int),
                        ) as u64) ==> has_pair_points(raw@, x, y),
            decreases chunks@.len() - i,
        {
            let c = chunks[i].0;
            let chunk = chunks[i].1;
            proof {
                assert(self.chunk_map().contains_key(self.list_key(i as int)));
            }
            let cells = chunk.indexed_tiles();
            let mut j: usize = 0;
            while j < cells.len()
                invariant
                    self.wf(),
                    n == self.spec_chunk_size(),
                    chunk.spec_size() == n,
                    self.chunk_at(c[0] as int, c[1] as int) == Some(*chunk),
                    c == self.chunk_list_seq()[i as int],
                    i < chunks@.len(),
                    chunks@.len() == self.chunk_list_seq().len(),
                    j <= cells@.len(),
                    cells@.len() == chunk.cells().len(),
                    cells@.len() == n * n,
                    forall|m: int|
                        0 <= m < cells@.len() ==> (#[trigger] cells@[m]).0[0] == m / n as int
                            && cells@[m].0[1] == m % n as int && *cells@[m].1 == chunk.cells()[m],
                    forall|m: int| 0 <= m < raw@.len() ==> active_at(*self, (#[trigger] raw@[m])[0] as int, raw@[m][1] as int),
                    forall|x: int, y: int|
                        #[trigger] active_at(*self, x, y) && (exists|m: int|
                            0 <= m < i && #[trigger] self.list_key(m) == key_of(
                                chunk_of(x, n as int),
                                chunk_of(y, n as int),
                            ) as u64) ==> has_pair_points(raw@, x, y),
                    forall|x: int, y: int|
                        #[trigger] active_at(*self, x, y) && chunk_of(x, n as int) == c[0] && chunk_of(y, n as int) == c[1]
                            && cell_index(inner_of(x, n as int), inner_of(y, n as int), n as int) < j
                            ==> has_pair_points(raw@, x, y),
                decreases cells@.len() - j,
            {
                let inner = cells[j].0;
                let tile: LiquidTile = *cells[j].1;
                proof {
                    lemma_index_split(j as int, n as int);
                    let cx = c[0] as int;
                    let cy = c[1] as int;
                    assert(in_i64(cx * n) && in_i64(cy * n) && in_i64(cx * n + inner[0]) && in_i64(cy * n + inner[1])) by (nonlinear_arith)
                        requires
                            in_i32(cx),
                            in_i32(cy),
                            0 < n <= 46340,
                            0 <= inner[0] < n,
                            0 <= inner[1] < n,
                    ;
                }
                let x = c[0] as i64 * n as i64 + inner[0] as i64;
                let y = c[1] as i64 * n as i64 + inner[1] as i64;
                let ghost raw0 = raw@;
                let in_range = x >= i32::MIN as i64 && x <= i32::MAX as i64 && y >= i32::MIN as i64 && y <= i32::MAX as i64;
                if !tile.is_empty() && in_range {
                    proof {
                        let nn = n as int;
                        lemma_cell_index(inner[0] as int, inner[1] as int, nn);
                        vstd::arithmetic::div_mod::lemma_fundamental_div_mod_converse(
                            x as int, nn, c[0] as int, inner[0] as int);
                        vstd::arithmetic::div_mod::lemma_fundamental_div_mod_converse(
                            y as int, nn, c[1] as int, inner[1] as int);
                    }
                    raw.push([x as i32, y as i32]);
                }
                proof {
                    let nn = n as int;
                    assert forall|px: int, py: int|
                        #[trigger] active_at(*self, px, py) && chunk_of(px, nn) == c[0] && chunk_of(py, nn) == c[1]
                            && cell_index(inner_of(px, nn), inner_of(py, nn), nn) < j + 1
                            implies has_pair_points(raw@, px, py) by {
                        lemma_has_pair_points_push(raw0, [x as i32, y as i32], px, py);
                        if cell_index(inner_of(px, nn), inner_of(py, nn), nn) == j {
                            lemma_chunk_in_range(px, nn);
                            lemma_chunk_in_range(py, nn);
                            lemma_cell_index(inner_of(px, nn), inner_of(py, nn), nn);
                            lemma_split_combine(px, nn);
                            lemma_split_combine(py, nn);
                            assert(inner[0] == inner_of(px, nn) && inner[1] == inner_of(py, nn));
                            assert(x == px && y == py);
                            assert(tile == self.cell(px, py).unwrap());
                            assert(raw@ == raw0.push([x as i32, y as i32]));
                        }
                    }
                    assert forall|px: int, py: int|
                        #[trigger] active_at(*self, px, py) && (exists|m: int|
                            0 <= m < i && #[trigger] self.list_key(m) == key_of(
                                chunk_of(px, nn),
                                chunk_of(py, nn),
                            ) as u64) implies has_pair_points(raw@, px, py) by {
                        lemma_has_pair_points_push(raw0, [x as i32, y as i32], px, py);
                    }
                    assert forall|m: int| 0 <= m < raw@.len() implies active_at(*self, (#[trigger] raw@[m])[0] as int, raw@[m][1] as int) by {
                        if m < raw0.len() {
                            assert(raw@[m] == raw0[m]);
                        }
                    }
                }
                j = j + 1;
            }
            proof {
                let nn = n as int;
                assert forall|px: int, py: int|
                    #[trigger] active_at(*self, px, py) && (exists|m: int|
                        0 <= m < i + 1 && #[trigger] self.list_key(m) == key_of(
                            chunk_of(px, nn),
                            chunk_of(py, nn),
                        ) as u64) implies has_pair_points(raw@, px, py) by {
                    let m = choose|m: int|
                        0 <= m < i + 1 && #[trigger] self.list_key(m) == key_of(
                            chunk_of(px, nn),
                            chunk_of(py, nn),
                        ) as u64;
                    if m == i {
                        lemma_chunk_in_range(px, nn);
                        lemma_chunk_in_range(py, nn);
                        lemma_key(chunk_of(px, nn), chunk_of(py, nn), c[0] as int, c[1] as int);
                        lemma_cell_index(inner_of(px, nn), inner_of(py, nn), nn);
                    }
                }
            }
            i = i + 1;
        }
        proof {
            let nn = n as int;
            assert forall|x: int, y: int| #[trigger] active_at(*self, x, y) implies has_pair_points(raw@, x, y) by {
                lemma_chunk_in_range(x, nn);
                lemma_chunk_in_range(y, nn);
                let k = key_of(chunk_of(x, nn), chunk_of(y, nn)) as u64;
                assert(self.chunk_map().contains_key(k));
                let m = choose|m: int| 0 <= m < self.chunk_list_seq().len() && #[trigger] self.list_key(m) == k;
                assert(self.list_key(m) == k);
            }
        }
        let r = sort_dedup_points(&raw);
        proof {
            assert forall|i: int| 0 <= i < r@.len() implies active_at(*self, (#[trigger] r@[i])[0] as int, r@[i][1] as int) by {
                assert(has_pair_points(r@, r@[i][0] as int, r@[i][1] as int));
                let k = choose|k: int| 0 <= k < raw@.len() && #[trigger] raw@[k][0] == r@[i][0] as int && raw@[k][1] == r@[i][1] as int;
                assert(active_at(*self, raw@[k][0] as int, raw@[k][1] as int));
            }
        }
        r
    }

    /// The decisions of one tick, all read from the grid as it is: for every
    /// cell above the empty threshold, once each, its point, its new
    /// velocity and the amount it sends toward each neighbor.
    pub fn plan_step(&self, solid: &GenericTiles<OptTileIndex>, dt: u32) -> (r: Vec<([i32; 2], [u64; 4], [u64; 4])>)
        requires
            self.wf(),
            solid.wf(),
        ensures
            forall|i: int| #![trigger r@[i]] 0 <= i < r@.len() ==> {
                let (p, vel, flows) = r@[i];
                let x = p[0] as int;
                let y = p[1] as int;
                &&& active_at(*self, x, y)
                &&& sum4(flows) <= self.cell(x, y).unwrap().amount
                &&& forall|d: int| #![trigger vel[d]] 0 <= d < 4 ==> {
                    &&& vel[d] == vel_at(*self, *solid, x, y, d, dt as int)
                    &&& flows[d] == flow_at(*self, *solid, x, y, d, dt as int)
                    &&& is_blocked(*solid, neighbor_of(x, y, d).0, neighbor_of(x, y, d).1) ==> vel[d] == 0
                        && flows[d] == 0
                }
            },
            forall|x: int, y: int| #[trigger] active_at(*self, x, y) ==> exists|i: int|
                0 <= i < r@.len() && (#[trigger] r@[i]).0[0] == x && r@[i].0[1] == y,
            forall|i: int, j: int| 0 <= i < j < r@.len() ==> (#[trigger] r@[i]).0 != (#[trigger] r@[j]).0,
    {
        let pts = self.active_points();
        let mut plans: Vec<([i32; 2], [u64; 4], [u64; 4])> = Vec::new();
        let mut i: usize = 0;
        while i < pts.len()
            invariant
                self.wf(),
                solid.wf(),
                i <= pts@.len(),
                plans@.len() == i,
                forall|m: int| 0 <= m < pts@.len() ==> active_at(*self, (#[trigger] pts@[m])[0] as int, pts@[m][1] as int),
                forall|m: int| #![trigger plans@[m]] 0 <= m < plans@.len() ==> {
                    let (p, vel, flows) = plans@[m];
                    let x = p[0] as int;
                    let y = p[1] as int;
                    &&& p == pts@[m]
                    &&& active_at(*self, x, y)
                    &&& sum4(flows) <= self.cell(x, y).unwrap().amount
                    &&& forall|d: int| #![trigger vel[d]] 0 <= d < 4 ==> {
                        &&& vel[d] == vel_at(*self, *solid, x, y, d, dt as int)
                        &&& flows[d] == flow_at(*self, *solid, x, y, d, dt as int)
                        &&& is_blocked(*solid, neighbor_of(x, y, d).0, neighbor_of(x, y, d).1) ==> vel[d] == 0
                            && flows[d] == 0
                    }
                },
            decreases pts@.len() - i,
        {
            let p = pts[i];
            let f = cell_flow(self, solid, Some(p), dt);
            proof {
                assert(active_at(*self, p[0] as int, p[1] as int));
                let vel = f.0;
                let flows = f.1;
                assert forall|d: int| #![trigger vel[d]] 0 <= d < 4 implies is_blocked(*solid, neighbor_of(p[0] as int, p[1] as int, d).0, neighbor_of(p[0] as int, p[1] as int, d).1) ==> vel[d] == 0
                    && flows[d] == 0 by {
                    assert(flows[d] == flow_at(*self, *solid, p[0] as int, p[1] as int, d, dt as int));
                }
            }
            plans.push((p, f.0, f.1));
            i = i + 1;
        }
        proof {
            assert forall|x: int, y: int| #[trigger] active_at(*self, x, y) implies exists|i: int|
                0 <= i < plans@.len() && (#[trigger] plans@[i]).0[0] == x && plans@[i].0[1] == y by {
                let k = choose|k: int| 0 <= k < pts@.len() && #[trigger] pts@[k][0] == x && pts@[k][1] == y;
                assert(plans@[k].0 == pts@[k]);
            }
            assert forall|i: int, j: int| 0 <= i < j < plans@.len() implies (#[trigger] plans@[i]).0 != (#[trigger] plans@[j]).0 by {
                assert(plans@[i].0 == pts@[i]);
                assert(plans@[j].0 == pts@[j]);
                assert(pair_lt_points(pts@[i], pts@[j]));
            }
        }
        plans
    }

    /// One tick of the liquid simulation. Every quantity is read from the
    /// grid as it was at the start of the tick: each cell above the empty
    /// threshold takes its new velocity and loses what it sends, and each
    /// cell gains what its neighbors send toward it (saturating at
    /// `u64::MAX`), as `next_amount` and `next_vel` say. A cell is written,
    /// and recorded as modified, where it is above the threshold or receives
    /// liquid; a cell that receives liquid is created where it does not
    /// exist. Every other cell keeps its value.
    pub fn step(&mut self, solid: &GenericTiles<OptTileIndex>, dt: u32)
        requires
            old(self).wf(),
            solid.wf(),
        ensures
            final(self).wf(),
            final(self).spec_chunk_size() == old(self).spec_chunk_size(),
            forall|x: int, y: int|
                in_i32(x) && in_i32(y) && (old(self).cell(x, y) is Some || inflow_at(*old(self), *solid, x, y, dt as int) > 0)
                    ==> #[trigger] final(self).cell(x, y) is Some,
            forall|x: int, y: int|
                in_i32(x) && in_i32(y) && #[trigger] final(self).cell(x, y) is Some ==> is_next(
                    *old(self),
                    *solid,
                    dt as int,
                    x,
                    y,
                    final(self).cell(x, y).unwrap(),
                ),
            forall|x: int, y: int|
                in_i32(x) && in_i32(y) && (active_at(*old(self), x, y) || inflow_at(*old(self), *solid, x, y, dt as int) > 0)
                    ==> #[trigger] written_in(*final(self), x, y),
    {
        let ghost g0 = *self;
        let n = self.chunk_size();
        let pts = self.active_points();
        let mut targets: Vec<[i32; 2]> = Vec::new();
        let mut i: usize = 0;
        while i < pts.len()
            invariant
                self.wf(),
                solid.wf(),
                *self == g0,
                i <= pts@.len(),
                forall|m: int| 0 <= m < i ==> has_pair_points(targets@, (#[trigger] pts@[m])[0] as int, pts@[m][1] as int),
                forall|m: int, d: int| 0 <= m < i && 0 <= d < 4 && flow_at(g0, *solid, (#[trigger] pts@[m])[0] as int, pts@[m][1] as int, d, dt as int) > 0
                    && in_i32(neighbor_of(pts@[m][0] as int, pts@[m][1] as int, d).0) && in_i32(neighbor_of(pts@[m][0] as int, pts@[m][1] as int, d).1)
                    ==> #[trigger] has_pair_points(targets@, neighbor_of(pts@[m][0] as int, pts@[m][1] as int, d).0, neighbor_of(pts@[m][0] as int, pts@[m][1] as int, d).1),
            decreases pts@.len() - i,
        {
            let p = pts[i];
            let ghost t0 = targets@;
            targets.push(p);
            let f = cell_flow(self, solid, Some(p), dt);
            let ghost t1 = targets@;
            if f.1[0] > 0 {
                match Direction::Right.neighbor(&p) {
                    Some(q) => targets.push(q),
                    None => {},
                }
            }
            let ghost t2 = targets@;
            if f.1[1] > 0 {
                match Direction::Down.neighbor(&p) {
                    Some(q) => targets.push(q),
                    None => {},
                }
            }
            let ghost t3 = targets@;
            if f.1[2] > 0 {
                match Direction::Left.neighbor(&p) {
                    Some(q) => targets.push(q),
                    None => {},
                }
            }
            let ghost t4 = targets@;
            if f.1[3] > 0 {
                match Direction::Up.neighbor(&p) {
                    Some(q) => targets.push(q),
                    None => {},
                }
            }
            proof {
                let px = p[0] as int;
                let py = p[1] as int;
                assert(forall|k: int| 0 <= k < t1.len() ==> #[trigger] t2[k] == t1[k]);
                assert(forall|k: int| 0 <= k < t2.len() ==> #[trigger] t3[k] == t2[k]);
                assert(forall|k: int| 0 <= k < t3.len() ==> #[trigger] t4[k] == t3[k]);
                assert(forall|k: int| 0 <= k < t4.len() ==> #[trigger] targets@[k] == t4[k]);
                assert(forall|k: int| 0 <= k < t0.len() ==> #[trigger] targets@[k] == t0[k]);
                lemma_has_pair_points_push(t0, p, px, py);
                lemma_prefix_keeps_pair(t1, targets@, px, py);
                assert forall|x: int, y: int| has_pair_points(t0, x, y) implies #[trigger] has_pair_points(targets@, x, y) by {
                    lemma_prefix_keeps_pair(t0, targets@, x, y);
                }
                assert forall|d: int| 0 <= d < 4 && flow_at(g0, *solid, px, py, d, dt as int) > 0
                    && in_i32(neighbor_of(px, py, d).0) && in_i32(neighbor_of(px, py, d).1)
                    implies has_pair_points(targets@, neighbor_of(px, py, d).0, neighbor_of(px, py, d).1) by {
                    let (qx, qy) = neighbor_of(px, py, d);
                    if d == 0 {
                        lemma_has_pair_points_push(t1, t2.last(), qx, qy);
                        assert(t2 == t1.push(t2.last()));
                        lemma_prefix_keeps_pair(t2, targets@, qx, qy);
                    } else if d == 1 {
                        lemma_has_pair_points_push(t2, t3.last(), qx, qy);
                        assert(t3 == t2.push(t3.last()));
                        lemma_prefix_keeps_pair(t3, targets@, qx, qy);
                    } else if d == 2 {
                        lemma_has_pair_points_push(t3, t4.last(), qx, qy);
                        assert(t4 == t3.push(t4.last()));
                        lemma_prefix_keeps_pair(t4, targets@, qx, qy);
                    } else {
                        lemma_has_pair_points_push(t4, targets@.last(), qx, qy);
                        assert(targets@ == t4.push(targets@.last()));
                    }
                }
            }
            i = i + 1;
        }
        proof {
            lemma_targets_complete(g0, *solid, dt as int, pts@, targets@);
        }
        let mut vals: Vec<([i32; 2], LiquidTile)> = Vec::new();
        let mut i: usize = 0;
        while i < targets.len()
            invariant
                self.wf(),
                solid.wf(),
                *self == g0,
                i <= targets@.len(),
                vals@.len() == i,
                forall|m: int| 0 <= m < i ==> (#[trigger] vals@[m]).0 == targets@[m] && is_next(
                    g0,
                    *solid,
                    dt as int,
                    vals@[m].0[0] as int,
                    vals@[m].0[1] as int,
                    vals@[m].1,
                ),
            decreases targets@.len() - i,
        {
            let t = targets[i];
            let v = next_cell(self, solid, t, dt);
            vals.push((t, v));
            i = i + 1;
        }
        proof {
            assert(targets@.subrange(0, targets@.len() as int) == targets@);
            assert forall|x: int, y: int|
                in_i32(x) && in_i32(y) && #[trigger] self.cell(x, y) is Some implies is_next(
                    g0,
                    *solid,
                    dt as int,
                    x,
                    y,
                    self.cell(x, y).unwrap(),
                ) || has_pair_points(targets@.subrange(0, targets@.len() as int), x, y) by {
                if !has_pair_points(targets@, x, y) {
                    lemma_still_is_next(g0, *solid, dt as int, x, y);
                }
            }
        }
        let mut i: usize = 0;
        while i < vals.len()
            invariant
                self.wf(),
                self.spec_chunk_size() == n,
                n == g0.spec_chunk_size(),
                i <= vals@.len(),
                vals@.len() == targets@.len(),
                forall|m: int| 0 <= m < vals@.len() ==> (#[trigger] vals@[m]).0 == targets@[m] && is_next(
                    g0,
                    *solid,
                    dt as int,
                    vals@[m].0[0] as int,
                    vals@[m].0[1] as int,
                    vals@[m].1,
                ),
                forall|x: int, y: int|
                    in_i32(x) && in_i32(y) && (active_at(g0, x, y) || inflow_at(g0, *solid, x, y, dt as int) > 0)
                        ==> #[trigger] has_pair_points(targets@, x, y),
                forall|x: int, y: int| in_i32(x) && in_i32(y) && g0.cell(x, y) is Some ==> #[trigger] self.cell(x, y) is Some,
                forall|m: int| 0 <= m < i ==> self.cell((#[trigger] targets@[m])[0] as int, targets@[m][1] as int) is Some
                    && written_in(*self, targets@[m][0] as int, targets@[m][1] as int),
                forall|x: int, y: int|
                    in_i32(x) && in_i32(y) && #[trigger] self.cell(x, y) is Some ==> is_next(
                        g0,
                        *solid,
                        dt as int,
                        x,
                        y,
                        self.cell(x, y).unwrap(),
                    ) || has_pair_points(targets@.subrange(i as int, targets@.len() as int), x, y),
            decreases vals@.len() - i,
        {
            let t = vals[i].0;
            let v = vals[i].1;
            let ghost s0 = *self;
            self.set(&t, v);
            proof {
                let tx = t[0] as int;
                let ty = t[1] as int;
                assert(targets@[i as int] == t);
                lemma_written_keeps_records(s0, *self, tx, ty, v);
                assert forall|m: int| 0 <= m < i + 1 implies self.cell((#[trigger] targets@[m])[0] as int, targets@[m][1] as int) is Some
                    && written_in(*self, targets@[m][0] as int, targets@[m][1] as int) by {
                    if m < i {
                        assert(s0.cell(targets@[m][0] as int, targets@[m][1] as int) is Some);
                    }
                }
                assert forall|x: int, y: int|
                    in_i32(x) && in_i32(y) && #[trigger] self.cell(x, y) is Some implies is_next(
                        g0,
                        *solid,
                        dt as int,
                        x,
                        y,
                        self.cell(x, y).unwrap(),
                    ) || has_pair_points(targets@.subrange(i + 1, targets@.len() as int), x, y) by {
                    if !(x == tx && y == ty) {
                        lemma_pending_step(targets@, i as int, x, y);
                        if s0.cell(x, y) is None {
                            if has_pair_points(targets@, x, y) {
                                let k = choose|k: int| 0 <= k < targets@.len() && #[trigger] targets@[k][0] == x && targets@[k][1] == y;
                                if k < i {
                                    assert(s0.cell(targets@[k][0] as int, targets@[k][1] as int) is Some);
                                } else if k > i {
                                    assert(targets@.subrange(i + 1, targets@.len() as int)[k - i - 1] == targets@[k]);
                                }
                            } else {
                                lemma_untouched_is_next(g0, *solid, dt as int, x, y);
                            }
                        }
                    }
                }
            }
            i = i + 1;
        }
        proof {
            assert forall|x: int, y: int|
                in_i32(x) && in_i32(y) && #[trigger] self.cell(x, y) is Some implies is_next(
                    g0,
                    *solid,
                    dt as int,
                    x,
                    y,
                    self.cell(x, y).unwrap(),
                ) by {
                assert(!has_pair_points(targets@.subrange(i as int, targets@.len() as int), x, y));
            }
            assert forall|x: int, y: int|
                in_i32(x) && in_i32(y) && (g0.cell(x, y) is Some || inflow_at(g0, *solid, x, y, dt as int) > 0)
                    implies #[trigger] self.cell(x, y) is Some by {
                if g0.cell(x, y) is None {
                    assert(has_pair_points(targets@, x, y));
                    let k = choose|k: int| 0 <= k < targets@.len() && #[trigger] targets@[k][0] == x && targets@[k][1] == y;
                    assert(self.cell(targets@[k][0] as int, targets@[k][1] as int) is Some);
                }
            }
            assert forall|x: int, y: int|
                in_i32(x) && in_i32(y) && (active_at(g0, x, y) || inflow_at(g0, *solid, x, y, dt as int) > 0)
                    implies #[trigger] written_in(*self, x, y) by {
                assert(has_pair_points(targets@, x, y));
                let k = choose|k: int| 0 <= k < targets@.len() && #[trigger] targets@[k][0] == x && targets@[k][1] == y;
                assert(written_in(*self, targets@[k][0] as int, targets@[k][1] as int));
            }
        }
    }
}



pub proof fn lemma_velocity_nonneg(g: GenericTiles<LiquidTile>, solid: GenericTiles<OptTileIndex>, x: int, y: int, d: int, dt: int)
    requires
        0 <= d < 4,
        dt >= 0,
    ensures
        0 <= vel_at(g, solid, x, y, d, dt),
{
    let t = tile_at(g, x, y);
    let (nx, ny) = neighbor_of(x, y, d);
    let f = push_force(t.amount as int, amount_at(g, nx, ny), d);
    assert(f * dt >= 0) by (nonlinear_arith)
        requires
            f >= 0,
            dt >= 0,
    ;
}

/// A cell never sends more than it held at the start of the tick.
pub proof fn lemma_outflow_bounded(g: GenericTiles<LiquidTile>, solid: GenericTiles<OptTileIndex>, x: int, y: int, dt: int)
    requires
        dt >= 0,
    ensures
        0 <= outflow_at(g, solid, x, y, dt) <= tile_at(g, x, y).amount,
        forall|d: int| 0 <= d < 4 ==> 0 <= #[trigger] flow_at(g, solid, x, y, d, dt),
{
    if active_at(g, x, y) {
        lemma_velocity_nonneg(g, solid, x, y, 0, dt);
        lemma_velocity_nonneg(g, solid, x, y, 1, dt);
        lemma_velocity_nonneg(g, solid, x, y, 2, dt);
        lemma_velocity_nonneg(g, solid, x, y, 3, dt);
        let a = tile_at(g, x, y).amount as int;
        let total = vel_sum(g, solid, x, y, dt);
        lemma_shares_bounded(
            if total < a { total } else { a },
            vel_at(g, solid, x, y, 0, dt),
            vel_at(g, solid, x, y, 1, dt),
            vel_at(g, solid, x, y, 2, dt),
            vel_at(g, solid, x, y, 3, dt),
        );
    }
}

/// Toward a solid neighbor a cell above the threshold has velocity zero
/// after the tick and sends nothing; and a solid cell receives nothing.
pub proof fn lemma_solid_blocks(g: GenericTiles<LiquidTile>, solid: GenericTiles<OptTileIndex>, x: int, y: int, d: int, dt: int)
    requires
        0 <= d < 4,
    ensures
        active_at(g, x, y) && is_blocked(solid, neighbor_of(x, y, d).0, neighbor_of(x, y, d).1) ==> next_vel(
            g,
            solid,
            x,
            y,
            d,
            dt,
        ) == 0 && flow_at(g, solid, x, y, d, dt) == 0,
        in_i32(x) && in_i32(y) && is_blocked(solid, x, y) ==> inflow_from(g, solid, x, y, d, dt) == 0,
{
    lemma_blocked_sends_nothing(g, solid, x, y, d, dt);
    lemma_neighbor_back(x, y, d);
    let (nx, ny) = neighbor_of(x, y, d);
    assert(neighbor_of(nx, ny, opposite(d)) == (x, y));
    lemma_blocked_sends_nothing(g, solid, nx, ny, opposite(d), dt);
}

proof fn lemma_blocked_sends_nothing(g: GenericTiles<LiquidTile>, solid: GenericTiles<OptTileIndex>, x: int, y: int, d: int, dt: int)
    requires
        0 <= d < 4,
    ensures
        is_blocked(solid, neighbor_of(x, y, d).0, neighbor_of(x, y, d).1) ==> vel_at(g, solid, x, y, d, dt) == 0
            && flow_at(g, solid, x, y, d, dt) == 0,
{
    if is_blocked(solid, neighbor_of(x, y, d).0, neighbor_of(x, y, d).1) {
        assert(vel_at(g, solid, x, y, d, dt) == 0);
        let a = tile_at(g, x, y).amount as int;
        let total = vel_sum(g, solid, x, y, dt);
        let rate = if total < a { total } else { a };
        assert(rate * 0 == 0);
        if total != 0 {
            assert(0int / total == 0);
        }
    }
}

/// A cell at or below the threshold whose four neighbors are too keeps its
/// amount and its velocity.
pub proof fn lemma_stillness(g: GenericTiles<LiquidTile>, solid: GenericTiles<OptTileIndex>, x: int, y: int, dt: int)
    requires
        !active_at(g, x, y),
        forall|d: int| 0 <= d < 4 ==> !active_at(g, #[trigger] neighbor_of(x, y, d).0, neighbor_of(x, y, d).1),
    ensures
        next_amount(g, solid, x, y, dt) == tile_at(g, x, y).amount,
        forall|d: int| 0 <= d < 4 ==> #[trigger] next_vel(g, solid, x, y, d, dt) == tile_at(g, x, y).velocity[d],
{
    assert(!active_at(g, neighbor_of(x, y, 0).0, neighbor_of(x, y, 0).1));
    assert(!active_at(g, neighbor_of(x, y, 1).0, neighbor_of(x, y, 1).1));
    assert(!active_at(g, neighbor_of(x, y, 2).0, neighbor_of(x, y, 2).1));
    assert(!active_at(g, neighbor_of(x, y, 3).0, neighbor_of(x, y, 3).1));
}

/// What a cell sends toward a neighbor is exactly what that neighbor
/// receives from it: no liquid is lost or made on the way.
pub proof fn lemma_flow_received(g: GenericTiles<LiquidTile>, solid: GenericTiles<OptTileIndex>, x: int, y: int, d: int, dt: int)
    requires
        0 <= d < 4,
    ensures
        inflow_from(g, solid, neighbor_of(x, y, d).0, neighbor_of(x, y, d).1, opposite(d), dt) == flow_at(
            g,
            solid,
            x,
            y,
            d,
            dt,
        ),
{
    lemma_neighbor_back(x, y, d);
    assert(opposite(opposite(d)) == d);
}

} // verus!
