//! The deterministic per-frame simulation step over players and bullets.

use vstd::prelude::*;
use vstd::arithmetic::div_mod::{
    lemma_div_is_ordered,
    lemma_div_multiples_vanish,
    lemma_div_pos_is_pos,
    lemma_fundamental_div_mod,
    lemma_mod_pos_bound,
};
use crate::actions::{direction, direction_of, has_fired};
use crate::codec::{has_flag, zero_packet, Packet, INPUT_FIRE};

verus! {

/// Fixed-point scale: this many coordinate steps make one world unit, and a
/// bullet's direction vector has this length.
pub const UNIT: i64 = 1000;

/// Largest magnitude of a configured length, in coordinate steps.
pub const COORD_MAX: i64 = 1_000_000_000;

/// The fixed rules of a match. Lengths are in thousandths of a world unit,
/// durations in microseconds.
#[derive(Clone, Copy, Debug, PartialEq, Eq, Structural)]
pub struct Config {
    /// Players stay within `-half_width..=half_width` horizontally.
    pub half_width: i64,
    /// Players stay within `-half_height..=half_height` vertically.
    pub half_height: i64,
    /// Distance a player moves per frame along each pressed axis.
    pub move_speed: i64,
    /// Time a player must wait between two shots.
    pub cooldown: u64,
    /// Simulated time that one frame takes.
    pub frame_duration: u64,
    /// Distance a bullet travels per frame.
    pub bullet_speed: i64,
    /// A bullet farther than this from the origin is removed.
    pub max_range: i64,
}

impl Config {
    pub open spec fn wf(&self) -> bool {
        &&& 0 <= self.half_width <= COORD_MAX
        &&& 0 <= self.half_height <= COORD_MAX
        &&& 0 <= self.move_speed <= COORD_MAX
        &&& 0 <= self.bullet_speed <= COORD_MAX
        &&& 0 <= self.max_range <= COORD_MAX
    }

    /// The rules the game is played with: a 20 by 20 playfield, 0.15 units
    /// of movement and 0.5 units of bullet travel per frame, a tenth of a
    /// second between shots, sixty frames a second, and bullets that vanish
    /// 20 units from the origin.
    pub fn standard() -> (c: Config)
        ensures
            c.wf(),
            c.half_width == 10_000 && c.half_height == 10_000,
            c.move_speed == 150 && c.bullet_speed == 500 && c.max_range == 20_000,
            c.cooldown == 100_000 && c.frame_duration == 16_667,
    {
        Config {
            half_width: 10_000,
            half_height: 10_000,
            move_speed: 150,
            cooldown: 100_000,
            frame_duration: 16_667,
            bullet_speed: 500,
            max_range: 20_000,
        }
    }
}

/// A player-controlled entity. `reloading` is the time left before it may
/// fire again; zero means ready.
#[derive(Clone, Copy, Debug, PartialEq, Eq, Structural)]
pub struct Player {
    pub handle: usize,
    pub x: i64,
    pub y: i64,
    pub reloading: u64,
    pub last_dir_x: i64,
    pub last_dir_y: i64,
}

/// A projectile: its position, and its direction of travel, the offset from
/// where it was fired to the aim point normalised to length `UNIT` (see
/// `aim_direction`): its components lie in `-UNIT..=UNIT` and its length is
/// within 3 of `UNIT`, or zero when it was fired at its own position.
#[derive(Clone, Copy, Debug, PartialEq, Eq, Structural)]
pub struct Bullet {
    pub x: i64,
    pub y: i64,
    pub dir_x: i64,
    pub dir_y: i64,
}

/// The rollback-tracked state of a match: players in a fixed order, and the
/// live bullets in order of creation.
#[derive(Debug)]
pub struct World {
    pub players: Vec<Player>,
    pub bullets: Vec<Bullet>,
}

pub struct WorldView {
    pub players: Seq<Player>,
    pub bullets: Seq<Bullet>,
}

impl View for World {
    type V = WorldView;

    open spec fn view(&self) -> WorldView {
        WorldView { players: self.players@, bullets: self.bullets@ }
    }
}

pub open spec fn clamp(v: int, lo: int, hi: int) -> int {
    if v < lo {
        lo
    } else if v > hi {
        hi
    } else {
        v
    }
}

/// Division that rounds toward zero, as integer division does on machines.
pub open spec fn trunc_div(a: int, b: int) -> int {
    if a >= 0 {
        a / b
    } else {
        -((-a) / b)
    }
}

pub open spec fn is_isqrt(n: int, r: int) -> bool {
    0 <= r && r * r <= n < (r + 1) * (r + 1)
}

/// The integer square root of `n`, rounded down.
pub open spec fn isqrt(n: int) -> int {
    choose|r: int| is_isqrt(n, r)
}

pub open spec fn abs(v: int) -> int {
    if v < 0 {
        -v
    } else {
        v
    }
}

/// The input that applies to handle `h`: its entry, or the empty packet for a
/// handle without one.
pub open spec fn input_for(inputs: Seq<Packet>, h: usize) -> Packet {
    if h < inputs.len() {
        inputs[h as int]
    } else {
        zero_packet()
    }
}

/// A player after its movement: unchanged when the direction is zero,
/// otherwise moved by the direction times the speed and clamped to the
/// playfield, remembering the direction.
pub open spec fn moved_player(cfg: Config, p: Player, inp: Packet) -> Player {
    let d = direction_of(inp.input);
    if d.0 == 0 && d.1 == 0 {
        p
    } else {
        Player {
            x: clamp(p.x + d.0 * cfg.move_speed, -cfg.half_width, cfg.half_width as int) as i64,
            y: clamp(p.y + d.1 * cfg.move_speed, -cfg.half_height, cfg.half_height as int) as i64,
            last_dir_x: d.0 as i64,
            last_dir_y: d.1 as i64,
            ..p
        }
    }
}

/// The reload timer after one frame has elapsed.
pub open spec fn ticked(reloading: u64, elapsed: u64) -> u64 {
    if reloading > elapsed {
        (reloading - elapsed) as u64
    } else {
        0
    }
}

/// A player fires when its fire flag is set and its timer has run out after
/// this frame's tick.
pub open spec fn fires(cfg: Config, p: Player, inp: Packet) -> bool {
    has_flag(inp.input, INPUT_FIRE) && ticked(p.reloading, cfg.frame_duration) == 0
}

/// A player after one frame: moved, timer ticked, and reset to the full
/// cooldown when it fires.
pub open spec fn player_after(cfg: Config, p: Player, inp: Packet) -> Player {
    Player {
        reloading: if fires(cfg, p, inp) {
            cfg.cooldown
        } else {
            ticked(p.reloading, cfg.frame_duration)
        },
        ..moved_player(cfg, p, inp)
    }
}

/// The direction from the origin toward `(dx, dy)`, normalised to length
/// `UNIT`: each component times `UNIT * UNIT`, divided by the integer square
/// root (rounded down) of the squared length times `UNIT * UNIT`, rounded
/// toward zero; zero when the two coincide.
pub open spec fn aim_direction(dx: int, dy: int) -> (int, int) {
    let len = isqrt((dx * dx + dy * dy) * (UNIT * UNIT));
    if len == 0 {
        (0, 0)
    } else {
        (trunc_div(dx * (UNIT * UNIT), len), trunc_div(dy * (UNIT * UNIT), len))
    }
}

/// The bullet a firing player creates: at the player's position after its
/// movement, heading for the aim point of its packet.
pub open spec fn new_bullet(cfg: Config, p: Player, inp: Packet) -> Bullet {
    let m = moved_player(cfg, p, inp);
    let d = aim_direction(inp.aim_x - m.x, inp.aim_y - m.y);
    Bullet { x: m.x, y: m.y, dir_x: d.0 as i64, dir_y: d.1 as i64 }
}

pub open spec fn players_after(cfg: Config, ps: Seq<Player>, inputs: Seq<Packet>) -> Seq<Player> {
    Seq::new(ps.len(), |k: int| player_after(cfg, ps[k], input_for(inputs, ps[k].handle)))
}

/// The bullets created this frame, in player order.
pub open spec fn spawned(cfg: Config, ps: Seq<Player>, inputs: Seq<Packet>) -> Seq<Bullet>
    decreases ps.len(),
{
    if ps.len() == 0 {
        Seq::empty()
    } else {
        let p = ps.last();
        let inp = input_for(inputs, p.handle);
        let rest = spawned(cfg, ps.drop_last(), inputs);
        if fires(cfg, p, inp) {
            rest.push(new_bullet(cfg, p, inp))
        } else {
            rest
        }
    }
}

/// A bullet after one frame of travel.
pub open spec fn bullet_moved(cfg: Config, b: Bullet) -> Bullet {
    Bullet {
        x: (b.x + trunc_div(b.dir_x * cfg.bullet_speed, UNIT as int)) as i64,
        y: (b.y + trunc_div(b.dir_y * cfg.bullet_speed, UNIT as int)) as i64,
        ..b
    }
}

/// Whether a bullet is no farther from the origin than the maximum range.
pub open spec fn in_range(cfg: Config, b: Bullet) -> bool {
    b.x * b.x + b.y * b.y <= cfg.max_range * cfg.max_range
}

/// The existing bullets after one frame: each moved, and kept exactly when it
/// is still in range.
pub open spec fn bullets_after(cfg: Config, bs: Seq<Bullet>) -> Seq<Bullet>
    decreases bs.len(),
{
    if bs.len() == 0 {
        Seq::empty()
    } else {
        let rest = bullets_after(cfg, bs.drop_last());
        let m = bullet_moved(cfg, bs.last());
        if in_range(cfg, m) {
            rest.push(m)
        } else {
            rest
        }
    }
}

/// One frame of simulation: existing bullets move (and leave once out of
/// range), every player acts on the input of its handle, and the bullets fired
/// this frame are added after the surviving ones.
pub open spec fn step_spec(cfg: Config, w: WorldView, inputs: Seq<Packet>) -> WorldView {
    WorldView {
        players: players_after(cfg, w.players, inputs),
        bullets: bullets_after(cfg, w.bullets) + spawned(cfg, w.players, inputs),
    }
}

pub open spec fn player_wf(cfg: Config, p: Player) -> bool {
    -cfg.half_width <= p.x <= cfg.half_width && -cfg.half_height <= p.y <= cfg.half_height
}

pub open spec fn bullet_wf(b: Bullet) -> bool {
    &&& -COORD_MAX <= b.x <= COORD_MAX
    &&& -COORD_MAX <= b.y <= COORD_MAX
    &&& -UNIT <= b.dir_x <= UNIT
    &&& -UNIT <= b.dir_y <= UNIT
}

/// Players inside the playfield, bullets and directions within bounds.
pub open spec fn world_wf(cfg: Config, w: WorldView) -> bool {
    &&& forall|i: int| 0 <= i < w.players.len() ==> player_wf(cfg, #[trigger] w.players[i])
    &&& forall|i: int| 0 <= i < w.bullets.len() ==> bullet_wf(#[trigger] w.bullets[i])
}

proof fn lemma_isqrt_unique(n: int, a: int, b: int)
    requires
        is_isqrt(n, a),
        is_isqrt(n, b),
    ensures
        a == b,
{
    if a < b {
        assert((a + 1) * (a + 1) <= b * b) by (nonlinear_arith)
            requires
                0 <= a,
                a + 1 <= b,
        ;
    } else if b < a {
        assert((b + 1) * (b + 1) <= a * a) by (nonlinear_arith)
            requires
                0 <= b,
                b + 1 <= a,
        ;
    }
}

proof fn lemma_isqrt_is(n: int, r: int)
    requires
        is_isqrt(n, r),
    ensures
        isqrt(n) == r,
{
    let c = isqrt(n);
    assert(is_isqrt(n, c));
    lemma_isqrt_unique(n, r, c);
}

proof fn lemma_isqrt_exists(n: nat)
    ensures
        is_isqrt(n as int, isqrt(n as int)),
    decreases n,
{
    if n == 0 {
        assert(is_isqrt(0, 0));
    } else {
        lemma_isqrt_exists((n - 1) as nat);
        let r = isqrt(n - 1);
        if (r + 1) * (r + 1) <= n {
            assert((r + 1) * (r + 1) == n);
            assert(n < (r + 2) * (r + 2)) by (nonlinear_arith)
                requires
                    (r + 1) * (r + 1) == n,
                    r >= 0,
            ;
            assert(is_isqrt(n as int, r + 1));
        } else {
            assert(is_isqrt(n as int, r));
        }
    }
}

/// `q = a / l` rounded down brackets `a` between `q * l` and `(q + 1) * l`.
proof fn lemma_div_bracket(a: int, l: int)
    requires
        a >= 0,
        l > 0,
    ensures
        0 <= (a / l) * l <= a < (a / l + 1) * l,
{
    lemma_fundamental_div_mod(a, l);
    lemma_mod_pos_bound(a, l);
    lemma_div_pos_is_pos(a, l);
    assert((a / l) * l == l * (a / l) && (a / l + 1) * l == l * (a / l) + l) by (nonlinear_arith);
    assert(0 <= (a / l) * l) by (nonlinear_arith)
        requires
            a / l >= 0,
            l > 0,
    ;
}

/// The squared magnitude of a component rounded toward zero is that of the
/// magnitude rounded down.
proof fn lemma_trunc_div_sq(v: int, l: int)
    requires
        l > 0,
    ensures
        trunc_div(v, l) * trunc_div(v, l) == (abs(v) / l) * (abs(v) / l),
{
    if v < 0 {
        assert((-(abs(v) / l)) * (-(abs(v) / l)) == (abs(v) / l) * (abs(v) / l)) by (nonlinear_arith);
    }
}

/// Two components rounded down whose exact values have squared length at
/// least `UNIT * UNIT` have squared length at least `(UNIT - 3)^2`.
proof fn lemma_rounded_length_low(qa: int, qb: int)
    requires
        qa >= 0,
        qb >= 0,
        (qa + 1) * (qa + 1) + (qb + 1) * (qb + 1) > 1_000_000,
    ensures
        qa * qa + qb * qb >= 997 * 997,
{
    if qa * qa + qb * qb < 997 * 997 {
        let s = qa + qb;
        assert(s * s <= 2 * (qa * qa + qb * qb)) by (nonlinear_arith)
            requires
                s == qa + qb,
        ;
        if s >= 1410 {
            assert(s * s >= 1410 * 1410) by (nonlinear_arith)
                requires
                    s >= 1410,
            ;
        }
        assert((qa + 1) * (qa + 1) + (qb + 1) * (qb + 1) == qa * qa + qb * qb + 2 * s + 2) by (
        nonlinear_arith)
            requires
                s == qa + qb,
        ;
    }
}

/// A non-zero aim offset gives a direction of length `UNIT` within 3, and
/// components within `-UNIT..=UNIT`.
pub proof fn lemma_aim_direction_normalised(dx: int, dy: int)
    requires
        dx != 0 || dy != 0,
    ensures
        ({
            let d = aim_direction(dx, dy);
            &&& -UNIT <= d.0 <= UNIT
            &&& -UNIT <= d.1 <= UNIT
            &&& (UNIT - 3) * (UNIT - 3) <= d.0 * d.0 + d.1 * d.1 <= (UNIT + 3) * (UNIT + 3)
        }),
{
    let n = dx * dx + dy * dy;
    assert(n >= 1) by (nonlinear_arith)
        requires
            dx != 0 || dy != 0,
            n == dx * dx + dy * dy,
    ;
    let big = n * 1_000_000;
    lemma_isqrt_exists(big as nat);
    let l = isqrt(big);
    assert(1000 * 1000 <= big);
    lemma_le_isqrt(big, l, 1000);
    assert((dx * 1000) * (dx * 1000) <= big && (dy * 1000) * (dy * 1000) <= big) by (nonlinear_arith)
        requires
            big == (dx * dx + dy * dy) * 1_000_000,
    ;
    lemma_le_isqrt(big, l, dx * 1000);
    lemma_le_isqrt(big, l, dy * 1000);
    assert(-1000 * l <= dx * 1_000_000 <= 1000 * l && -1000 * l <= dy * 1_000_000 <= 1000 * l) by (
    nonlinear_arith)
        requires
            abs(dx * 1000) <= l,
            abs(dy * 1000) <= l,
            abs(dx * 1000) == dx * 1000 || abs(dx * 1000) == -(dx * 1000),
            abs(dy * 1000) == dy * 1000 || abs(dy * 1000) == -(dy * 1000),
    ;
    lemma_trunc_div_bound(dx * 1_000_000, l, 1000);
    lemma_trunc_div_bound(dy * 1_000_000, l, 1000);
    let a = abs(dx * 1_000_000);
    let b = abs(dy * 1_000_000);
    lemma_trunc_div_sq(dx * 1_000_000, l);
    lemma_trunc_div_sq(dy * 1_000_000, l);
    let qa = a / l;
    let qb = b / l;
    lemma_div_bracket(a, l);
    lemma_div_bracket(b, l);
    assert(a * a + b * b == big * 1_000_000) by (nonlinear_arith)
        requires
            a == dx * 1_000_000 || a == -(dx * 1_000_000),
            b == dy * 1_000_000 || b == -(dy * 1_000_000),
            big == (dx * dx + dy * dy) * 1_000_000,
    ;
    // upper bound
    assert((qa * qa + qb * qb) * (l * l) <= a * a + b * b) by (nonlinear_arith)
        requires
            0 <= qa * l <= a,
            0 <= qb * l <= b,
    ;
    assert(1_000_000 * ((l + 1) * (l + 1)) <= 1003 * 1003 * (l * l)) by (nonlinear_arith)
        requires
            l >= 1000,
    ;
    assert(qa * qa + qb * qb < 1003 * 1003) by (nonlinear_arith)
        requires
            (qa * qa + qb * qb) * (l * l) <= big * 1_000_000,
            big < (l + 1) * (l + 1),
            1_000_000 * ((l + 1) * (l + 1)) <= 1003 * 1003 * (l * l),
            l >= 1000,
    ;
    // lower bound
    assert(((qa + 1) * (qa + 1) + (qb + 1) * (qb + 1)) * (l * l) > a * a + b * b) by (
    nonlinear_arith)
        requires
            a < (qa + 1) * l,
            b < (qb + 1) * l,
            a >= 0,
            b >= 0,
    ;
    assert((qa + 1) * (qa + 1) + (qb + 1) * (qb + 1) > 1_000_000) by (nonlinear_arith)
        requires
            ((qa + 1) * (qa + 1) + (qb + 1) * (qb + 1)) * (l * l) > big * 1_000_000,
            l * l <= big,
            l >= 1000,
    ;
    lemma_div_pos_is_pos(a, l);
    lemma_div_pos_is_pos(b, l);
    lemma_rounded_length_low(qa, qb);
}

/// A bullet fired at an aim point away from the firing player's position
/// travels in a direction of length `UNIT` within 3.
pub proof fn lemma_new_bullet_normalised(cfg: Config, p: Player, inp: Packet)
    requires
        inp.aim_x != moved_player(cfg, p, inp).x || inp.aim_y != moved_player(cfg, p, inp).y,
    ensures
        ({
            let b = new_bullet(cfg, p, inp);
            &&& -UNIT <= b.dir_x <= UNIT
            &&& -UNIT <= b.dir_y <= UNIT
            &&& (UNIT - 3) * (UNIT - 3) <= b.dir_x * b.dir_x + b.dir_y * b.dir_y <= (UNIT + 3) * (
            UNIT + 3)
        }),
{
    let m = moved_player(cfg, p, inp);
    lemma_aim_direction_normalised(inp.aim_x - m.x, inp.aim_y - m.y);
}

/// A component whose square fits under `n` is at most the square root of `n`.
proof fn lemma_le_isqrt(n: int, r: int, d: int)
    requires
        is_isqrt(n, r),
        d * d <= n,
    ensures
        abs(d) <= r,
{
    if abs(d) > r {
        assert((r + 1) * (r + 1) <= d * d) by (nonlinear_arith)
            requires
                0 <= r,
                r + 1 <= abs(d),
                abs(d) == d || abs(d) == -d,
        ;
    }
}

/// A square no larger than `m * m` has a root no larger than `m`.
proof fn lemma_sq_bound(v: int, w: int, m: int)
    requires
        0 <= m,
        v * v + w * w <= m * m,
    ensures
        -m <= v <= m,
{
    assert(w * w >= 0) by (nonlinear_arith);
    if v > m {
        assert(v * v > m * m) by (nonlinear_arith)
            requires
                0 <= m < v,
        ;
    }
    if v < -m {
        assert(v * v > m * m) by (nonlinear_arith)
            requires
                0 <= m,
                v < -m,
        ;
    }
}

/// The integer square root, rounded down, of `n`.
fn isqrt_exec(n: u128) -> (r: u64)
    requires
        n < 0x40_0000_0000_0000_0000_0000u128,
    ensures
        r == isqrt(n as int),
        is_isqrt(n as int, r as int),
        r <= 0x800_0000_0000u64,
{
    let mut lo: u128 = 0;
    let mut hi: u128 = 0x800_0000_0000;
    assert(hi * hi == 0x40_0000_0000_0000_0000_0000u128);
    while hi - lo > 1
        invariant
            lo < hi <= 0x800_0000_0000,
            lo * lo <= n,
            n < hi * hi,
        decreases hi - lo,
    {
        let mid = lo + (hi - lo) / 2;
        assert(mid * mid <= 0x40_0000_0000_0000_0000_0000) by (nonlinear_arith)
            requires
                mid <= 0x800_0000_0000,
        ;
        if mid * mid <= n {
            lo = mid;
        } else {
            hi = mid;
        }
    }
    assert(is_isqrt(n as int, lo as int));
    proof {
        lemma_isqrt_is(n as int, lo as int);
    }
    lo as u64
}

/// `a / b` rounded toward zero.
fn div_toward_zero(a: i128, b: i128) -> (r: i128)
    requires
        b > 0,
        -0x1_0000_0000_0000_0000i128 <= a <= 0x1_0000_0000_0000_0000i128,
    ensures
        r == trunc_div(a as int, b as int),
{
    if a >= 0 {
        ((a as u128) / (b as u128)) as i128
    } else {
        -((((-a) as u128) / (b as u128)) as i128)
    }
}

/// `a / b` rounded toward zero is no larger in magnitude than `m` when
/// `|a| <= m * b`.
proof fn lemma_trunc_div_bound(a: int, b: int, m: int)
    requires
        b > 0,
        m >= 0,
        -m * b <= a <= m * b,
    ensures
        -m <= trunc_div(a, b) <= m,
{
    lemma_div_multiples_vanish(m, b);
    assert(b * m == m * b && -m * b == -(m * b)) by (nonlinear_arith);
    if a >= 0 {
        lemma_div_is_ordered(a, m * b, b);
        lemma_div_pos_is_pos(a, b);
    } else {
        lemma_div_is_ordered(-a, m * b, b);
        lemma_div_pos_is_pos(-a, b);
    }
}

/// The direction, scaled by `UNIT`, from a player's position toward an aim
/// point.
fn aim_toward(x: i64, y: i64, aim_x: i32, aim_y: i32) -> (r: (i64, i64))
    requires
        -COORD_MAX <= x <= COORD_MAX,
        -COORD_MAX <= y <= COORD_MAX,
    ensures
        r.0 == aim_direction(aim_x - x, aim_y - y).0,
        r.1 == aim_direction(aim_x - x, aim_y - y).1,
        -UNIT <= r.0 <= UNIT,
        -UNIT <= r.1 <= UNIT,
        aim_x != x || aim_y != y ==> (UNIT - 3) * (UNIT - 3) <= r.0 * r.0 + r.1 * r.1 <= (UNIT + 3)
            * (UNIT + 3),
{
    let dx: i128 = aim_x as i128 - x as i128;
    let dy: i128 = aim_y as i128 - y as i128;
    assert(dx * dx <= 0x1_0000_0000_0000_0000i128 && dy * dy <= 0x1_0000_0000_0000_0000i128
        && dx * dx >= 0 && dy * dy >= 0) by (nonlinear_arith)
        requires
            -0x1_0000_0000 <= dx <= 0x1_0000_0000,
            -0x1_0000_0000 <= dy <= 0x1_0000_0000,
    ;
    let n: i128 = (dx * dx + dy * dy) * 1_000_000;
    let len = isqrt_exec(n as u128);
    if len == 0 {
        proof {
            if dx != 0 || dy != 0 {
                assert(dx * dx + dy * dy >= 1) by (nonlinear_arith)
                    requires
                        dx != 0 || dy != 0,
                ;
                lemma_le_isqrt(n as int, 0, 1000);
            }
        }
        return (0, 0);
    }
    proof {
        assert(dx != 0 || dy != 0) by {
            if dx == 0 && dy == 0 {
                assert(n == 0);
                assert((len as int) * (len as int) >= 1) by (nonlinear_arith)
                    requires
                        len >= 1,
                ;
            }
        }
        lemma_aim_direction_normalised(dx as int, dy as int);
    }
    let ux = div_toward_zero(dx * 1_000_000, len as i128);
    let uy = div_toward_zero(dy * 1_000_000, len as i128);
    (ux as i64, uy as i64)
}

/// Advances one bullet by a frame of travel.
fn move_bullet(cfg: &Config, b: Bullet) -> (r: Bullet)
    requires
        cfg.wf(),
        bullet_wf(b),
    ensures
        r == bullet_moved(*cfg, b),
        -2 * COORD_MAX <= r.x <= 2 * COORD_MAX,
        -2 * COORD_MAX <= r.y <= 2 * COORD_MAX,
        r.dir_x == b.dir_x && r.dir_y == b.dir_y,
{
    assert(-1000 * COORD_MAX <= b.dir_x * cfg.bullet_speed <= 1000 * COORD_MAX
        && -1000 * COORD_MAX <= b.dir_y * cfg.bullet_speed <= 1000 * COORD_MAX) by (nonlinear_arith)
        requires
            -1000 <= b.dir_x <= 1000,
            -1000 <= b.dir_y <= 1000,
            0 <= cfg.bullet_speed <= COORD_MAX,
    ;
    proof {
        lemma_trunc_div_bound(b.dir_x * cfg.bullet_speed, 1000, COORD_MAX as int);
        lemma_trunc_div_bound(b.dir_y * cfg.bullet_speed, 1000, COORD_MAX as int);
    }
    let mx = div_toward_zero(b.dir_x as i128 * cfg.bullet_speed as i128, 1000);
    let my = div_toward_zero(b.dir_y as i128 * cfg.bullet_speed as i128, 1000);
    Bullet { x: (b.x as i128 + mx) as i64, y: (b.y as i128 + my) as i64, ..b }
}

/// Whether a moved bullet is still within range.
fn bullet_in_range(cfg: &Config, b: &Bullet) -> (r: bool)
    requires
        cfg.wf(),
        -2 * COORD_MAX <= b.x <= 2 * COORD_MAX,
        -2 * COORD_MAX <= b.y <= 2 * COORD_MAX,
    ensures
        r == in_range(*cfg, *b),
{
    let x = b.x as i128;
    let y = b.y as i128;
    let m = cfg.max_range as i128;
    assert(0 <= x * x <= 4_000_000_000_000_000_000 && 0 <= y * y <= 4_000_000_000_000_000_000 && m * m
        <= 1_000_000_000_000_000_000) by (nonlinear_arith)
        requires
            -2_000_000_000 <= x <= 2_000_000_000,
            -2_000_000_000 <= y <= 2_000_000_000,
            0 <= m <= 1_000_000_000,
    ;
    let xx: i128 = x * x;
    let yy: i128 = y * y;
    let mm: i128 = m * m;
    xx + yy <= mm
}

/// The input that applies to handle `h`.
fn packet_for(inputs: &Vec<Packet>, h: usize) -> (r: Packet)
    ensures
        r == input_for(inputs@, h),
{
    if h < inputs.len() {
        inputs[h]
    } else {
        Packet::zero()
    }
}

fn clamp_exec(v: i64, lo: i64, hi: i64) -> (r: i64)
    requires
        lo <= hi,
    ensures
        r == clamp(v as int, lo as int, hi as int),
{
    if v < lo {
        lo
    } else if v > hi {
        hi
    } else {
        v
    }
}

/// `v` moved by `speed` in the direction of the sign of `d`.
fn offset(v: i64, d: i64, speed: i64) -> (r: i64)
    requires
        -1 <= d <= 1,
        -COORD_MAX <= v <= COORD_MAX,
        0 <= speed <= COORD_MAX,
    ensures
        r == v + d * speed,
{
    if d > 0 {
        assert(d * speed == speed) by (nonlinear_arith)
            requires
                d == 1,
        ;
        v + speed
    } else if d < 0 {
        assert(d * speed == -speed) by (nonlinear_arith)
            requires
                d == -1,
        ;
        v - speed
    } else {
        assert(d * speed == 0) by (nonlinear_arith)
            requires
                d == 0,
        ;
        v
    }
}

/// One player's frame: movement, timer, and whether it fires.
fn player_step(cfg: &Config, p: Player, inp: Packet) -> (r: (Player, bool))
    requires
        cfg.wf(),
        player_wf(*cfg, p),
    ensures
        r.0 == player_after(*cfg, p, inp),
        r.1 == fires(*cfg, p, inp),
        player_wf(*cfg, r.0),
{
    let (dx, dy) = direction(inp.input);
    let mut q = p;
    if dx != 0 || dy != 0 {
        q.x = clamp_exec(offset(p.x, dx, cfg.move_speed), -cfg.half_width, cfg.half_width);
        q.y = clamp_exec(offset(p.y, dy, cfg.move_speed), -cfg.half_height, cfg.half_height);
        q.last_dir_x = dx;
        q.last_dir_y = dy;
    }
    let left: u64 = if p.reloading > cfg.frame_duration {
        p.reloading - cfg.frame_duration
    } else {
        0
    };
    let fired = has_fired(inp.input) && left == 0;
    q.reloading = if fired {
        cfg.cooldown
    } else {
        left
    };
    (q, fired)
}

impl World {
    /// Advances the world by one frame, given the input of every handle
    /// (`inputs[h]` is handle `h`'s; a handle without an entry is idle).
    pub fn step(&self, cfg: &Config, inputs: &Vec<Packet>) -> (r: World)
        requires
            cfg.wf(),
            world_wf(*cfg, self@),
        ensures
            r@ == step_spec(*cfg, self@, inputs@),
            world_wf(*cfg, r@),
    {
        let mut bullets: Vec<Bullet> = Vec::new();
        let mut i: usize = 0;
        while i < self.bullets.len()
            invariant
                cfg.wf(),
                world_wf(*cfg, self@),
                i <= self.bullets@.len(),
                bullets@ == bullets_after(*cfg, self.bullets@.take(i as int)),
                forall|k: int| 0 <= k < bullets@.len() ==> bullet_wf(#[trigger] bullets@[k]),
            decreases self.bullets@.len() - i,
        {
            let b0 = self.bullets[i];
            assert(self@.bullets[i as int] == b0);
            assert(bullet_wf(b0));
            let b = move_bullet(cfg, b0);
            assert(self.bullets@.take(i + 1).drop_last() =~= self.bullets@.take(i as int));
            if bullet_in_range(cfg, &b) {
                proof {
                    lemma_sq_bound(b.x as int, b.y as int, cfg.max_range as int);
                    lemma_sq_bound(b.y as int, b.x as int, cfg.max_range as int);
                }
                bullets.push(b);
            }
            i += 1;
        }
        assert(self.bullets@.take(self.bullets@.len() as int) =~= self.bullets@);
        let ghost survivors = bullets@;
        let mut players: Vec<Player> = Vec::new();
        let mut j: usize = 0;
        while j < self.players.len()
            invariant
                cfg.wf(),
                world_wf(*cfg, self@),
                j <= self.players@.len(),
                players@.len() == j,
                forall|k: int|
                    0 <= k < j ==> #[trigger] players@[k] == player_after(
                        *cfg,
                        self.players@[k],
                        input_for(inputs@, self.players@[k].handle),
                    ),
                forall|k: int| 0 <= k < j ==> player_wf(*cfg, #[trigger] players@[k]),
                bullets@ == survivors + spawned(*cfg, self.players@.take(j as int), inputs@),
                forall|k: int| 0 <= k < bullets@.len() ==> bullet_wf(#[trigger] bullets@[k]),
            decreases self.players@.len() - j,
        {
            let p = self.players[j];
            let inp = packet_for(inputs, p.handle);
            assert(self@.players[j as int] == p);
            assert(player_wf(*cfg, p));
            let (q, fired) = player_step(cfg, p, inp);
            assert(self.players@.take(j + 1).drop_last() =~= self.players@.take(j as int));
            if fired {
                let d = aim_toward(q.x, q.y, inp.aim_x, inp.aim_y);
                let nb = Bullet { x: q.x, y: q.y, dir_x: d.0, dir_y: d.1 };
                assert(nb == new_bullet(*cfg, p, inp));
                bullets.push(nb);
                assert(bullets@ =~= survivors + spawned(*cfg, self.players@.take(j + 1), inputs@));
            }
            players.push(q);
            j += 1;
        }
        assert(self.players@.take(self.players@.len() as int) =~= self.players@);
        let r = World { players, bullets };
        assert(r@.players =~= players_after(*cfg, self.players@, inputs@));
        r
    }
}

} // verus!

verus! {

/// The world after `n` frames, frame `k` using `history[k]` as its inputs.
pub open spec fn simulate(cfg: Config, w: WorldView, history: Seq<Seq<Packet>>, n: nat) -> WorldView
    decreases n,
{
    if n == 0 {
        w
    } else {
        step_spec(cfg, simulate(cfg, w, history, (n - 1) as nat), history[n - 1])
    }
}

/// Replaying from the same starting state with the same inputs gives the
/// same state, frame for frame.
pub proof fn lemma_replay_deterministic(
    cfg: Config,
    w1: WorldView,
    w2: WorldView,
    h1: Seq<Seq<Packet>>,
    h2: Seq<Seq<Packet>>,
    n: nat,
)
    requires
        w1 == w2,
        n <= h1.len(),
        n <= h2.len(),
        h1.take(n as int) == h2.take(n as int),
    ensures
        simulate(cfg, w1, h1, n) == simulate(cfg, w2, h2, n),
    decreases n,
{
    if n > 0 {
        assert(h1.take(n - 1) =~= h1.take(n as int).take(n - 1));
        assert(h2.take(n - 1) =~= h2.take(n as int).take(n - 1));
        lemma_replay_deterministic(cfg, w1, w2, h1, h2, (n - 1) as nat);
        assert(h1[n - 1] == h1.take(n as int)[n - 1]);
        assert(h2[n - 1] == h2.take(n as int)[n - 1]);
    }
}

/// A player that has just fired cannot fire again before a full cooldown has
/// elapsed: during the `k` frames after the shot, for `k * frame_duration`
/// below the cooldown, its timer is still running and no input fires.
pub proof fn lemma_fire_rate_limited(cfg: Config, p: Player, shot: Packet, later: Seq<Packet>)
    requires
        fires(cfg, p, shot),
        later.len() * cfg.frame_duration < cfg.cooldown,
    ensures
        forall|k: int|
            0 <= k < later.len() ==> !fires(
                cfg,
                #[trigger] player_run(cfg, player_after(cfg, p, shot), later.take(k)),
                later[k],
            ),
{
    let q = player_after(cfg, p, shot);
    assert forall|k: int| 0 <= k < later.len() implies !fires(
        cfg,
        #[trigger] player_run(cfg, q, later.take(k)),
        later[k],
    ) by {
        assert((k + 1) * cfg.frame_duration <= later.len() * cfg.frame_duration) by (nonlinear_arith)
            requires
                0 <= k < later.len(),
        ;
        assert((k + 1) * cfg.frame_duration == k * cfg.frame_duration + cfg.frame_duration) by (
        nonlinear_arith);
        lemma_reload_after(cfg, q, later, k as nat);
    }
}

/// A player after acting on each input in turn.
pub open spec fn player_run(cfg: Config, p: Player, inputs: Seq<Packet>) -> Player
    decreases inputs.len(),
{
    if inputs.len() == 0 {
        p
    } else {
        player_after(cfg, player_run(cfg, p, inputs.drop_last()), inputs.last())
    }
}

proof fn lemma_reload_after(cfg: Config, q: Player, later: Seq<Packet>, k: nat)
    requires
        q.reloading == cfg.cooldown,
        k <= later.len(),
        k * cfg.frame_duration < cfg.cooldown,
    ensures
        player_run(cfg, q, later.take(k as int)).reloading == cfg.cooldown - k * cfg.frame_duration,
    decreases k,
{
    if k > 0 {
        assert((k - 1) * cfg.frame_duration <= k * cfg.frame_duration) by (nonlinear_arith)
            requires
                k > 0,
        ;
        assert(k * cfg.frame_duration == (k - 1) * cfg.frame_duration + cfg.frame_duration) by (
        nonlinear_arith)
            requires
                k > 0,
        ;
        lemma_reload_after(cfg, q, later, (k - 1) as nat);
        assert(later.take(k as int).drop_last() =~= later.take(k - 1));
        let prev = player_run(cfg, q, later.take(k - 1));
        assert(prev.reloading > cfg.frame_duration);
        assert(player_run(cfg, q, later.take(k as int)) == player_after(cfg, prev, later[k - 1]));
        assert(ticked(prev.reloading, cfg.frame_duration) == prev.reloading - cfg.frame_duration);
        assert(!fires(cfg, prev, later[k - 1]));
    } else {
        assert(later.take(0).len() == 0);
        assert(k * cfg.frame_duration == 0) by (nonlinear_arith)
            requires
                k == 0,
        ;
    }
}

/// A bullet leaves in the very frame whose movement takes it beyond the
/// maximum range, and stays, moved, in every frame that does not.
pub proof fn lemma_despawn_exact(cfg: Config, bs: Seq<Bullet>, b: Bullet)
    ensures
        bullets_after(cfg, bs.push(b)) == bullets_after(cfg, bs) + if in_range(
            cfg,
            bullet_moved(cfg, b),
        ) {
            seq![bullet_moved(cfg, b)]
        } else {
            Seq::empty()
        },
{
    assert(bs.push(b).drop_last() =~= bs);
    assert(bullets_after(cfg, bs).push(bullet_moved(cfg, b)) =~= bullets_after(cfg, bs) + seq![
        bullet_moved(cfg, b),
    ]);
    assert(bullets_after(cfg, bs) + Seq::<Bullet>::empty() =~= bullets_after(cfg, bs));
}

/// Replays `history` from `start`, one frame per entry.
pub fn replay(cfg: &Config, start: World, history: &Vec<Vec<Packet>>) -> (r: World)
    requires
        cfg.wf(),
        world_wf(*cfg, start@),
    ensures
        r@ == simulate(*cfg, start@, history@.map_values(|v: Vec<Packet>| v@), history@.len()),
        world_wf(*cfg, r@),
{
    let ghost hist = history@.map_values(|v: Vec<Packet>| v@);
    let mut w = start;
    let mut k: usize = 0;
    while k < history.len()
        invariant
            cfg.wf(),
            k <= history@.len(),
            hist == history@.map_values(|v: Vec<Packet>| v@),
            w@ == simulate(*cfg, start@, hist, k as nat),
            world_wf(*cfg, w@),
        decreases history@.len() - k,
    {
        w = w.step(cfg, &history[k]);
        k += 1;
    }
    w
}

} // verus!

verus! {

impl Player {
    /// A player at `(x, y)`, facing no direction yet, whose reload timer
    /// has the whole `cooldown` still to run before its first shot.
    pub fn new(handle: usize, x: i64, y: i64, cooldown: u64) -> (r: Player)
        ensures
            r == Player::new_spec(handle, x, y, cooldown),
            r.reloading == cooldown,
    {
        Player { handle, x, y, reloading: cooldown, last_dir_x: 0, last_dir_y: 0 }
    }
}

impl World {
    /// The state a match starts from: handle 0 at (-2, 0) and handle 1 at
    /// (-2, 3), each with a full cooldown to wait before its first shot, and
    /// no bullets.
    pub fn starting(cfg: &Config) -> (r: World)
        ensures
            r@.players == seq![
                Player::new_spec(0, -2000i64, 0, cfg.cooldown),
                Player::new_spec(1, -2000i64, 3000, cfg.cooldown),
            ],
            forall|i: int| 0 <= i < r@.players.len() ==> #[trigger] r@.players[i].reloading == cfg.cooldown,
            r@.bullets.len() == 0,
            cfg.half_width >= 2000 && cfg.half_height >= 3000 ==> world_wf(*cfg, r@),
    {
        let mut players: Vec<Player> = Vec::new();
        players.push(Player::new(0, -2000, 0, cfg.cooldown));
        players.push(Player::new(1, -2000, 3000, cfg.cooldown));
        let r = World { players, bullets: Vec::new() };
        assert(r@.players =~= seq![
            Player::new_spec(0, -2000i64, 0, cfg.cooldown),
            Player::new_spec(1, -2000i64, 3000, cfg.cooldown),
        ]);
        r
    }

    /// Whether every player is inside the playfield and every bullet within
    /// bounds, as the simulation step requires.
    pub fn is_valid(&self, cfg: &Config) -> (r: bool)
        ensures
            r == world_wf(*cfg, self@),
    {
        let mut i: usize = 0;
        while i < self.players.len()
            invariant
                i <= self.players@.len(),
                forall|k: int| 0 <= k < i ==> player_wf(*cfg, #[trigger] self.players@[k]),
            decreases self.players@.len() - i,
        {
            let p = self.players[i];
            let hw = cfg.half_width as i128;
            let hh = cfg.half_height as i128;
            if (p.x as i128) < -hw || (p.x as i128) > hw || (p.y as i128) < -hh || (p.y as i128)
                > hh {
                assert(!player_wf(*cfg, self@.players[i as int]));
                return false;
            }
            i += 1;
        }
        let mut j: usize = 0;
        while j < self.bullets.len()
            invariant
                j <= self.bullets@.len(),
                forall|k: int| 0 <= k < self.players@.len() ==> player_wf(*cfg, #[trigger] self.players@[k]),
                forall|k: int| 0 <= k < j ==> bullet_wf(#[trigger] self.bullets@[k]),
            decreases self.bullets@.len() - j,
        {
            let b = self.bullets[j];
            if b.x < -COORD_MAX || b.x > COORD_MAX || b.y < -COORD_MAX || b.y > COORD_MAX || b.dir_x
                < -UNIT || b.dir_x > UNIT || b.dir_y < -UNIT || b.dir_y > UNIT {
                assert(!bullet_wf(self@.bullets[j as int]));
                return false;
            }
            j += 1;
        }
        true
    }
}

impl Player {
    pub open spec fn new_spec(handle: usize, x: i64, y: i64, cooldown: u64) -> Player {
        Player { handle, x, y, reloading: cooldown, last_dir_x: 0, last_dir_y: 0 }
    }
}

impl Config {
    /// Whether every length of the rules lies in `0..=COORD_MAX`.
    pub fn is_valid(&self) -> (r: bool)
        ensures
            r == self.wf(),
    {
        0 <= self.half_width && self.half_width <= COORD_MAX && 0 <= self.half_height
            && self.half_height <= COORD_MAX && 0 <= self.move_speed && self.move_speed <= COORD_MAX
            && 0 <= self.bullet_speed && self.bullet_speed <= COORD_MAX && 0 <= self.max_range
            && self.max_range <= COORD_MAX
    }
}

} // verus!
