//! The boss encounter: the swarm that stands for the boss's health, the
//! words on the floor, the bullets that completed words fire, and the
//! collisions that wear the boss down.
use vstd::prelude::*;
use crate::chance::random_between;
use crate::dictionary::same_chars;
use crate::spawner::letter_at;
use crate::tray::{copy_chars, is_prefix_of};
use crate::enemy::{in_world, WORLD_LIMIT};
use crate::motion::{
    ceil_sqrt, clamp_to_world, div_toward_zero, from_polar, is_ceil_sqrt, polar, trunc_div,
    vec_in_world, world_clamp, Vec2,
};

verus! {

/// The boss's radius, in micro-pixels: a bullet closer than this hits.
pub const BOSS_RADIUS: i64 = 100_000_000;

/// The boss's health when it appears, one point per swarm letter.
pub const BOSS_STARTING_HEALTH: u32 = 26;

/// The fastest a swarm letter moves, in micro-pixels per tick.
pub const SWARM_MAX_SPEED: i64 = 10_000_000;

/// The swarm letters' random nudge stays below this, in micro-pixels per
/// tick, either way.
pub const SWARM_JITTER: i64 = 1_000_000;

/// The boss's random change of speed per tick, in micro-pixels per second,
/// stays below this either way (five pixels per second).
pub const BOSS_WANDER: i64 = 5_000_000;

/// Half the screen's width, in micro-pixels.
pub const HALF_SCREEN_WIDTH: i64 = 480_000_000;

/// Half the screen's height, in micro-pixels.
pub const HALF_SCREEN_HEIGHT: i64 = 270_000_000;

/// How a bullet moves.
#[derive(Clone, Copy, Debug, PartialEq, Eq, Structural)]
pub enum LetterBulletMode {
    /// At constant velocity.
    Straight,
    /// Losing this many hundredths of its velocity every tick.
    StraightWithDrag(u32),
}

/// How the bullets of one letter spread out.
#[derive(Clone, Copy, Debug, PartialEq, Eq, Structural)]
pub enum SpreadStyle {
    /// Evenly spaced, a sixth of a turn apart.
    Star,
    /// At random angles.
    Circular,
    /// Along the four diagonals.
    X,
}

/// What a letter of a completed floor word fires.
#[derive(Clone, Copy, Debug, PartialEq, Eq, Structural)]
pub struct BulletInfo {
    pub quantity: usize,
    pub spread_style: SpreadStyle,
    pub letter_display: char,
    pub bullet_mode: LetterBulletMode,
}

/// The boss: its place, its speed (micro-pixels per second) and its health.
#[derive(Clone, Copy, Debug, PartialEq, Eq, Structural)]
pub struct Boss {
    pub position: Vec2,
    pub velocity: Vec2,
    pub health: u32,
}

/// One letter of the boss's swarm; its velocity is in micro-pixels per tick.
#[derive(Clone, Copy, Debug, PartialEq, Eq, Structural)]
pub struct BossLetter {
    pub letter: char,
    pub position: Vec2,
    pub velocity: Vec2,
}

/// A word on the floor that the player can type.
pub struct BossFloorWord {
    pub word: Vec<char>,
    pub position: Vec2,
}

/// A bullet; its velocity is in pixels per second, its time left in
/// microseconds.
#[derive(Clone, Copy, Debug, PartialEq, Eq, Structural)]
pub struct LetterBullet {
    pub glyph: char,
    pub position: Vec2,
    pub velocity: Vec2,
    pub time_left: i64,
    pub mode: LetterBulletMode,
}

/// What the letter `c` fires: 'e' eight dragging bullets at random angles,
/// 'i' a twelve-bullet star, 'x' twelve bullets along the diagonals; other
/// letters fire nothing.
pub open spec fn bullet_info_of(c: char) -> Option<BulletInfo> {
    if c == 'e' {
        Some(
            BulletInfo {
                quantity: 8,
                spread_style: SpreadStyle::Circular,
                letter_display: 'E',
                bullet_mode: LetterBulletMode::StraightWithDrag(5),
            },
        )
    } else if c == 'i' {
        Some(
            BulletInfo {
                quantity: 12,
                spread_style: SpreadStyle::Star,
                letter_display: 'I',
                bullet_mode: LetterBulletMode::Straight,
            },
        )
    } else if c == 'x' {
        Some(
            BulletInfo {
                quantity: 12,
                spread_style: SpreadStyle::X,
                letter_display: 'X',
                bullet_mode: LetterBulletMode::Straight,
            },
        )
    } else {
        None
    }
}

/// How long the bullets of `c` live, in microseconds: two seconds for 'x' and
/// 'i', one otherwise.
pub open spec fn bullet_lifetime(c: char) -> int {
    if c == 'x' || c == 'i' {
        2_000_000
    } else {
        1_000_000
    }
}

/// The speeds, in pixels per second, from the first up to (not including)
/// the second, that a spread's bullets fly at: 400 to 600 for a circle, 200
/// to 300 for a star or an X.
pub open spec fn speed_band(style: SpreadStyle) -> (int, int) {
    match style {
        SpreadStyle::Circular => (400, 600),
        _ => (200, 300),
    }
}

/// The length of `v` lies in the spread's speed band.
pub open spec fn in_speed_band(style: SpreadStyle, v: Vec2) -> bool {
    let (lo, hi) = speed_band(style);
    lo * lo <= v.x * v.x + v.y * v.y < hi * hi
}

/// The angle, in degrees, of bullet `i` of a star (a sixth of a turn apart)
/// or of an X (the four diagonals).
pub open spec fn fixed_angle(style: SpreadStyle, i: int) -> int {
    match style {
        SpreadStyle::Star => 60 * (i % 6),
        _ => 45 + 90 * (i % 4),
    }
}

/// `v` is a velocity that bullet `i` of a spread may get: its length lies in
/// the spread's speed band, and it is the vector of a drawn speed (a whole
/// number, one short of the band's top at most) at the bullet's angle: the
/// fixed angle for a star or an X, any whole degree for a circle.
pub open spec fn is_spread_velocity(style: SpreadStyle, i: int, v: Vec2) -> bool {
    &&& in_speed_band(style, v)
    &&& match style {
        SpreadStyle::Circular => exists|m: int, deg: int|
            400 <= m < 599 && 0 <= deg < 360 && #[trigger] polar(m, deg) == (v.x as int, v.y as int),
        _ => exists|m: int|
            200 <= m < 299 && #[trigger] polar(m, fixed_angle(style, i)) == (v.x as int, v.y as int),
    }
}

/// The velocity of bullet `i` of a spread with speed `m`; `deg` is the angle
/// that a circle draws.
pub open spec fn spread_polar(style: SpreadStyle, i: int, m: int, deg: int) -> (int, int) {
    match style {
        SpreadStyle::Circular => polar(m, deg),
        _ => polar(m, fixed_angle(style, i)),
    }
}

/// The zero vector.
pub open spec fn zero_vec() -> Vec2 {
    Vec2 { x: 0, y: 0 }
}

/// What the letter `c` fires.
pub fn letter_to_bullet_info(c: char) -> (r: Option<BulletInfo>)
    ensures
        r == bullet_info_of(c),
{
    if c == 'e' {
        Some(
            BulletInfo {
                quantity: 8,
                spread_style: SpreadStyle::Circular,
                letter_display: 'E',
                bullet_mode: LetterBulletMode::StraightWithDrag(5),
            },
        )
    } else if c == 'i' {
        Some(
            BulletInfo {
                quantity: 12,
                spread_style: SpreadStyle::Star,
                letter_display: 'I',
                bullet_mode: LetterBulletMode::Straight,
            },
        )
    } else if c == 'x' {
        Some(
            BulletInfo {
                quantity: 12,
                spread_style: SpreadStyle::X,
                letter_display: 'X',
                bullet_mode: LetterBulletMode::Straight,
            },
        )
    } else {
        None
    }
}

/// How long the bullets of `c` live, in microseconds.
pub fn bullet_duration(c: char) -> (r: i64)
    ensures
        r == bullet_lifetime(c),
{
    if c == 'x' || c == 'i' {
        2_000_000
    } else {
        1_000_000
    }
}

impl SpreadStyle {
    /// The velocity of bullet `i` of a spread, given the drawn speed and, for
    /// a circle, the drawn angle in degrees.
    pub fn spread_velocity(&self, i: usize, magnitude: i64, angle: i64) -> (v: Vec2)
        requires
            0 <= magnitude <= 1_000_000,
            0 <= angle < 360,
        ensures
            (v.x as int, v.y as int) == spread_polar(*self, i as int, magnitude as int, angle as int),
            magnitude * magnitude <= v.x * v.x + v.y * v.y < (magnitude + 1) * (magnitude + 1),
            -1_000_000 <= v.x <= 1_000_000,
            -1_000_000 <= v.y <= 1_000_000,
    {
        match self {
            SpreadStyle::Star => from_polar(magnitude, (60 * (i % 6)) as i64),
            SpreadStyle::X => from_polar(magnitude, (45 + 90 * (i % 4)) as i64),
            SpreadStyle::Circular => from_polar(magnitude, angle),
        }
    }

    /// Starting offsets and velocities of `quantity` bullets, with the speeds
    /// (and, for a circle, the angles) drawn at random. Every bullet starts at
    /// the spread's centre.
    pub fn random_positions_velocities(&self, quantity: usize) -> (r: Vec<(Vec2, Vec2)>)
        ensures
            r.len() == quantity,
            forall|i: int|
                0 <= i < quantity ==> (#[trigger] r[i]).0 == zero_vec()
                    && is_spread_velocity(*self, i, r[i].1),
            forall|i: int|
                0 <= i < quantity ==> -1_000_000 <= (#[trigger] r[i]).1.x <= 1_000_000 && -1_000_000
                    <= r[i].1.y <= 1_000_000,
    {
        let mut r: Vec<(Vec2, Vec2)> = Vec::new();
        let mut i: usize = 0;
        while i < quantity
            invariant
                0 <= i <= quantity,
                r.len() == i,
                forall|j: int|
                    0 <= j < i ==> (#[trigger] r[j]).0 == zero_vec() && is_spread_velocity(
                        *self,
                        j,
                        r[j].1,
                    ),
                forall|j: int|
                    0 <= j < i ==> -1_000_000 <= (#[trigger] r[j]).1.x <= 1_000_000 && -1_000_000
                        <= r[j].1.y <= 1_000_000,
            decreases quantity - i,
        {
            let (low, high): (i64, i64) = match self {
                SpreadStyle::Circular => (400, 599),
                _ => (200, 299),
            };
            let magnitude = random_between(low, high);
            let angle = match self {
                SpreadStyle::Circular => random_between(0, 360),
                _ => 0,
            };
            let v = self.spread_velocity(i, magnitude, angle);
            proof {
                let (lo, hi) = speed_band(*self);
                assert(lo * lo <= magnitude * magnitude) by (nonlinear_arith)
                    requires
                        0 <= lo <= magnitude,
                ;
                assert((magnitude + 1) * (magnitude + 1) <= hi * hi) by (nonlinear_arith)
                    requires
                        0 <= magnitude + 1 <= hi,
                ;
            }
            r.push((Vec2 { x: 0, y: 0 }, v));
            i = i + 1;
        }
        r
    }
}

/// `b` is one of the bullets that the letter `c` fires from `origin`.
pub open spec fn is_volley_bullet(c: char, origin: Vec2, i: int, b: LetterBullet) -> bool {
    match bullet_info_of(c) {
        Some(info) => {
            &&& b.glyph == info.letter_display
            &&& b.mode == info.bullet_mode
            &&& b.time_left == bullet_lifetime(c)
            &&& b.position == origin
            &&& is_spread_velocity(info.spread_style, i, b.velocity)
        },
        None => false,
    }
}

/// How many bullets the letter `c` fires.
pub open spec fn volley_size(c: char) -> nat {
    match bullet_info_of(c) {
        Some(info) => info.quantity as nat,
        None => 0,
    }
}

/// The bullets that the letter `c` fires from `origin`, which must lie in the
/// world.
pub fn spawn_floor_bullets(c: char, origin: Vec2) -> (r: Vec<LetterBullet>)
    requires
        vec_in_world(origin),
    ensures
        r.len() == volley_size(c),
        forall|i: int| 0 <= i < r.len() ==> is_volley_bullet(c, origin, i, #[trigger] r[i]),
        forall|i: int| 0 <= i < r.len() ==> bullet_ok(#[trigger] r[i]),
{
    let mut r: Vec<LetterBullet> = Vec::new();
    let info = match letter_to_bullet_info(c) {
        Some(info) => info,
        None => return r,
    };
    let spread = info.spread_style.random_positions_velocities(info.quantity);
    let duration = bullet_duration(c);
    let mut i: usize = 0;
    while i < spread.len()
        invariant
            bullet_info_of(c) == Some(info),
            duration == bullet_lifetime(c),
            vec_in_world(origin),
            spread.len() == info.quantity,
            forall|j: int|
                0 <= j < info.quantity ==> (#[trigger] spread[j]).0 == zero_vec()
                    && is_spread_velocity(info.spread_style, j, spread[j].1),
            forall|j: int|
                0 <= j < info.quantity ==> -1_000_000 <= (#[trigger] spread[j]).1.x <= 1_000_000
                    && -1_000_000 <= spread[j].1.y <= 1_000_000,
            0 <= i <= spread.len(),
            r.len() == i,
            forall|j: int| 0 <= j < i ==> is_volley_bullet(c, origin, j, #[trigger] r[j]),
            forall|j: int| 0 <= j < i ==> bullet_ok(#[trigger] r[j]),
        decreases spread.len() - i,
    {
        let (offset, velocity) = spread[i];
        let position = Vec2 { x: origin.x + offset.x, y: origin.y + offset.y };
        r.push(
            LetterBullet {
                glyph: info.letter_display,
                position,
                velocity,
                time_left: duration,
                mode: info.bullet_mode,
            },
        );
        i = i + 1;
    }
    r
}

/// A bullet in good order: inside the world, still alive, its drag at most
/// the whole velocity.
pub open spec fn bullet_ok(b: LetterBullet) -> bool {
    &&& vec_in_world(b.position)
    &&& vec_in_world(b.velocity)
    &&& b.time_left > 0
    &&& match b.mode {
        LetterBulletMode::Straight => true,
        LetterBulletMode::StraightWithDrag(k) => k <= 100,
    }
}

/// `r` is `v` with its length held to `max`: a vector no longer than `max`
/// stays as it is; a longer one is scaled by `max` over its length (the least
/// integer whose square reaches the squared length), rounding toward zero.
pub open spec fn is_length_clamped(vx: int, vy: int, max: int, r: Vec2) -> bool {
    let n = vx * vx + vy * vy;
    if n <= max * max {
        r.x == vx && r.y == vy
    } else {
        exists|len: int|
            #[trigger] is_ceil_sqrt(n, len) && r.x == trunc_div(vx * max, len) && r.y == trunc_div(
                vy * max,
                len,
            )
    }
}

proof fn lemma_component_within_length(a: int, n: int, len: int)
    requires
        a * a <= n,
        n <= len * len,
        len >= 0,
    ensures
        -len <= a <= len,
{
    if a > len {
        assert(a * a > len * len) by (nonlinear_arith)
            requires
                a > len,
                len >= 0,
        ;
    }
    if a < -len {
        assert(a * a > len * len) by (nonlinear_arith)
            requires
                a < -len,
                len >= 0,
        ;
    }
}

proof fn lemma_scaled_within(a: int, max: int, len: int)
    requires
        -len <= a <= len,
        0 < max < len,
    ensures
        -max <= trunc_div(a * max, len) <= max,
{
    if a >= 0 {
        assert(0 <= a * max <= len * max) by (nonlinear_arith)
            requires
                0 <= a <= len,
                max > 0,
        ;
        assert(a * max / len <= max) by (nonlinear_arith)
            requires
                0 <= a * max <= len * max,
                len > 0,
        ;
        assert(a * max / len >= 0) by (nonlinear_arith)
            requires
                0 <= a * max,
                len > 0,
        ;
    } else {
        assert(0 <= (-a) * max <= len * max) by (nonlinear_arith)
            requires
                0 <= -a <= len,
                max > 0,
        ;
        assert(-(a * max) == (-a) * max) by (nonlinear_arith);
        assert((-a) * max / len <= max) by (nonlinear_arith)
            requires
                0 <= (-a) * max <= len * max,
                len > 0,
        ;
        assert((-a) * max / len >= 0) by (nonlinear_arith)
            requires
                0 <= (-a) * max,
                len > 0,
        ;
    }
}

/// Holds the length of `(vx, vy)` to `max`.
pub fn clamp_length(vx: i128, vy: i128, max: i64) -> (r: Vec2)
    requires
        -0x4000_0000_0000_0000 <= vx <= 0x4000_0000_0000_0000,
        -0x4000_0000_0000_0000 <= vy <= 0x4000_0000_0000_0000,
        0 < max <= WORLD_LIMIT,
    ensures
        is_length_clamped(vx as int, vy as int, max as int, r),
        -max <= r.x <= max,
        -max <= r.y <= max,
{
    assert(0 <= vx * vx <= 0x1000_0000_0000_0000_0000_0000_0000_0000) by (nonlinear_arith)
        requires
            -0x4000_0000_0000_0000 <= vx <= 0x4000_0000_0000_0000,
    ;
    assert(0 <= vy * vy <= 0x1000_0000_0000_0000_0000_0000_0000_0000) by (nonlinear_arith)
        requires
            -0x4000_0000_0000_0000 <= vy <= 0x4000_0000_0000_0000,
    ;
    let xx = vx * vx;
    let yy = vy * vy;
    let n = xx + yy;
    let m = max as i128;
    assert(m * m <= 0x1000_0000_0000_0000_0000_0000_0000_0000) by (nonlinear_arith)
        requires
            0 < m <= WORLD_LIMIT,
    ;
    if n <= m * m {
        proof {
            lemma_component_within_length(vx as int, n as int, m as int);
            lemma_component_within_length(vy as int, n as int, m as int);
        }
        Vec2 { x: vx as i64, y: vy as i64 }
    } else {
        let len = ceil_sqrt(n as u128) as i128;
        proof {
            if len <= m {
                assert(len * len <= m * m) by (nonlinear_arith)
                    requires
                        0 <= len <= m,
                ;
            }
            lemma_component_within_length(vx as int, n as int, len as int);
            lemma_component_within_length(vy as int, n as int, len as int);
            lemma_scaled_within(vx as int, m as int, len as int);
            lemma_scaled_within(vy as int, m as int, len as int);
        }
        assert(-0x4000_0000_0000_0000 * WORLD_LIMIT <= vx * m <= 0x4000_0000_0000_0000 * WORLD_LIMIT)
            by (nonlinear_arith)
            requires
                -0x4000_0000_0000_0000 <= vx <= 0x4000_0000_0000_0000,
                0 < m <= WORLD_LIMIT,
        ;
        assert(-0x4000_0000_0000_0000 * WORLD_LIMIT <= vy * m <= 0x4000_0000_0000_0000 * WORLD_LIMIT)
            by (nonlinear_arith)
            requires
                -0x4000_0000_0000_0000 <= vy <= 0x4000_0000_0000_0000,
                0 < m <= WORLD_LIMIT,
        ;
        let x = div_toward_zero(vx * m, len);
        let y = div_toward_zero(vy * m, len);
        Vec2 { x: x as i64, y: y as i64 }
    }
}

/// The pull toward the boss along one axis: half the distance per second.
pub open spec fn swarm_pull(distance: int, dt_us: int) -> int {
    trunc_div(distance * dt_us, 2_000_000)
}

/// `next` is where the swarm letter `l` goes in one tick toward a boss at
/// `target`: its velocity gains the pull and the jitter, is held to the
/// swarm's top speed, and then moves the letter.
pub open spec fn is_swarm_step(l: BossLetter, target: Vec2, dt_us: int, jitter: Vec2, next: BossLetter) -> bool {
    let vx = l.velocity.x + swarm_pull(target.x - l.position.x, dt_us) + jitter.x;
    let vy = l.velocity.y + swarm_pull(target.y - l.position.y, dt_us) + jitter.y;
    &&& next.letter == l.letter
    &&& is_length_clamped(vx, vy, SWARM_MAX_SPEED as int, next.velocity)
    &&& next.position.x == world_clamp(l.position.x + next.velocity.x)
    &&& next.position.y == world_clamp(l.position.y + next.velocity.y)
}

/// `next` is a step of `l` toward `target` with some jitter below one pixel
/// either way.
pub open spec fn is_jittered_swarm_step(l: BossLetter, target: Vec2, dt_us: int, next: BossLetter) -> bool {
    exists|j: Vec2|
        -SWARM_JITTER < j.x < SWARM_JITTER && -SWARM_JITTER < j.y < SWARM_JITTER
            && #[trigger] is_swarm_step(l, target, dt_us, j, next)
}

/// A swarm letter in good order: inside the world, no faster than the top
/// speed along either axis.
pub open spec fn letter_ok(l: BossLetter) -> bool {
    &&& vec_in_world(l.position)
    &&& -SWARM_MAX_SPEED <= l.velocity.x <= SWARM_MAX_SPEED
    &&& -SWARM_MAX_SPEED <= l.velocity.y <= SWARM_MAX_SPEED
}

fn pull_toward(from: i64, to: i64, dt_us: u32) -> (r: i128)
    requires
        in_world(from),
        in_world(to),
    ensures
        r == swarm_pull(to - from, dt_us as int),
        -0x3C00_0000_0000_0000 <= r <= 0x3C00_0000_0000_0000,
{
    let d: i128 = to as i128 - from as i128;
    assert(-2 * WORLD_LIMIT * 0x1_0000_0000 <= d * dt_us <= 2 * WORLD_LIMIT * 0x1_0000_0000)
        by (nonlinear_arith)
        requires
            -2 * WORLD_LIMIT <= d <= 2 * WORLD_LIMIT,
            0 <= dt_us < 0x1_0000_0000,
    ;
    let r = div_toward_zero(d * (dt_us as i128), 2_000_000);
    r
}

/// One tick of the swarm letter `l` toward a boss at `target`, with the
/// drawn jitter.
pub fn swarm_step(l: BossLetter, target: Vec2, dt_us: u32, jitter: Vec2) -> (next: BossLetter)
    requires
        letter_ok(l),
        vec_in_world(target),
        -SWARM_JITTER <= jitter.x <= SWARM_JITTER,
        -SWARM_JITTER <= jitter.y <= SWARM_JITTER,
    ensures
        is_swarm_step(l, target, dt_us as int, jitter, next),
        letter_ok(next),
{
    let px = pull_toward(l.position.x, target.x, dt_us);
    let py = pull_toward(l.position.y, target.y, dt_us);
    let vx: i128 = l.velocity.x as i128 + px + jitter.x as i128;
    let vy: i128 = l.velocity.y as i128 + py + jitter.y as i128;
    let v = clamp_length(vx, vy, SWARM_MAX_SPEED);
    let x = clamp_to_world(l.position.x as i128 + v.x as i128);
    let y = clamp_to_world(l.position.y as i128 + v.y as i128);
    BossLetter { letter: l.letter, position: Vec2 { x, y }, velocity: v }
}

/// The boss's velocity along one axis after the screen's edge: past the low
/// edge it turns (or stays) positive, past the high edge negative, and either
/// way loses a fifth.
pub open spec fn bounced(p: int, v: int, half: int) -> int {
    let speed = if v >= 0 { v } else { -v };
    if p < -half {
        speed * 4 / 5
    } else if p > half {
        -(speed * 4 / 5)
    } else {
        v
    }
}

/// `next` is the boss after one tick of `dt_us` microseconds with the drawn
/// change of speed: it moves at its velocity, then the velocity takes the
/// change and bounces off the screen's edges.
pub open spec fn is_boss_step(b: Boss, dt_us: int, wander: Vec2, next: Boss) -> bool {
    &&& next.health == b.health
    &&& next.position.x == world_clamp(b.position.x + trunc_div(b.velocity.x * dt_us, 1_000_000))
    &&& next.position.y == world_clamp(b.position.y + trunc_div(b.velocity.y * dt_us, 1_000_000))
    &&& next.velocity.x == bounced(
        next.position.x as int,
        world_clamp(b.velocity.x + wander.x),
        HALF_SCREEN_WIDTH as int,
    )
    &&& next.velocity.y == bounced(
        next.position.y as int,
        world_clamp(b.velocity.y + wander.y),
        HALF_SCREEN_HEIGHT as int,
    )
}

/// `next` is the boss after one tick with some change of speed drawn from
/// `-BOSS_WANDER` up to, not including, `BOSS_WANDER` along each axis.
pub open spec fn is_wandered(b: Boss, dt_us: int, next: Boss) -> bool {
    exists|w: Vec2|
        -BOSS_WANDER <= w.x < BOSS_WANDER && -BOSS_WANDER <= w.y < BOSS_WANDER
            && #[trigger] is_boss_step(b, dt_us, w, next)
}

fn bounce(p: i64, v: i64, half: i64) -> (r: i64)
    requires
        in_world(v),
        0 < half,
    ensures
        r == bounced(p as int, v as int, half as int),
        in_world(r),
{
    let speed: i64 = if v >= 0 { v } else { -v };
    if p < -half {
        speed * 4 / 5
    } else if p > half {
        -(speed * 4 / 5)
    } else {
        v
    }
}

fn advance(p: i64, v: i64, dt_us: u32) -> (r: i64)
    requires
        in_world(p),
        in_world(v),
    ensures
        r == world_clamp(p + v * dt_us),
        in_world(r),
{
    assert(-WORLD_LIMIT * 0x1_0000_0000 <= v * dt_us <= WORLD_LIMIT * 0x1_0000_0000)
        by (nonlinear_arith)
        requires
            in_world(v),
            0 <= dt_us < 0x1_0000_0000,
    ;
    clamp_to_world(p as i128 + (v as i128) * (dt_us as i128))
}

fn advance_slow(p: i64, v: i64, dt_us: u32) -> (r: i64)
    requires
        in_world(p),
        in_world(v),
    ensures
        r == world_clamp(p + trunc_div(v * dt_us, 1_000_000)),
        in_world(r),
{
    assert(-WORLD_LIMIT * 0x1_0000_0000 <= v * dt_us <= WORLD_LIMIT * 0x1_0000_0000)
        by (nonlinear_arith)
        requires
            in_world(v),
            0 <= dt_us < 0x1_0000_0000,
    ;
    let d = div_toward_zero((v as i128) * (dt_us as i128), 1_000_000);
    proof {
        let a = v * dt_us;
        if a >= 0 {
            assert(a / 1_000_000 <= a) by (nonlinear_arith)
                requires
                    a >= 0,
            ;
        } else {
            assert((-a) / 1_000_000 <= -a) by (nonlinear_arith)
                requires
                    -a > 0,
            ;
        }
    }
    clamp_to_world(p as i128 + d)
}

/// One tick of the boss's wandering, with the drawn change of speed.
pub fn boss_step(b: Boss, dt_us: u32, wander: Vec2) -> (next: Boss)
    requires
        vec_in_world(b.position),
        vec_in_world(b.velocity),
        -BOSS_WANDER <= wander.x < BOSS_WANDER,
        -BOSS_WANDER <= wander.y < BOSS_WANDER,
    ensures
        is_boss_step(b, dt_us as int, wander, next),
        vec_in_world(next.position),
        vec_in_world(next.velocity),
{
    let x = advance_slow(b.position.x, b.velocity.x, dt_us);
    let y = advance_slow(b.position.y, b.velocity.y, dt_us);
    let vx = clamp_to_world(b.velocity.x as i128 + wander.x as i128);
    let vy = clamp_to_world(b.velocity.y as i128 + wander.y as i128);
    Boss {
        position: Vec2 { x, y },
        velocity: Vec2 {
            x: bounce(x, vx, HALF_SCREEN_WIDTH),
            y: bounce(y, vy, HALF_SCREEN_HEIGHT),
        },
        health: b.health,
    }
}

/// The velocity of a bullet after its drag for one tick.
pub open spec fn dragged(mode: LetterBulletMode, v: int) -> int {
    match mode {
        LetterBulletMode::Straight => v,
        LetterBulletMode::StraightWithDrag(k) => trunc_div(v * (100 - k), 100),
    }
}

/// What becomes of bullet `b` in one tick: its velocity takes the drag, it
/// moves at the new velocity and its time runs down; when none is left it is
/// gone.
pub open spec fn bullet_after(b: LetterBullet, dt_us: int) -> Option<LetterBullet> {
    if b.time_left - dt_us <= 0 {
        None
    } else {
        let vx = dragged(b.mode, b.velocity.x as int);
        let vy = dragged(b.mode, b.velocity.y as int);
        Some(
            LetterBullet {
                position: Vec2 {
                    x: world_clamp(b.position.x + vx * dt_us) as i64,
                    y: world_clamp(b.position.y + vy * dt_us) as i64,
                },
                velocity: Vec2 { x: vx as i64, y: vy as i64 },
                time_left: (b.time_left - dt_us) as i64,
                ..b
            },
        )
    }
}

fn drag(mode: LetterBulletMode, v: i64) -> (r: i64)
    requires
        in_world(v),
        match mode {
            LetterBulletMode::Straight => true,
            LetterBulletMode::StraightWithDrag(k) => k <= 100,
        },
    ensures
        r == dragged(mode, v as int),
        in_world(r),
{
    match mode {
        LetterBulletMode::Straight => v,
        LetterBulletMode::StraightWithDrag(k) => {
            let keep: i128 = 100 - k as i128;
            assert(-WORLD_LIMIT * 100 <= v * keep <= WORLD_LIMIT * 100) by (nonlinear_arith)
                requires
                    in_world(v),
                    0 <= keep <= 100,
            ;
            let r = div_toward_zero((v as i128) * keep, 100);
            proof {
                let a = v * keep;
                if a >= 0 {
                    assert(a / 100 <= WORLD_LIMIT) by (nonlinear_arith)
                        requires
                            0 <= a <= WORLD_LIMIT * 100,
                    ;
                } else {
                    assert((-a) / 100 <= WORLD_LIMIT) by (nonlinear_arith)
                        requires
                            0 <= -a <= WORLD_LIMIT * 100,
                    ;
                }
            }
            r as i64
        },
    }
}

/// One tick of a bullet's flight; `None` when its time has run out.
pub fn bullet_step(b: LetterBullet, dt_us: u32) -> (r: Option<LetterBullet>)
    requires
        bullet_ok(b),
    ensures
        r == bullet_after(b, dt_us as int),
        match r {
            Some(n) => bullet_ok(n),
            None => true,
        },
{
    let left: i64 = b.time_left - dt_us as i64;
    if left <= 0 {
        return None;
    }
    let vx = drag(b.mode, b.velocity.x);
    let vy = drag(b.mode, b.velocity.y);
    let x = advance(b.position.x, vx, dt_us);
    let y = advance(b.position.y, vy, dt_us);
    Some(
        LetterBullet {
            glyph: b.glyph,
            position: Vec2 { x, y },
            velocity: Vec2 { x: vx, y: vy },
            time_left: left,
            mode: b.mode,
        },
    )
}

/// Whether the boss still fights.
#[derive(Clone, Copy, Debug, PartialEq, Eq, Structural)]
pub enum BossState {
    Swarming,
    Defeated,
}

/// A bullet close enough to the boss at `p` to hit it.
pub open spec fn overlaps(b: LetterBullet, p: Vec2) -> bool {
    let dx = b.position.x - p.x;
    let dy = b.position.y - p.y;
    dx * dx + dy * dy < BOSS_RADIUS * BOSS_RADIUS
}

/// The bullets that stay and the health that is left once the bullets `bs`
/// are checked in order against a boss at `p` with health `health`: each
/// bullet that overlaps the boss while it has health takes one point and is
/// gone.
pub open spec fn resolve_hits(bs: Seq<LetterBullet>, p: Vec2, health: nat) -> (Seq<LetterBullet>, nat)
    decreases bs.len(),
{
    if bs.len() == 0 {
        (bs, health)
    } else {
        let (kept, h) = resolve_hits(bs.drop_last(), p, health);
        if h > 0 && overlaps(bs.last(), p) {
            (kept, (h - 1) as nat)
        } else {
            (kept.push(bs.last()), h)
        }
    }
}

/// The bullets `bs` after one tick of flight, those whose time ran out gone.
pub open spec fn bullets_after(bs: Seq<LetterBullet>, dt_us: int) -> Seq<LetterBullet>
    decreases bs.len(),
{
    if bs.len() == 0 {
        bs
    } else {
        let rest = bullets_after(bs.drop_last(), dt_us);
        match bullet_after(bs.last(), dt_us) {
            Some(n) => rest.push(n),
            None => rest,
        }
    }
}

/// How many bullets the letters of `w` fire together.
pub open spec fn word_volley_size(w: Seq<char>) -> nat
    decreases w.len(),
{
    if w.len() == 0 {
        0
    } else {
        word_volley_size(w.drop_last()) + volley_size(w.last())
    }
}

/// How many bullets completing `typed` fires from the floor words `texts`:
/// one volley for each floor word equal to it.
pub open spec fn fired_count(texts: Seq<Seq<char>>, typed: Seq<char>) -> nat
    decreases texts.len(),
{
    if texts.len() == 0 {
        0
    } else {
        fired_count(texts.drop_last(), typed) + if texts.last() == typed {
            word_volley_size(typed)
        } else {
            0
        }
    }
}

/// `b` is a bullet that one of the letters of `typed` fires from a floor
/// word of `words` whose text is `typed`.
pub open spec fn is_fired_bullet(words: Seq<BossFloorWord>, typed: Seq<char>, b: LetterBullet) -> bool {
    exists|k: int, j: int, i: int|
        0 <= k < words.len() && words[k].word@ == typed && 0 <= j < typed.len()
            && #[trigger] is_volley_bullet(typed[j], words[k].position, i, b)
}

/// The words put on the floor when no word was collected.
pub open spec fn backup_words() -> Seq<Seq<char>> {
    seq![
        seq!['t', 'h', 'e'],
        seq!['q', 'u', 'i', 'c', 'k'],
        seq!['b', 'r', 'o', 'w', 'n'],
        seq!['f', 'o', 'x'],
        seq!['j', 'u', 'm', 'p', 's'],
        seq!['o', 'v', 'e', 'r'],
        seq!['t', 'h', 'e'],
        seq!['l', 'a', 'z', 'y'],
        seq!['d', 'o', 'g'],
    ]
}

/// A point on the screen.
pub open spec fn on_screen(p: Vec2) -> bool {
    -HALF_SCREEN_WIDTH <= p.x < HALF_SCREEN_WIDTH && -HALF_SCREEN_HEIGHT <= p.y < HALF_SCREEN_HEIGHT
}

/// The words on the floor when no word was collected.
pub fn backup_floor_words() -> (r: Vec<Vec<char>>)
    ensures
        r@.map_values(|w: Vec<char>| w@) == backup_words(),
{
    let r: Vec<Vec<char>> = vec![
        vec!['t', 'h', 'e'],
        vec!['q', 'u', 'i', 'c', 'k'],
        vec!['b', 'r', 'o', 'w', 'n'],
        vec!['f', 'o', 'x'],
        vec!['j', 'u', 'm', 'p', 's'],
        vec!['o', 'v', 'e', 'r'],
        vec!['t', 'h', 'e'],
        vec!['l', 'a', 'z', 'y'],
        vec!['d', 'o', 'g'],
    ];
    assert(r@.map_values(|w: Vec<char>| w@) =~= backup_words());
    r
}

/// Where a swarm letter may start: from fifty pixels below the centre to
/// under fifty above along each axis, moving from five pixels per tick one
/// way to under five the other along each, showing a letter from 'a' to 'y'.
pub open spec fn swarm_start(l: BossLetter) -> bool {
    &&& -50_000_000 <= l.position.x < 50_000_000
    &&& -50_000_000 <= l.position.y < 50_000_000
    &&& -5_000_000 <= l.velocity.x < 5_000_000
    &&& -5_000_000 <= l.velocity.y < 5_000_000
    &&& 'a' <= l.letter <= 'y'
}

/// `new` is `old` after a confirm of `typed`: every floor word equal to
/// `typed` has fired its volleys, which follow the old bullets; nothing else
/// changes.
pub open spec fn arena_fired(old: BossArena, new: BossArena, typed: Seq<char>) -> bool {
    &&& new.bullets.len() == old.bullets.len() + fired_count(old.floor_texts(), typed)
    &&& new.bullets@.subrange(0, old.bullets.len() as int) == old.bullets@
    &&& forall|n: int|
        old.bullets.len() <= n < new.bullets.len() ==> is_fired_bullet(
            old.floor_words@,
            typed,
            #[trigger] new.bullets[n],
        )
    &&& new.boss == old.boss
    &&& new.letters == old.letters
    &&& new.floor_words == old.floor_words
    &&& new.state == old.state
}

/// `new` is `old` after one tick of `dt_us` microseconds that cost the boss
/// `hits` points. While the boss swarms: each remaining swarm letter has taken
/// its step toward the boss, the boss has wandered, the bullets have flown,
/// and the bullets overlapping the boss where it now stands have hit it while
/// it had health; as many swarm letters as points lost are gone. Without a
/// boss, or once it is defeated, nothing changes.
pub open spec fn arena_ticked(old: BossArena, new: BossArena, dt_us: int, hits: u32) -> bool {
    &&& new.floor_words == old.floor_words
    &&& match old.boss {
        Some(b) => if old.state == BossState::Swarming {
            let nb = new.boss.unwrap();
            let (kept, h) = resolve_hits(bullets_after(old.bullets@, dt_us), nb.position, b.health as nat);
            &&& new.boss.is_some()
            &&& new.bullets@ == kept
            &&& nb.health == h
            &&& hits == b.health - h
            &&& new.letters.len() == h
            &&& forall|i: int|
                0 <= i < h ==> #[trigger] is_jittered_swarm_step(
                    old.letters[i],
                    b.position,
                    dt_us,
                    new.letters[i],
                )
            &&& is_wandered(b, dt_us, Boss { health: b.health, ..nb })
            &&& new.state == if h == 0 {
                BossState::Defeated
            } else {
                BossState::Swarming
            }
        } else {
            &&& hits == 0
            &&& new.boss == old.boss
            &&& new.letters == old.letters
            &&& new.bullets == old.bullets
            &&& new.state == old.state
        },
        None => {
            &&& hits == 0
            &&& new.boss == old.boss
            &&& new.letters == old.letters
            &&& new.bullets == old.bullets
            &&& new.state == old.state
        },
    }
}

/// The boss fight: the boss, its swarm, the floor words and the bullets.
pub struct BossArena {
    pub boss: Option<Boss>,
    pub letters: Vec<BossLetter>,
    pub floor_words: Vec<BossFloorWord>,
    pub bullets: Vec<LetterBullet>,
    pub state: BossState,
}

impl BossArena {
    /// The floor words' texts.
    pub open spec fn floor_texts(&self) -> Seq<Seq<char>> {
        self.floor_words@.map_values(|f: BossFloorWord| f.word@)
    }

    /// The arena's invariant: one swarm letter per point of the boss's
    /// health, defeat exactly at zero health, and everything inside the world.
    pub open spec fn wf(&self) -> bool {
        &&& match self.boss {
            Some(b) => {
                &&& vec_in_world(b.position)
                &&& vec_in_world(b.velocity)
                &&& self.letters.len() == b.health
                &&& (self.state == BossState::Defeated) == (b.health == 0)
            },
            None => self.letters.len() == 0 && self.state == BossState::Swarming,
        }
        &&& forall|i: int| 0 <= i < self.letters.len() ==> letter_ok(#[trigger] self.letters[i])
        &&& forall|i: int| 0 <= i < self.bullets.len() ==> bullet_ok(#[trigger] self.bullets[i])
        &&& forall|i: int|
            0 <= i < self.floor_words.len() ==> vec_in_world(#[trigger] self.floor_words[i].position)
    }

    /// An arena with no boss, no words and no bullets.
    pub fn new() -> (a: BossArena)
        ensures
            a.wf(),
            a.boss.is_none(),
            a.letters@ == Seq::<BossLetter>::empty(),
            a.floor_words@.len() == 0,
            a.bullets@ == Seq::<LetterBullet>::empty(),
            a.state == BossState::Swarming,
    {
        BossArena {
            boss: None,
            letters: Vec::new(),
            floor_words: Vec::new(),
            bullets: Vec::new(),
            state: BossState::Swarming,
        }
    }

    /// The boss appears at the centre, at rest, with its full health and one
    /// swarm letter per point of it, scattered up to fifty pixels around the
    /// centre with random letters and speeds.
    pub fn spawn_boss(&mut self)
        requires
            old(self).wf(),
        ensures
            final(self).wf(),
            final(self).boss == Some(
                Boss {
                    position: Vec2 { x: 0, y: 0 },
                    velocity: Vec2 { x: 0, y: 0 },
                    health: BOSS_STARTING_HEALTH,
                },
            ),
            final(self).letters.len() == BOSS_STARTING_HEALTH,
            forall|i: int|
                0 <= i < BOSS_STARTING_HEALTH ==> swarm_start(#[trigger] final(self).letters[i]),
            final(self).state == BossState::Swarming,
            final(self).bullets == old(self).bullets,
            final(self).floor_words == old(self).floor_words,
    {
        let mut letters: Vec<BossLetter> = Vec::new();
        let mut i: u32 = 0;
        while i < BOSS_STARTING_HEALTH
            invariant
                0 <= i <= BOSS_STARTING_HEALTH,
                letters.len() == i,
                forall|j: int| 0 <= j < letters.len() ==> letter_ok(#[trigger] letters[j]),
                forall|j: int| 0 <= j < letters.len() ==> swarm_start(#[trigger] letters[j]),
            decreases BOSS_STARTING_HEALTH - i,
        {
            let x = random_between(-50_000_000, 50_000_000);
            let y = random_between(-50_000_000, 50_000_000);
            let vx = random_between(-5_000_000, 5_000_000);
            let vy = random_between(-5_000_000, 5_000_000);
            let index = random_between(0, 25);
            let letter = letter_at(index as usize);
            letters.push(
                BossLetter { letter, position: Vec2 { x, y }, velocity: Vec2 { x: vx, y: vy } },
            );
            i = i + 1;
        }
        self.letters = letters;
        self.boss = Some(
            Boss {
                position: Vec2 { x: 0, y: 0 },
                velocity: Vec2 { x: 0, y: 0 },
                health: BOSS_STARTING_HEALTH,
            },
        );
        self.state = BossState::Swarming;
    }

    /// Scatters words on the floor at random places on the screen: the
    /// collected words, or the backup words when none was collected.
    pub fn spawn_words_on_the_ground(&mut self, collected: &Vec<Vec<char>>)
        requires
            old(self).wf(),
        ensures
            final(self).wf(),
            final(self).floor_texts() == old(self).floor_texts() + if collected.len() == 0 {
                backup_words()
            } else {
                collected@.map_values(|w: Vec<char>| w@)
            },
            forall|i: int|
                old(self).floor_words.len() <= i < final(self).floor_words.len() ==> on_screen(
                    #[trigger] final(self).floor_words[i].position,
                ),
            final(self).boss == old(self).boss,
            final(self).letters == old(self).letters,
            final(self).bullets == old(self).bullets,
            final(self).state == old(self).state,
    {
        let backup = backup_floor_words();
        let words = if collected.len() == 0 {
            &backup
        } else {
            collected
        };
        let ghost texts = words@.map_values(|w: Vec<char>| w@);
        let ghost start = self.floor_texts();
        let ghost first = self.floor_words.len();
        let mut i: usize = 0;
        while i < words.len()
            invariant
                texts == words@.map_values(|w: Vec<char>| w@),
                0 <= i <= words.len(),
                first <= self.floor_words.len(),
                self.floor_texts() == start + texts.subrange(0, i as int),
                self.wf(),
                forall|j: int|
                    first <= j < self.floor_words.len() ==> on_screen(
                        #[trigger] self.floor_words[j].position,
                    ),
                self.boss == old(self).boss,
                self.letters == old(self).letters,
                self.bullets == old(self).bullets,
                self.state == old(self).state,
            decreases words.len() - i,
        {
            let x = random_between(-HALF_SCREEN_WIDTH, HALF_SCREEN_WIDTH);
            let y = random_between(-HALF_SCREEN_HEIGHT, HALF_SCREEN_HEIGHT);
            let word = copy_chars(&words[i]);
            let ghost before = self.floor_texts();
            self.floor_words.push(BossFloorWord { word, position: Vec2 { x, y } });
            assert(self.floor_texts() =~= before.push(texts[i as int]));
            assert(texts.subrange(0, i + 1) =~= texts.subrange(0, i as int).push(texts[i as int]));
            i = i + 1;
        }
        assert(texts.subrange(0, words.len() as int) =~= texts);
        proof {
            if collected.len() == 0 {
                assert(texts == backup_words());
            }
        }
    }

    /// Every swarm letter takes one tick toward the boss, each with a jitter
    /// drawn below one pixel either way. Without a boss, or once it is
    /// defeated, nothing moves.
    pub fn boss_letter_swarm(&mut self, dt_us: u32)
        requires
            old(self).wf(),
        ensures
            final(self).wf(),
            final(self).letters.len() == old(self).letters.len(),
            match old(self).boss {
                Some(b) if old(self).state == BossState::Swarming => forall|i: int|
                    0 <= i < old(self).letters.len() ==> #[trigger] is_jittered_swarm_step(
                        old(self).letters[i],
                        b.position,
                        dt_us as int,
                        final(self).letters[i],
                    ),
                _ => final(self).letters == old(self).letters,
            },
            final(self).boss == old(self).boss,
            final(self).bullets == old(self).bullets,
            final(self).floor_words == old(self).floor_words,
            final(self).state == old(self).state,
    {
        if self.state == BossState::Defeated {
            return;
        }
        let target = match self.boss {
            Some(b) => b.position,
            None => {
                return;
            },
        };
        let ghost start = self.letters@;
        let mut i: usize = 0;
        while i < self.letters.len()
            invariant
                self.wf(),
                self.boss == old(self).boss,
                target == old(self).boss.unwrap().position,
                self.letters.len() == start.len(),
                start == old(self).letters@,
                self.bullets == old(self).bullets,
                self.floor_words == old(self).floor_words,
                self.state == old(self).state,
                0 <= i <= start.len(),
                forall|k: int| i <= k < start.len() ==> self.letters[k] == start[k],
                forall|k: int|
                    0 <= k < i ==> #[trigger] is_jittered_swarm_step(
                        start[k],
                        target,
                        dt_us as int,
                        self.letters[k],
                    ),
            decreases start.len() - i,
        {
            let jitter = Vec2 {
                x: random_between(-SWARM_JITTER + 1, SWARM_JITTER),
                y: random_between(-SWARM_JITTER + 1, SWARM_JITTER),
            };
            let l = self.letters[i];
            let next = swarm_step(l, target, dt_us, jitter);
            self.letters.set(i, next);
            assert(is_swarm_step(start[i as int], target, dt_us as int, jitter, self.letters[i as int]));
            i = i + 1;
        }
    }

    /// The boss wanders for one tick, its change of speed drawn from five
    /// pixels per second one way to under five the other, along each axis.
    /// Without a boss, or once it is defeated, nothing changes.
    pub fn boss_movement(&mut self, dt_us: u32)
        requires
            old(self).wf(),
        ensures
            final(self).wf(),
            match old(self).boss {
                Some(b) if old(self).state == BossState::Swarming => final(self).boss.is_some()
                    && is_wandered(b, dt_us as int, final(self).boss.unwrap()),
                _ => final(self).boss == old(self).boss,
            },
            final(self).letters == old(self).letters,
            final(self).bullets == old(self).bullets,
            final(self).floor_words == old(self).floor_words,
            final(self).state == old(self).state,
    {
        if self.state == BossState::Defeated {
            return;
        }
        match self.boss {
            Some(b) => {
                let wander = Vec2 {
                    x: random_between(-BOSS_WANDER, BOSS_WANDER),
                    y: random_between(-BOSS_WANDER, BOSS_WANDER),
                };
                let next = boss_step(b, dt_us, wander);
                self.boss = Some(next);
                assert(is_boss_step(b, dt_us as int, wander, next));
            },
            None => {},
        }
    }

    /// Every bullet flies for one tick; those whose time ran out are gone.
    pub fn letter_bullet_movement(&mut self, dt_us: u32)
        requires
            old(self).wf(),
        ensures
            final(self).wf(),
            final(self).bullets@ == bullets_after(old(self).bullets@, dt_us as int),
            final(self).boss == old(self).boss,
            final(self).letters == old(self).letters,
            final(self).floor_words == old(self).floor_words,
            final(self).state == old(self).state,
    {
        let ghost start = self.bullets@;
        let mut kept: Vec<LetterBullet> = Vec::new();
        let mut i: usize = 0;
        while i < self.bullets.len()
            invariant
                self.wf(),
                self.bullets@ == start,
                0 <= i <= start.len(),
                kept@ == bullets_after(start.subrange(0, i as int), dt_us as int),
                forall|k: int| 0 <= k < kept.len() ==> bullet_ok(#[trigger] kept[k]),
            decreases start.len() - i,
        {
            let b = self.bullets[i];
            assert(start.subrange(0, i + 1).drop_last() =~= start.subrange(0, i as int));
            match bullet_step(b, dt_us) {
                Some(n) => kept.push(n),
                None => {},
            }
            i = i + 1;
        }
        assert(start.subrange(0, start.len() as int) =~= start);
        self.bullets = kept;
    }

    /// Each bullet that overlaps the boss while it has health takes one point
    /// and is gone; as many swarm letters leave as points were lost, and the
    /// boss is defeated when none is left. Returns the points lost.
    pub fn check_boss_letter_bullet_overlaps(&mut self) -> (hits: u32)
        requires
            old(self).wf(),
        ensures
            final(self).wf(),
            final(self).floor_words == old(self).floor_words,
            match old(self).boss {
                None => {
                    &&& hits == 0
                    &&& final(self).boss == old(self).boss
                    &&& final(self).bullets == old(self).bullets
                    &&& final(self).letters == old(self).letters
                    &&& final(self).state == old(self).state
                },
                Some(b) => {
                    let (kept, h) = resolve_hits(old(self).bullets@, b.position, b.health as nat);
                    &&& final(self).bullets@ == kept
                    &&& final(self).boss == Some(Boss { health: h as u32, ..b })
                    &&& hits == b.health - h
                    &&& final(self).letters@ == old(self).letters@.subrange(0, h as int)
                    &&& final(self).state == if h == 0 {
                        BossState::Defeated
                    } else {
                        BossState::Swarming
                    }
                },
            },
    {
        let b = match self.boss {
            Some(b) => b,
            None => return 0,
        };
        let ghost start = self.bullets@;
        let mut kept: Vec<LetterBullet> = Vec::new();
        let mut health: u32 = b.health;
        let mut i: usize = 0;
        while i < self.bullets.len()
            invariant
                self.wf(),
                self.boss == Some(b),
                self.bullets@ == start,
                0 <= i <= start.len(),
                (kept@, health as nat) == resolve_hits(start.subrange(0, i as int), b.position, b.health as nat),
                health <= b.health,
                forall|k: int| 0 <= k < kept.len() ==> bullet_ok(#[trigger] kept[k]),
            decreases start.len() - i,
        {
            let bullet = self.bullets[i];
            assert(start.subrange(0, i + 1).drop_last() =~= start.subrange(0, i as int));
            let dx: i128 = bullet.position.x as i128 - b.position.x as i128;
            let dy: i128 = bullet.position.y as i128 - b.position.y as i128;
            assert(0 <= dx * dx <= 4 * WORLD_LIMIT * WORLD_LIMIT) by (nonlinear_arith)
                requires
                    -2 * WORLD_LIMIT <= dx <= 2 * WORLD_LIMIT,
            ;
            assert(0 <= dy * dy <= 4 * WORLD_LIMIT * WORLD_LIMIT) by (nonlinear_arith)
                requires
                    -2 * WORLD_LIMIT <= dy <= 2 * WORLD_LIMIT,
            ;
            let radius = BOSS_RADIUS as i128;
            if health > 0 && dx * dx + dy * dy < radius * radius {
                health = health - 1;
            } else {
                kept.push(bullet);
            }
            i = i + 1;
        }
        assert(start.subrange(0, start.len() as int) =~= start);
        self.bullets = kept;
        let hits = b.health - health;
        self.letters.truncate(health as usize);
        self.boss = Some(Boss { health, ..b });
        if health == 0 {
            self.state = BossState::Defeated;
        } else {
            self.state = BossState::Swarming;
        }
        hits
    }

    /// A confirmed word: every floor word equal to `typed` fires, for each of
    /// its letters, that letter's bullets from the floor word's place. Returns
    /// whether some floor word matched.
    pub fn fire_completed_words(&mut self, typed: &Vec<char>) -> (fired: bool)
        requires
            old(self).wf(),
        ensures
            final(self).wf(),
            fired == old(self).floor_texts().contains(typed@),
            arena_fired(*old(self), *final(self), typed@),
    {
        let ghost texts = self.floor_texts();
        let ghost start = self.bullets@;
        let mut fired = false;
        let mut k: usize = 0;
        while k < self.floor_words.len()
            invariant
                self.wf(),
                texts == self.floor_texts(),
                self.boss == old(self).boss,
                self.letters == old(self).letters,
                self.floor_words == old(self).floor_words,
                self.state == old(self).state,
                0 <= k <= self.floor_words.len(),
                fired == texts.subrange(0, k as int).contains(typed@),
                self.bullets.len() == start.len() + fired_count(texts.subrange(0, k as int), typed@),
                self.bullets@.subrange(0, start.len() as int) == start,
                start == old(self).bullets@,
                forall|n: int|
                    start.len() <= n < self.bullets.len() ==> is_fired_bullet(
                        self.floor_words@,
                        typed@,
                        #[trigger] self.bullets[n],
                    ),
            decreases self.floor_words.len() - k,
        {
            assert(texts.subrange(0, k + 1).drop_last() =~= texts.subrange(0, k as int));
            assert(texts.subrange(0, k + 1).last() == self.floor_words[k as int].word@);
            let matched = same_chars(&self.floor_words[k].word, typed);
            if matched {
                fired = true;
                let origin = self.floor_words[k].position;
                let ghost before = self.bullets.len();
                let mut j: usize = 0;
                while j < typed.len()
                    invariant
                        self.wf(),
                        texts == self.floor_texts(),
                        self.boss == old(self).boss,
                        self.letters == old(self).letters,
                        self.floor_words == old(self).floor_words,
                        self.state == old(self).state,
                        k < self.floor_words.len(),
                        origin == self.floor_words[k as int].position,
                        self.floor_words[k as int].word@ == typed@,
                        0 <= j <= typed.len(),
                        before <= self.bullets.len(),
                        self.bullets.len() == before + word_volley_size(typed@.subrange(0, j as int)),
                        self.bullets@.subrange(0, start.len() as int) == start,
                        start.len() <= before,
                        forall|n: int|
                            start.len() <= n < self.bullets.len() ==> is_fired_bullet(
                                self.floor_words@,
                                typed@,
                                #[trigger] self.bullets[n],
                            ),
                    decreases typed.len() - j,
                {
                    let volley = spawn_floor_bullets(typed[j], origin);
                    let ghost mid = self.bullets.len();
                    let mut v: usize = 0;
                    while v < volley.len()
                        invariant
                            self.wf(),
                            texts == self.floor_texts(),
                            self.boss == old(self).boss,
                            self.letters == old(self).letters,
                            self.floor_words == old(self).floor_words,
                            self.state == old(self).state,
                            k < self.floor_words.len(),
                            origin == self.floor_words[k as int].position,
                            self.floor_words[k as int].word@ == typed@,
                            j < typed.len(),
                            volley.len() == volley_size(typed@[j as int]),
                            forall|i: int|
                                0 <= i < volley.len() ==> is_volley_bullet(
                                    typed@[j as int],
                                    origin,
                                    i,
                                    #[trigger] volley[i],
                                ),
                            forall|i: int| 0 <= i < volley.len() ==> bullet_ok(#[trigger] volley[i]),
                            0 <= v <= volley.len(),
                            self.bullets.len() == mid + v,
                            start.len() <= mid,
                            self.bullets@.subrange(0, start.len() as int) == start,
                            forall|n: int|
                                start.len() <= n < self.bullets.len() ==> is_fired_bullet(
                                    self.floor_words@,
                                    typed@,
                                    #[trigger] self.bullets[n],
                                ),
                        decreases volley.len() - v,
                    {
                        let ghost prev = self.bullets@;
                        self.bullets.push(volley[v]);
                        assert(self.bullets@.subrange(0, start.len() as int) =~= prev.subrange(
                            0,
                            start.len() as int,
                        ));
                        assert(is_volley_bullet(
                            typed@[j as int],
                            self.floor_words[k as int].position,
                            v as int,
                            self.bullets[self.bullets.len() - 1],
                        ));
                        v = v + 1;
                    }
                    assert(typed@.subrange(0, j + 1).drop_last() =~= typed@.subrange(0, j as int));
                    j = j + 1;
                }
                assert(typed@.subrange(0, typed.len() as int) =~= typed@);
                assert(texts.subrange(0, k + 1).contains(typed@)) by {
                    assert(texts.subrange(0, k + 1)[k as int] == typed@);
                }
            } else {
                assert(texts.subrange(0, k + 1).contains(typed@) == texts.subrange(0, k as int).contains(typed@)) by {
                    if texts.subrange(0, k + 1).contains(typed@) {
                        let w = choose|w: int| 0 <= w < k + 1 && #[trigger] texts.subrange(0, k + 1)[w] == typed@;
                        assert(texts.subrange(0, k as int)[w] == typed@);
                    }
                    if texts.subrange(0, k as int).contains(typed@) {
                        let w = choose|w: int| 0 <= w < k && #[trigger] texts.subrange(0, k as int)[w] == typed@;
                        assert(texts.subrange(0, k + 1)[w] == typed@);
                    }
                }
            }
            k = k + 1;
        }
        assert(texts.subrange(0, texts.len() as int) =~= texts);
        fired
    }

    /// Whether some floor word begins with `typed`.
    pub fn has_word_with_prefix(&self, typed: &Vec<char>) -> (r: bool)
        ensures
            r == exists|k: int|
                0 <= k < self.floor_words.len() && is_prefix_of(
                    typed@,
                    #[trigger] self.floor_words[k].word@,
                ),
    {
        let mut k: usize = 0;
        while k < self.floor_words.len()
            invariant
                0 <= k <= self.floor_words.len(),
                forall|m: int|
                    0 <= m < k ==> !is_prefix_of(typed@, #[trigger] self.floor_words[m].word@),
            decreases self.floor_words.len() - k,
        {
            let word = &self.floor_words[k].word;
            if typed.len() <= word.len() {
                let mut i: usize = 0;
                let mut same = true;
                while i < typed.len()
                    invariant
                        typed.len() <= word.len(),
                        0 <= i <= typed.len(),
                        same == forall|j: int| 0 <= j < i ==> typed@[j] == word@[j],
                    decreases typed.len() - i,
                {
                    if typed[i] != word[i] {
                        same = false;
                    }
                    i = i + 1;
                }
                if same {
                    assert(word@.subrange(0, typed.len() as int) =~= typed@);
                    return true;
                }
                proof {
                    if is_prefix_of(typed@, word@) {
                        let j = choose|j: int| 0 <= j < typed.len() && typed@[j] != word@[j];
                        assert(word@.subrange(0, typed.len() as int)[j] == word@[j]);
                    }
                }
            }
            k = k + 1;
        }
        false
    }

    /// One tick of the fight while the boss swarms: the swarm closes in, the
    /// boss wanders, the bullets fly, and the collisions are resolved against
    /// the boss where it now stands. Without a boss, or once it is defeated,
    /// nothing moves. Returns the points of health lost.
    pub fn tick(&mut self, dt_us: u32) -> (hits: u32)
        requires
            old(self).wf(),
        ensures
            final(self).wf(),
            arena_ticked(*old(self), *final(self), dt_us as int, hits),
    {
        if self.boss.is_none() || self.state == BossState::Defeated {
            return 0;
        }
        let ghost before = *self;
        self.boss_letter_swarm(dt_us);
        let ghost swarmed = self.letters@;
        self.boss_movement(dt_us);
        let ghost moved = self.boss.unwrap();
        self.letter_bullet_movement(dt_us);
        let hits = self.check_boss_letter_bullet_overlaps();
        proof {
            let b = before.boss.unwrap();
            let nb = self.boss.unwrap();
            assert(Boss { health: b.health, ..nb } == moved);
            assert forall|i: int| 0 <= i < nb.health implies #[trigger] is_jittered_swarm_step(
                before.letters[i],
                b.position,
                dt_us as int,
                self.letters[i],
            ) by {
                assert(self.letters[i] == swarmed[i]);
            }
        }
        hits
    }
}

/// The swarm always numbers exactly the boss's health: every arena that
/// keeps its invariant, and so every arena after any tick, holds one swarm
/// letter per point of health, and none without a boss.
pub proof fn lemma_swarm_matches_health(a: BossArena)
    requires
        a.wf(),
    ensures
        match a.boss {
            Some(b) => a.letters.len() == b.health,
            None => a.letters.len() == 0,
        },
{
}

} // verus!
