//! The spawn scheduler: when a letter appears, which letter, and where.
use vstd::prelude::*;
use crate::chance::{random_between, sample_weighted, total_weight};
use crate::enemy::Enemy;

verus! {

/// Time between two spawns, in microseconds.
pub const SPAWN_PERIOD_US: u64 = 1_000_000;

/// One turn of the placement cursor, in millionths.
pub const CURSOR_TURN: u32 = 1_000_000;

/// The fractional part of the golden ratio, in millionths of a turn.
pub const GOLDEN_STEP: u32 = 618_034;

/// The placement cursor's jitter stays strictly inside this many millionths
/// either way.
pub const SPAWN_JITTER: i64 = 100_000;

/// Two consecutive cursor values are at least this far apart, in millionths,
/// along the line and around the turn alike.
pub const MIN_SPAWN_GAP: u32 = 281_967;

/// The margin left free at each side of the screen, in millionths of its width.
pub const EDGE_MARGIN: u32 = 100_000;

/// The screen's width in pixels.
pub const SCREEN_WIDTH_PX: i64 = 960;

/// Where new letters appear, in micro-pixels above the screen's centre.
pub const SPAWN_Y: i64 = 135_000_000;

/// How often each letter of the alphabet is drawn, from 'a' to 'z'.
pub open spec fn letter_weight_seq() -> Seq<u32> {
    seq![9, 2, 2, 4, 12, 2, 3, 2, 9, 1, 1, 4, 2, 6, 8, 2, 1, 6, 4, 6, 4, 2, 2, 1, 2, 1]
}

/// The letter at position `i` of the alphabet.
pub open spec fn alphabet_letter(i: int) -> char {
    ((97 + i) as u8) as char
}

/// The cursor after one step: the golden step and the jitter, around the turn.
pub open spec fn next_cursor(cursor: int, jitter: int) -> int {
    (cursor + GOLDEN_STEP + jitter) % (CURSOR_TURN as int)
}

/// The distance of two cursor values around the turn.
pub open spec fn turn_distance(a: int, b: int) -> int {
    let d = if a <= b { b - a } else { a - b };
    if d <= CURSOR_TURN - d { d } else { CURSOR_TURN - d }
}

/// The cursor squeezed into the screen's middle, away from the side edges,
/// in millionths of the screen's width.
pub open spec fn screen_fraction(cursor: int) -> int {
    cursor * 4 / 5 + EDGE_MARGIN
}

/// The horizontal position, in micro-pixels from the centre, of a cursor value.
pub open spec fn spawn_x(cursor: int) -> int {
    SCREEN_WIDTH_PX * (screen_fraction(cursor) - 500_000)
}

/// The weights of the letters, from 'a' to 'z'.
pub fn letter_weights() -> (r: Vec<u32>)
    ensures
        r@ == letter_weight_seq(),
{
    let r: Vec<u32> = vec![9, 2, 2, 4, 12, 2, 3, 2, 9, 1, 1, 4, 2, 6, 8, 2, 1, 6, 4, 6, 4, 2, 2, 1, 2, 1];
    assert(r@ =~= letter_weight_seq());
    r
}

/// The letter at position `i` of the alphabet.
pub fn letter_at(i: usize) -> (c: char)
    requires
        i < 26,
    ensures
        c == alphabet_letter(i as int),
        'a' <= c <= 'z',
{
    let code: u8 = (97 + i) as u8;
    code as char
}

proof fn lemma_weights_total()
    ensures
        total_weight(letter_weight_seq()) == 98,
{
    reveal_with_fuel(total_weight, 27);
    assert(total_weight(letter_weight_seq()) == 98);
}

/// Every cursor step moves the cursor by at least the minimum gap, along the
/// line and around the turn: consecutive spawns never crowd each other.
pub proof fn lemma_spawn_spread(cursor: int, jitter: int)
    requires
        0 <= cursor < CURSOR_TURN,
        -SPAWN_JITTER < jitter < SPAWN_JITTER,
    ensures
        0 <= next_cursor(cursor, jitter) < CURSOR_TURN,
        turn_distance(cursor, next_cursor(cursor, jitter)) >= MIN_SPAWN_GAP,
        (if cursor <= next_cursor(cursor, jitter) {
            next_cursor(cursor, jitter) - cursor
        } else {
            cursor - next_cursor(cursor, jitter)
        }) >= MIN_SPAWN_GAP,
{
    let raw = cursor + GOLDEN_STEP + jitter;
    assert(0 < raw < 2 * CURSOR_TURN);
    if raw < CURSOR_TURN {
        assert(next_cursor(cursor, jitter) == raw);
    } else {
        assert(next_cursor(cursor, jitter) == raw - CURSOR_TURN);
    }
}

/// `new` and `r` are the scheduler and its output after a tick of `dt_us`
/// microseconds from `old`. The time gathers (saturating at the top of `u64`).
/// Once a whole period has gathered, one period is taken off and one letter
/// is placed: a letter of positive weight, at the cursor's next step with a
/// jitter below a tenth of a turn either way. Otherwise nothing is placed.
pub open spec fn spawn_tick(old: EnemySpawnTimer, new: EnemySpawnTimer, dt_us: u32, r: Option<Enemy>) -> bool {
    let total = if old.time_since_last_spawn + dt_us > u64::MAX {
        u64::MAX as int
    } else {
        old.time_since_last_spawn + dt_us
    };
    if total >= SPAWN_PERIOD_US {
        &&& new.time_since_last_spawn == total - SPAWN_PERIOD_US
        &&& r.is_some()
        &&& exists|jitter: int, i: int|
            -SPAWN_JITTER < jitter < SPAWN_JITTER && 0 <= i < 26
                && letter_weight_seq()[i] > 0
                && new.last_spawn_location == next_cursor(
                old.last_spawn_location as int,
                jitter,
            ) && r.unwrap().letter == alphabet_letter(i)
        &&& turn_distance(
            old.last_spawn_location as int,
            new.last_spawn_location as int,
        ) >= MIN_SPAWN_GAP
        &&& r.unwrap().x == spawn_x(new.last_spawn_location as int)
        &&& r.unwrap().y == SPAWN_Y
    } else {
        &&& new.time_since_last_spawn == total
        &&& new.last_spawn_location == old.last_spawn_location
        &&& r.is_none()
    }
}

/// The scheduler's clock and placement cursor.
pub struct EnemySpawnTimer {
    pub time_since_last_spawn: u64,
    pub last_spawn_location: u32,
}

impl EnemySpawnTimer {
    /// The cursor stays inside one turn.
    pub open spec fn wf(&self) -> bool {
        self.last_spawn_location < CURSOR_TURN
    }

    /// A fresh scheduler: no time elapsed, the cursor at zero.
    pub fn new() -> (t: EnemySpawnTimer)
        ensures
            t.wf(),
            t.time_since_last_spawn == 0,
            t.last_spawn_location == 0,
    {
        EnemySpawnTimer { time_since_last_spawn: 0, last_spawn_location: 0 }
    }

    /// Places a letter, given the drawn letter and jitter: the cursor takes its
    /// step and the letter appears above the screen at the cursor's place.
    pub fn place_spawn(&mut self, letter_index: usize, jitter: i64) -> (e: Enemy)
        requires
            old(self).wf(),
            letter_index < 26,
            -SPAWN_JITTER < jitter < SPAWN_JITTER,
        ensures
            final(self).wf(),
            final(self).time_since_last_spawn == old(self).time_since_last_spawn,
            final(self).last_spawn_location == next_cursor(
                old(self).last_spawn_location as int,
                jitter as int,
            ),
            turn_distance(
                old(self).last_spawn_location as int,
                final(self).last_spawn_location as int,
            ) >= MIN_SPAWN_GAP,
            e.letter == alphabet_letter(letter_index as int),
            e.x == spawn_x(final(self).last_spawn_location as int),
            e.y == SPAWN_Y,
    {
        proof {
            lemma_spawn_spread(self.last_spawn_location as int, jitter as int);
        }
        let raw: i64 = self.last_spawn_location as i64 + GOLDEN_STEP as i64 + jitter;
        let cursor: u32 = (raw % (CURSOR_TURN as i64)) as u32;
        self.last_spawn_location = cursor;
        let fraction: i64 = (cursor as i64) * 4 / 5 + EDGE_MARGIN as i64;
        Enemy { letter: letter_at(letter_index), x: SCREEN_WIDTH_PX * (fraction - 500_000), y: SPAWN_Y }
    }

    /// Advances the clock by `dt_us` microseconds. When a whole period has
    /// gathered, one period is taken off (the remainder carries over) and one
    /// letter is placed: drawn by weight, at the cursor's next step with a
    /// random jitter. At most one letter per tick.
    pub fn tick(&mut self, dt_us: u32) -> (r: Option<Enemy>)
        requires
            old(self).wf(),
        ensures
            final(self).wf(),
            spawn_tick(*old(self), *final(self), dt_us, r),
    {
        self.time_since_last_spawn = self.time_since_last_spawn.saturating_add(dt_us as u64);
        if self.time_since_last_spawn >= SPAWN_PERIOD_US {
            self.time_since_last_spawn = self.time_since_last_spawn - SPAWN_PERIOD_US;
            let weights = letter_weights();
            proof {
                lemma_weights_total();
            }
            let index = sample_weighted(&weights);
            let jitter = random_between(-SPAWN_JITTER + 1, SPAWN_JITTER);
            let e = self.place_spawn(index, jitter);
            Some(e)
        } else {
            None
        }
    }

    /// A letter drawn by weight, through the same draw that `tick` makes.
    pub fn draw_letter() -> (c: char)
        ensures
            exists|i: int| 0 <= i < 26 && letter_weight_seq()[i] > 0 && c == alphabet_letter(i),
    {
        let weights = letter_weights();
        proof {
            lemma_weights_total();
        }
        let index = sample_weighted(&weights);
        letter_at(index)
    }
}

} // verus!
