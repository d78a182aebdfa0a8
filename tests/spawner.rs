use word_swarm::spawner::{
    letter_at, letter_weights, EnemySpawnTimer, CURSOR_TURN, MIN_SPAWN_GAP, SPAWN_PERIOD_US,
    SPAWN_Y,
};

#[test]
fn time_accumulates_until_a_period() {
    let mut t = EnemySpawnTimer::new();
    assert!(t.tick(500_000).is_none());
    assert_eq!(t.time_since_last_spawn, 500_000);
    let e = t.tick(600_000).expect("a period has passed");
    assert_eq!(t.time_since_last_spawn, 100_000);
    assert!(('a'..='z').contains(&e.letter));
    assert_eq!(e.y, SPAWN_Y);
}

#[test]
fn at_most_one_spawn_per_tick_with_carry() {
    let mut t = EnemySpawnTimer::new();
    assert!(t.tick(2_500_000).is_some());
    assert_eq!(t.time_since_last_spawn, 1_500_000);
    assert!(t.tick(0).is_some());
    assert_eq!(t.time_since_last_spawn, 500_000);
    assert!(t.tick(0).is_none());
}

#[test]
fn exactly_one_period_spawns() {
    let mut t = EnemySpawnTimer::new();
    assert!(t.tick(SPAWN_PERIOD_US as u32).is_some());
    assert_eq!(t.time_since_last_spawn, 0);
}

#[test]
fn placement_follows_the_golden_step() {
    let mut t = EnemySpawnTimer::new();
    let e = t.place_spawn(0, 0);
    assert_eq!(t.last_spawn_location, 618_034);
    assert_eq!(e.letter, 'a');
    assert_eq!(e.x, 960 * (618_034 * 4 / 5 + 100_000 - 500_000));
    assert_eq!(e.x, 90_649_920);
    assert_eq!(e.y, 135_000_000);
}

#[test]
fn placement_wraps_around_the_turn() {
    let mut t = EnemySpawnTimer::new();
    t.last_spawn_location = 500_000;
    let e = t.place_spawn(25, 50_000);
    assert_eq!(t.last_spawn_location, 168_034);
    assert_eq!(e.letter, 'z');
    assert_eq!(e.x, 960 * (168_034 * 4 / 5 + 100_000 - 500_000));
}

#[test]
fn placement_keeps_clear_of_the_side_edges() {
    let mut t = EnemySpawnTimer::new();
    t.last_spawn_location = 999_999 - 618_034 + 99_999;
    let e = t.place_spawn(1, 0);
    assert!(t.last_spawn_location < CURSOR_TURN);
    assert!(e.x >= -480_000_000 + 96_000_000);
    assert!(e.x <= 480_000_000 - 96_000_000);
}

fn turn_distance(a: u32, b: u32) -> u32 {
    let d = if a <= b { b - a } else { a - b };
    d.min(CURSOR_TURN - d)
}

#[test]
fn consecutive_cursor_values_keep_their_distance() {
    let mut t = EnemySpawnTimer::new();
    let mut prev = t.last_spawn_location;
    for _ in 0..2_000 {
        assert!(t.tick(1_000_000).is_some());
        let now = t.last_spawn_location;
        assert!(turn_distance(prev, now) >= MIN_SPAWN_GAP);
        let linear = if prev <= now { now - prev } else { prev - now };
        assert!(linear >= MIN_SPAWN_GAP);
        prev = now;
    }
}

#[test]
fn extreme_jitters_keep_the_gap() {
    for jitter in [-99_999i64, 99_999] {
        for start in [0u32, 281_966, 381_966, 481_966, 999_999] {
            let mut t = EnemySpawnTimer::new();
            t.last_spawn_location = start;
            t.place_spawn(0, jitter);
            assert!(turn_distance(start, t.last_spawn_location) >= MIN_SPAWN_GAP);
        }
    }
}

#[test]
fn letter_table() {
    let w = letter_weights();
    assert_eq!(w.len(), 26);
    assert_eq!(w.iter().sum::<u32>(), 98);
    assert_eq!(w[0], 9);
    assert_eq!(w[4], 12);
    assert_eq!(w[25], 1);
    assert_eq!(letter_at(0), 'a');
    assert_eq!(letter_at(16), 'q');
    assert_eq!(letter_at(25), 'z');
}

#[test]
fn weighted_draws_follow_the_weights() {
    let weights = letter_weights();
    let total: u32 = weights.iter().sum();
    let draws = 100_000;
    let mut counts = [0u32; 26];
    for _ in 0..draws {
        let c = EnemySpawnTimer::draw_letter();
        counts[(c as u8 - b'a') as usize] += 1;
    }
    for i in 0..26 {
        let expected = weights[i] as f64 / total as f64;
        let seen = counts[i] as f64 / draws as f64;
        assert!((expected - seen).abs() < 0.01, "letter {} drawn {} times", i, counts[i]);
    }
}
