use word_swarm::boss::{
    backup_floor_words, boss_step, bullet_duration, bullet_step, clamp_length,
    letter_to_bullet_info, spawn_floor_bullets, swarm_step, Boss, BossArena, BossFloorWord,
    BossLetter, BossState, LetterBullet, LetterBulletMode, SpreadStyle, BOSS_STARTING_HEALTH,
};
use rand::Rng;
use word_swarm::motion::{ceil_sqrt, cosine, from_polar, sine, Vec2};

fn v(x: i64, y: i64) -> Vec2 {
    Vec2 { x, y }
}

fn bullet_at(x: i64, y: i64) -> LetterBullet {
    LetterBullet {
        glyph: 'E',
        position: v(x, y),
        velocity: v(0, 0),
        time_left: 10_000_000,
        mode: LetterBulletMode::Straight,
    }
}

#[test]
fn bullet_table() {
    let e = letter_to_bullet_info('e').unwrap();
    assert_eq!(e.quantity, 8);
    assert_eq!(e.spread_style, SpreadStyle::Circular);
    assert_eq!(e.letter_display, 'E');
    assert_eq!(e.bullet_mode, LetterBulletMode::StraightWithDrag(5));
    let i = letter_to_bullet_info('i').unwrap();
    assert_eq!((i.quantity, i.spread_style, i.letter_display), (12, SpreadStyle::Star, 'I'));
    assert_eq!(i.bullet_mode, LetterBulletMode::Straight);
    let x = letter_to_bullet_info('x').unwrap();
    assert_eq!((x.quantity, x.spread_style, x.letter_display), (12, SpreadStyle::X, 'X'));
    assert!(letter_to_bullet_info('a').is_none());
    assert_eq!(bullet_duration('x'), 2_000_000);
    assert_eq!(bullet_duration('i'), 2_000_000);
    assert_eq!(bullet_duration('e'), 1_000_000);
}

#[test]
fn sine_and_cosine_values() {
    assert_eq!(sine(0), 0);
    assert_eq!(sine(30), 5000);
    assert_eq!(sine(90), 10000);
    assert_eq!(sine(150), 5000);
    assert_eq!(sine(180), 0);
    assert_eq!(sine(270), -10000);
    assert_eq!(sine(60), 8648);
    assert_eq!(cosine(0), 10000);
    assert_eq!(cosine(180), -10000);
    assert_eq!(cosine(90), 0);
    assert_eq!(cosine(300), 5000);
}

#[test]
fn polar_vectors() {
    assert_eq!(from_polar(300, 0), v(300, 0));
    assert_eq!(from_polar(200, 90), v(0, 200));
    assert_eq!(from_polar(200, 180), v(-200, 0));
    assert_eq!(from_polar(200, 210), v(-172, -103));
    let d = from_polar(400, 45);
    assert_eq!(d, v(282, 284));
    assert!(d.x * d.x + d.y * d.y >= 400 * 400);
}

#[test]
fn ceil_square_roots() {
    assert_eq!(ceil_sqrt(0), 0);
    assert_eq!(ceil_sqrt(1), 1);
    assert_eq!(ceil_sqrt(2), 2);
    assert_eq!(ceil_sqrt(16), 4);
    assert_eq!(ceil_sqrt(17), 5);
    assert_eq!(ceil_sqrt(1 << 100), 1 << 50);
}

#[test]
fn long_vectors_are_scaled_down() {
    assert_eq!(clamp_length(30_000_000, 40_000_000, 10_000_000), v(6_000_000, 8_000_000));
    assert_eq!(clamp_length(-30_000_000, 40_000_000, 10_000_000), v(-6_000_000, 8_000_000));
    assert_eq!(clamp_length(3, 4, 10), v(3, 4));
    assert_eq!(clamp_length(10, 0, 10), v(10, 0));
}

#[test]
fn swarm_letter_closes_in() {
    let l = BossLetter { letter: 'k', position: v(-2_000_000, 0), velocity: v(0, 0) };
    let n = swarm_step(l, v(0, 0), 1_000_000, v(0, 0));
    assert_eq!(n.velocity, v(1_000_000, 0));
    assert_eq!(n.position, v(-1_000_000, 0));
    assert_eq!(n.letter, 'k');
    let far = BossLetter { letter: 'k', position: v(-400_000_000, 0), velocity: v(0, 0) };
    let n = swarm_step(far, v(0, 0), 1_000_000, v(500_000, 0));
    assert_eq!(n.velocity, v(10_000_000, 0));
    assert_eq!(n.position, v(-390_000_000, 0));
}

#[test]
fn boss_moves_then_bounces() {
    let b = Boss { position: v(0, 0), velocity: v(100_000_000, -50_000_000), health: 3 };
    let n = boss_step(b, 1_000_000, v(4_000_000, -5_000_000));
    assert_eq!(n.position, v(100_000_000, -50_000_000));
    assert_eq!(n.velocity, v(104_000_000, -55_000_000));
    assert_eq!(n.health, 3);
    let slow = Boss { position: v(0, 0), velocity: v(1_500_000, -1_500_000), health: 3 };
    let n = boss_step(slow, 16_667, v(0, 0));
    assert_eq!(n.position, v(25_000, -25_000));
    let edge = Boss { position: v(479_000_000, 0), velocity: v(10_000_000, 0), health: 3 };
    let n = boss_step(edge, 1_000_000, v(0, 0));
    assert_eq!(n.position.x, 489_000_000);
    assert_eq!(n.velocity.x, -8_000_000);
}

#[test]
fn boss_wander_stays_below_five_pixels_per_second() {
    let mut a = BossArena::new();
    a.spawn_boss();
    for _ in 0..500 {
        let before = a.boss.unwrap().velocity;
        a.boss_movement(0);
        let after = a.boss.unwrap().velocity;
        assert!(after.x - before.x >= -5_000_000 && after.x - before.x < 5_000_000);
        assert!(after.y - before.y >= -5_000_000 && after.y - before.y < 5_000_000);
        a.boss = Some(Boss { velocity: v(0, 0), ..a.boss.unwrap() });
    }
}

#[test]
fn without_a_boss_nothing_moves() {
    let mut a = BossArena::new();
    a.boss_letter_swarm(16_667);
    a.boss_movement(16_667);
    assert!(a.boss.is_none());
    assert!(a.letters.is_empty());
}

#[test]
fn bullets_fly_drag_and_expire() {
    let straight = LetterBullet {
        glyph: 'I',
        position: v(0, 0),
        velocity: v(200, -100),
        time_left: 1_500_000,
        mode: LetterBulletMode::Straight,
    };
    let n = bullet_step(straight, 500_000).unwrap();
    assert_eq!(n.position, v(100_000_000, -50_000_000));
    assert_eq!(n.time_left, 1_000_000);
    assert_eq!(n.velocity, v(200, -100));
    assert!(bullet_step(n, 1_000_000).is_none());
    let drag = LetterBullet { mode: LetterBulletMode::StraightWithDrag(5), ..straight };
    let n = bullet_step(drag, 1_000).unwrap();
    assert_eq!(n.velocity, v(190, -95));
    assert_eq!(n.position, v(190_000, -95_000));
}

#[test]
fn letters_fire_their_volleys() {
    let star = spawn_floor_bullets('i', v(7, 8));
    assert_eq!(star.len(), 12);
    for b in &star {
        assert_eq!(b.glyph, 'I');
        assert_eq!(b.position, v(7, 8));
        assert_eq!(b.time_left, 2_000_000);
        assert_eq!(b.mode, LetterBulletMode::Straight);
        let speed2 = b.velocity.x * b.velocity.x + b.velocity.y * b.velocity.y;
        assert!(speed2 >= 200 * 200 && speed2 < 300 * 300);
    }
    assert_eq!(star[0].velocity.y, 0);
    assert!(star[0].velocity.x > 0);
    assert_eq!(star[3].velocity.y, 0);
    assert!(star[3].velocity.x < 0);
    let x = spawn_floor_bullets('x', v(0, 0));
    assert_eq!(x.len(), 12);
    assert!(x[0].velocity.x > 0 && x[0].velocity.y > 0);
    assert!(x[1].velocity.x < 0 && x[1].velocity.y > 0);
    let circle = spawn_floor_bullets('e', v(0, 0));
    assert_eq!(circle.len(), 8);
    for b in &circle {
        assert_eq!(b.mode, LetterBulletMode::StraightWithDrag(5));
        let speed2 = b.velocity.x * b.velocity.x + b.velocity.y * b.velocity.y;
        assert!(speed2 >= 400 * 400 && speed2 < 600 * 600);
    }
    assert!(spawn_floor_bullets('a', v(0, 0)).is_empty());
}

#[test]
fn boss_appears_with_full_swarm() {
    let mut a = BossArena::new();
    a.spawn_boss();
    let b = a.boss.unwrap();
    assert_eq!(b.health, 26);
    assert_eq!(BOSS_STARTING_HEALTH, 26);
    assert_eq!(a.letters.len(), 26);
    assert_eq!(a.state, BossState::Swarming);
    for l in &a.letters {
        assert!(('a'..='y').contains(&l.letter));
        assert!(l.position.x >= -50_000_000 && l.position.x < 50_000_000);
        assert!(l.position.y >= -50_000_000 && l.position.y < 50_000_000);
        assert!(l.velocity.x >= -5_000_000 && l.velocity.x < 5_000_000);
        assert!(l.velocity.y >= -5_000_000 && l.velocity.y < 5_000_000);
    }
}

#[test]
fn five_hits_take_five_health_and_five_letters_then_defeat_stops_everything() {
    let mut a = BossArena::new();
    a.spawn_boss();
    for _ in 0..5 {
        a.bullets.push(bullet_at(0, 0));
    }
    a.bullets.push(bullet_at(500_000_000, 0));
    let hits = a.tick(16_667);
    assert_eq!(hits, 5);
    assert_eq!(a.boss.unwrap().health, 21);
    assert_eq!(a.letters.len(), 21);
    assert_eq!(a.bullets.len(), 1);
    assert_eq!(a.state, BossState::Swarming);
    let at = a.boss.unwrap().position;
    for _ in 0..25 {
        a.bullets.push(bullet_at(at.x, at.y));
    }
    let hits = a.check_boss_letter_bullet_overlaps();
    assert_eq!(hits, 21);
    assert_eq!(a.boss.unwrap().health, 0);
    assert!(a.letters.is_empty());
    assert_eq!(a.state, BossState::Defeated);
    assert_eq!(a.bullets.len(), 5);
    let before = a.bullets.clone();
    let boss_before = a.boss;
    assert_eq!(a.tick(16_667), 0);
    assert_eq!(a.bullets, before);
    assert_eq!(a.boss, boss_before);
}

#[test]
fn swarm_count_matches_health_through_random_fights() {
    let mut rng = rand::thread_rng();
    for _ in 0..20 {
        let mut a = BossArena::new();
        a.spawn_boss();
        for _ in 0..200 {
            let n = rng.gen_range(0..4);
            for _ in 0..n {
                let p = a.boss.unwrap().position;
                let dx = rng.gen_range(-150_000_000..150_000_000);
                let dy = rng.gen_range(-150_000_000..150_000_000);
                a.bullets.push(bullet_at(p.x + dx, p.y + dy));
            }
            a.tick(rng.gen_range(0..40_000));
            assert_eq!(a.letters.len() as u32, a.boss.unwrap().health);
            assert_eq!(a.state == BossState::Defeated, a.boss.unwrap().health == 0);
        }
    }
}

#[test]
fn a_bullet_on_the_edge_misses() {
    let mut a = BossArena::new();
    a.spawn_boss();
    a.bullets.push(bullet_at(100_000_000, 0));
    a.bullets.push(bullet_at(99_999_999, 0));
    assert_eq!(a.check_boss_letter_bullet_overlaps(), 1);
    assert_eq!(a.bullets.len(), 1);
    assert_eq!(a.bullets[0].position.x, 100_000_000);
}

#[test]
fn no_boss_no_collisions() {
    let mut a = BossArena::new();
    a.bullets.push(bullet_at(0, 0));
    assert_eq!(a.check_boss_letter_bullet_overlaps(), 0);
    assert_eq!(a.tick(1000), 0);
    assert_eq!(a.bullets.len(), 1);
}

#[test]
fn completed_floor_word_fires_every_letter() {
    let mut a = BossArena::new();
    a.floor_words.push(BossFloorWord { word: "ice".chars().collect(), position: v(5, 5) });
    a.floor_words.push(BossFloorWord { word: "dog".chars().collect(), position: v(0, 0) });
    assert!(a.has_word_with_prefix(&"ic".chars().collect()));
    assert!(a.has_word_with_prefix(&vec![]));
    assert!(!a.has_word_with_prefix(&"icy".chars().collect()));
    assert!(!a.fire_completed_words(&"ic".chars().collect()));
    assert!(a.bullets.is_empty());
    assert!(a.fire_completed_words(&"ice".chars().collect()));
    assert_eq!(a.bullets.len(), 20);
    assert!(a.bullets.iter().all(|b| b.position == v(5, 5)));
    assert_eq!(a.bullets.iter().filter(|b| b.glyph == 'I').count(), 12);
    assert_eq!(a.bullets.iter().filter(|b| b.glyph == 'E').count(), 8);
}

#[test]
fn floor_words_come_from_collected_or_backup() {
    let mut a = BossArena::new();
    a.spawn_words_on_the_ground(&vec![]);
    let texts: Vec<Vec<char>> = a.floor_words.iter().map(|f| f.word.clone()).collect();
    assert_eq!(texts, backup_floor_words());
    assert_eq!(texts.len(), 9);
    let mut b = BossArena::new();
    b.spawn_words_on_the_ground(&vec!["cat".chars().collect()]);
    assert_eq!(b.floor_words.len(), 1);
    assert_eq!(b.floor_words[0].word, vec!['c', 'a', 't']);
    let p = b.floor_words[0].position;
    assert!(p.x >= -480_000_000 && p.x < 480_000_000);
    assert!(p.y >= -270_000_000 && p.y < 270_000_000);
}

#[test]
fn every_spread_speed_lies_in_its_band() {
    for (style, lo, hi) in [(SpreadStyle::Circular, 400, 600), (SpreadStyle::Star, 200, 300), (SpreadStyle::X, 200, 300)] {
        for _ in 0..200 {
            for (offset, vel) in style.random_positions_velocities(20) {
                assert_eq!(offset, v(0, 0));
                let s2 = vel.x * vel.x + vel.y * vel.y;
                assert!(s2 >= lo * lo && s2 < hi * hi, "{:?} {:?}", style, vel);
            }
        }
    }
    for m in [400i64, 450, 598] {
        for deg in 0..360 {
            let p = from_polar(m, deg);
            let s2 = p.x * p.x + p.y * p.y;
            assert!(s2 >= m * m && s2 < (m + 1) * (m + 1));
        }
    }
}

#[test]
fn large_spreads_repeat_their_angles() {
    let star = SpreadStyle::Star.random_positions_velocities(13);
    assert_eq!(star.len(), 13);
    assert_eq!(star[6].1.y, 0);
    assert!(star[6].1.x > 0);
    assert_eq!(star[12].1.y, 0);
}

#[test]
fn a_defeated_boss_no_longer_moves() {
    let mut a = BossArena::new();
    a.spawn_boss();
    a.boss = Some(Boss { velocity: v(50_000_000, 0), ..a.boss.unwrap() });
    let at = a.boss.unwrap().position;
    for _ in 0..26 {
        a.bullets.push(bullet_at(at.x, at.y));
    }
    a.check_boss_letter_bullet_overlaps();
    assert_eq!(a.state, BossState::Defeated);
    let before = a.boss;
    a.boss_movement(1_000_000);
    a.boss_letter_swarm(1_000_000);
    assert_eq!(a.boss, before);
    assert!(a.letters.is_empty());
}
