use word_swarm::boss::BossState;
use word_swarm::dictionary::Dictionary;
use word_swarm::enemy::{Enemy, KILL_LINE_Y};
use word_swarm::game::{Game, GameEvent, GameState, TickInput};

fn chars(s: &str) -> Vec<char> {
    s.chars().collect()
}

fn playing_game(words: &[&str], capacity: usize) -> Game {
    let mut d = Dictionary::new();
    for w in words {
        d.add_line(&chars(w));
    }
    let mut g = Game::new(d, capacity);
    assert_eq!(g.current_phase(), GameState::Loading);
    g.finish_loading();
    assert_eq!(g.current_phase(), GameState::Menu);
    g.start_playing();
    assert_eq!(g.current_phase(), GameState::Playing);
    g
}

fn input(keys: &str, space: bool) -> TickInput {
    TickInput {
        keys_just_pressed: chars(keys),
        space_pressed: space,
        backspace_pressed: false,
        boss_trigger_pressed: false,
    }
}

#[test]
fn phases_only_move_forward_from_their_own_state() {
    let d = Dictionary::new();
    let mut g = Game::new(d, 10);
    g.start_playing();
    assert_eq!(g.state, GameState::Loading);
    g.enter_boss_phase();
    assert_eq!(g.state, GameState::Loading);
    let events = g.tick(&input("a", true), 1_000_000);
    assert!(events.is_empty());
    g.finish_loading();
    g.finish_loading();
    assert_eq!(g.state, GameState::Menu);
}

#[test]
fn keypress_beats_the_kill_line() {
    let mut g = playing_game(&[], 10);
    g.enemies.insert(Enemy { letter: 'q', x: 0, y: KILL_LINE_Y });
    let events = g.play_tick(&input("q", false), 1_000);
    assert!(g.enemies.enemies.is_empty());
    assert!(events.contains(&GameEvent::EnemyEliminated { x: 0, y: KILL_LINE_Y - 20_000 }));
    assert!(!events.iter().any(|e| matches!(e, GameEvent::EnemyCrossedKillLine { .. })));
    assert_eq!(g.key_actions.char_stack(), &vec!['q']);
}

#[test]
fn unanswered_letter_is_forced_into_the_tray() {
    let mut g = playing_game(&[], 10);
    g.enemies.insert(Enemy { letter: 'q', x: 0, y: KILL_LINE_Y });
    let events = g.play_tick(&input("", false), 1_000);
    assert!(g.enemies.enemies.is_empty());
    assert!(events.contains(&GameEvent::EnemyCrossedKillLine { letter: 'q' }));
    assert_eq!(g.key_actions.char_stack(), &vec!['q']);
    assert_eq!(g.state, GameState::Playing);
}

#[test]
fn pressing_a_letter_no_enemy_shows_does_nothing() {
    let mut g = playing_game(&[], 10);
    g.enemies.insert(Enemy { letter: 'a', x: 0, y: 0 });
    g.play_tick(&input("b", false), 1_000);
    assert!(g.key_actions.char_stack().is_empty());
    assert_eq!(g.enemies.enemies.len(), 1);
    assert_eq!(g.enemies.enemies[0].y, -20_000);
}

#[test]
fn overflowing_admissions_lose_the_run() {
    let mut g = playing_game(&[], 10);
    for i in 0..11 {
        g.enemies.insert(Enemy { letter: 'z', x: i, y: KILL_LINE_Y });
    }
    let events = g.play_tick(&input("", false), 1_000);
    assert_eq!(g.key_actions.char_stack().len(), 11);
    assert_eq!(g.state, GameState::PlayingLose);
    assert_eq!(events.last(), Some(&GameEvent::PlayerLost));
    let later = g.tick(&input("z", true), 1_000_000);
    assert!(later.is_empty());
    assert_eq!(g.state, GameState::PlayingLose);
}

#[test]
fn an_overflowed_tray_halts_the_next_tick() {
    let mut g = playing_game(&[], 10);
    for _ in 0..11 {
        g.key_actions.push('z');
    }
    g.enemies.insert(Enemy { letter: 'z', x: 0, y: 0 });
    let events = g.play_tick(&input("z", false), 1_000_000);
    assert_eq!(events, vec![GameEvent::PlayerLost]);
    assert_eq!(g.state, GameState::PlayingLose);
    assert_eq!(g.enemies.enemies.len(), 1);
    assert_eq!(g.enemies.enemies[0].y, 0);
}

#[test]
fn exactly_full_tray_does_not_lose() {
    let mut g = playing_game(&[], 10);
    for i in 0..10 {
        g.enemies.insert(Enemy { letter: 'z', x: i, y: KILL_LINE_Y });
    }
    g.play_tick(&input("", false), 1_000);
    assert_eq!(g.key_actions.char_stack().len(), 10);
    assert_eq!(g.state, GameState::Playing);
}

#[test]
fn confirm_commits_the_word_and_reports_its_slots() {
    let mut g = playing_game(&["cat"], 10);
    g.key_actions.push('x');
    for (i, c) in "cat".chars().enumerate() {
        g.enemies.insert(Enemy { letter: c, x: i as i64, y: 0 });
    }
    g.play_tick(&input("cat", false), 1_000);
    assert_eq!(g.key_actions.char_stack(), &chars("xcat"));
    let events = g.play_tick(&input("", true), 1_000);
    assert!(events.contains(&GameEvent::WordCommitted { first_slot: 1, length: 3 }));
    assert_eq!(g.key_actions.char_stack(), &chars("x"));
    assert_eq!(g.key_actions.all_collected_words(), &vec![chars("cat")]);
}

#[test]
fn the_scheduler_adds_letters_during_play() {
    let mut g = playing_game(&[], 10);
    let events = g.play_tick(&input("", false), 1_000_000);
    assert_eq!(g.enemies.enemies.len(), 1);
    assert!(matches!(events.last(), Some(GameEvent::EnemySpawned { .. })));
}

#[test]
fn boss_trigger_enters_the_boss_fight() {
    let mut g = playing_game(&["cat"], 10);
    g.enemies.insert(Enemy { letter: 'a', x: 0, y: 0 });
    g.key_actions.push('q');
    let mut i = input("", false);
    i.boss_trigger_pressed = true;
    g.tick(&i, 1_000);
    assert_eq!(g.state, GameState::Boss);
    assert!(g.enemies.enemies.is_empty());
    assert!(g.key_actions.char_stack().is_empty());
    assert_eq!(g.arena.floor_words.len(), 9);
    assert_eq!(g.arena.boss.unwrap().health, 26);
    assert_eq!(g.arena.letters.len(), 26);
}

#[test]
fn collected_words_go_on_the_floor() {
    let mut g = playing_game(&["ice"], 10);
    for c in "ice".chars() {
        g.key_actions.push(c);
    }
    g.play_tick(&input("", true), 1_000);
    g.enter_boss_phase();
    assert_eq!(g.arena.floor_words.len(), 1);
    assert_eq!(g.arena.floor_words[0].word, chars("ice"));
}

#[test]
fn typing_in_the_boss_fight_follows_the_floor_words() {
    let mut g = playing_game(&[], 10);
    g.enter_boss_phase();
    g.tick(&input("q", false), 1_000);
    assert_eq!(g.key_actions.char_stack(), &chars("q"));
    g.tick(&input("x", false), 1_000);
    assert_eq!(g.key_actions.char_stack(), &chars("q"));
    g.tick(&input("uick", false), 1_000);
    assert_eq!(g.key_actions.char_stack(), &chars("quick"));
    let mut back = input("", false);
    back.backspace_pressed = true;
    g.tick(&back, 1_000);
    assert_eq!(g.key_actions.char_stack(), &chars("quic"));
    g.tick(&input("k", false), 1_000);
    assert!(g.arena.bullets.is_empty());
    g.tick(&input("", true), 1_000);
    assert!(g.key_actions.char_stack().is_empty());
    let lost = 26 - g.arena.boss.unwrap().health as usize;
    assert_eq!(g.arena.bullets.len() + lost, 12);
}

#[test]
fn confirming_a_partial_word_keeps_the_text() {
    let mut g = playing_game(&[], 10);
    g.enter_boss_phase();
    g.tick(&input("th", true), 1_000);
    assert_eq!(g.key_actions.char_stack(), &chars("th"));
    assert!(g.arena.bullets.is_empty());
    g.tick(&input("e", true), 1_000);
    assert!(g.key_actions.char_stack().is_empty());
    let lost = 26 - g.arena.boss.unwrap().health as usize;
    assert_eq!(g.arena.bullets.len() + lost, 16);
}

#[test]
fn defeating_the_boss_is_reported_once() {
    let mut g = playing_game(&[], 10);
    g.enter_boss_phase();
    let p = g.arena.boss.unwrap().position;
    for _ in 0..26 {
        g.arena.bullets.push(word_swarm::boss::LetterBullet {
            glyph: 'X',
            position: p,
            velocity: word_swarm::motion::Vec2 { x: 0, y: 0 },
            time_left: 5_000_000,
            mode: word_swarm::boss::LetterBulletMode::Straight,
        });
    }
    let events = g.tick(&input("", false), 1_000);
    assert_eq!(g.arena.state, BossState::Defeated);
    assert!(events.contains(&GameEvent::BossDamaged { health: 0 }));
    assert!(events.contains(&GameEvent::BossDefeated));
    let again = g.tick(&input("", false), 1_000);
    assert!(again.is_empty());
}

#[test]
fn a_tick_without_confirm_keeps_the_collected_words() {
    let mut g = playing_game(&["cat"], 10);
    for c in "cat".chars() {
        g.key_actions.push(c);
    }
    g.play_tick(&input("", true), 1_000);
    assert_eq!(g.key_actions.all_collected_words(), &vec![chars("cat")]);
    for c in "cat".chars() {
        g.key_actions.push(c);
    }
    g.enemies.insert(Enemy { letter: 'z', x: 0, y: 0 });
    g.play_tick(&input("z", false), 1_000);
    assert_eq!(g.key_actions.all_collected_words(), &vec![chars("cat")]);
    assert_eq!(g.key_actions.char_stack(), &chars("catz"));
}

#[test]
fn loading_and_menu_steps_change_only_the_phase() {
    let mut g = playing_game(&[], 10);
    g.enemies.insert(Enemy { letter: 'a', x: 0, y: 0 });
    g.finish_loading();
    g.start_playing();
    assert_eq!(g.state, GameState::Playing);
    assert_eq!(g.enemies.enemies.len(), 1);
}

#[test]
fn entering_the_boss_fight_starts_afresh() {
    let mut g = playing_game(&["dog"], 10);
    for c in "dog".chars() {
        g.key_actions.push(c);
    }
    g.play_tick(&input("", true), 1_000);
    g.enter_boss_phase();
    assert_eq!(g.arena.floor_words.len(), 1);
    assert_eq!(g.arena.floor_words[0].word, chars("dog"));
    let b = g.arena.boss.unwrap();
    assert_eq!(b.health, 26);
    assert_eq!(b.position, word_swarm::motion::Vec2 { x: 0, y: 0 });
    assert_eq!(g.arena.letters.len(), 26);
    assert!(g.arena.bullets.is_empty());
    assert_eq!(g.arena.state, BossState::Swarming);
}

#[test]
fn boss_damage_reports_the_health_left() {
    let mut g = playing_game(&[], 10);
    g.enter_boss_phase();
    let p = g.arena.boss.unwrap().position;
    for _ in 0..3 {
        g.arena.bullets.push(word_swarm::boss::LetterBullet {
            glyph: 'I',
            position: p,
            velocity: word_swarm::motion::Vec2 { x: 0, y: 0 },
            time_left: 5_000_000,
            mode: word_swarm::boss::LetterBulletMode::Straight,
        });
    }
    let events = g.tick(&input("", false), 1_000);
    assert_eq!(events, vec![GameEvent::BossDamaged { health: 23 }]);
    assert_eq!(g.arena.letters.len(), 23);
    let quiet = g.tick(&input("", false), 1_000);
    assert!(quiet.is_empty());
}

#[test]
fn elimination_events_carry_the_places_in_press_order() {
    let mut g = playing_game(&[], 10);
    g.enemies.insert(Enemy { letter: 'a', x: 7, y: 50_000_000 });
    g.enemies.insert(Enemy { letter: 'b', x: 9, y: 10_000_000 });
    g.enemies.insert(Enemy { letter: 'q', x: 3, y: KILL_LINE_Y });
    let events = g.play_tick(&input("ba", false), 1_000);
    assert_eq!(
        events,
        vec![
            GameEvent::EnemyEliminated { x: 9, y: 10_000_000 - 20_000 },
            GameEvent::EnemyEliminated { x: 7, y: 50_000_000 - 20_000 },
            GameEvent::EnemyCrossedKillLine { letter: 'q' },
        ]
    );
    assert_eq!(g.key_actions.char_stack(), &chars("baq"));
}

#[test]
fn commit_and_spawn_events_follow_in_order() {
    let mut g = playing_game(&["cat"], 10);
    for c in "cat".chars() {
        g.key_actions.push(c);
    }
    let events = g.play_tick(&input("", true), 1_000_000);
    assert_eq!(events[0], GameEvent::WordCommitted { first_slot: 0, length: 3 });
    assert!(matches!(events[1], GameEvent::EnemySpawned { .. }));
    assert_eq!(events.len(), 2);
    assert_eq!(g.spawn_timer.time_since_last_spawn, 0);
}

#[test]
fn confirm_after_defeat_fires_nothing() {
    let mut g = playing_game(&[], 10);
    g.enter_boss_phase();
    let p = g.arena.boss.unwrap().position;
    for _ in 0..26 {
        g.arena.bullets.push(word_swarm::boss::LetterBullet {
            glyph: 'X',
            position: p,
            velocity: word_swarm::motion::Vec2 { x: 0, y: 0 },
            time_left: 5_000_000,
            mode: word_swarm::boss::LetterBulletMode::Straight,
        });
    }
    g.tick(&input("", false), 1_000);
    assert_eq!(g.arena.state, BossState::Defeated);
    let bullets = g.arena.bullets.len();
    g.tick(&input("the", false), 1_000);
    g.tick(&input("", true), 1_000);
    assert_eq!(g.arena.bullets.len(), bullets);
    assert_eq!(g.key_actions.char_stack(), &chars("the"));
}
