//! The game's phases and the tick that runs the simulation in its fixed
//! order: input, resolution, words, boss, collisions.
use vstd::prelude::*;
use crate::boss::{
    arena_fired, arena_ticked, backup_words, Boss, BossArena, BossState, BOSS_STARTING_HEALTH,
};
use crate::motion::Vec2;
use crate::dictionary::Dictionary;
use crate::enemy::{
    after_presses, fallen, has_crossed, has_letter, is_lowest_match, removed_by_presses, standing,
    Enemy, EnemyField,
    KILL_LINE_Y,
};
use crate::spawner::{spawn_tick, EnemySpawnTimer};
use crate::tray::{copy_chars, is_prefix_of, longest_word_suffix, KeyActions};

verus! {

/// The phases of a run.
#[derive(Clone, Copy, Debug, PartialEq, Eq, Structural)]
pub enum GameState {
    /// Assets are loading.
    Loading,
    /// Letters fall and the tray fills.
    Playing,
    /// The boss fight.
    Boss,
    /// The tray overflowed: the run is lost.
    PlayingLose,
    /// The menu waits for the player.
    Menu,
}

/// What happened during a tick, for rendering and sound.
#[derive(Clone, Copy, Debug, PartialEq, Eq, Structural)]
pub enum GameEvent {
    EnemySpawned { letter: char, x: i64, y: i64 },
    EnemyEliminated { x: i64, y: i64 },
    EnemyCrossedKillLine { letter: char },
    WordCommitted { first_slot: usize, length: usize },
    BossDamaged { health: u32 },
    BossDefeated,
    PlayerLost,
}

/// The input of one tick: the letters just pressed, in order, and the edge
/// triggers.
pub struct TickInput {
    pub keys_just_pressed: Vec<char>,
    pub space_pressed: bool,
    pub backspace_pressed: bool,
    pub boss_trigger_pressed: bool,
}

/// The stack after the presses of a tick: each pressed letter that some
/// falling letter shows is added, in order.
pub open spec fn gathered(stack: Seq<char>, es: Seq<Enemy>, keys: Seq<char>) -> Seq<char> {
    stack + keys.filter(|c: char| has_letter(es, c))
}

/// The falling letters once they have fallen and the presses have removed
/// theirs.
pub open spec fn pressed_field(es: Seq<Enemy>, keys: Seq<char>, dt_us: u32) -> Seq<Enemy> {
    after_presses(es.map_values(|e: Enemy| fallen(e, dt_us)), keys)
}

/// The letters that cross the kill line this tick, in field order.
pub open spec fn crossing_letters(es: Seq<Enemy>, keys: Seq<char>, dt_us: u32) -> Seq<char> {
    pressed_field(es, keys, dt_us).filter(|e: Enemy| has_crossed(e)).map_values(|e: Enemy| e.letter)
}

/// The falling letters that stay on the field this tick.
pub open spec fn staying(es: Seq<Enemy>, keys: Seq<char>, dt_us: u32) -> Seq<Enemy> {
    pressed_field(es, keys, dt_us).filter(|e: Enemy| !has_crossed(e))
}

/// The stack after a confirm: the word at its end, if any, is taken off.
pub open spec fn committed(stack: Seq<char>, words: Set<Seq<char>>) -> Seq<char> {
    match longest_word_suffix(stack, words) {
        Some(w) => stack.subrange(0, stack.len() - w.len()),
        None => stack,
    }
}

/// The event of the letter `c` crossing the kill line.
pub open spec fn crossing_event(c: char) -> GameEvent {
    GameEvent::EnemyCrossedKillLine { letter: c }
}

/// The event of the letter `e` being removed by a keypress, where it stood.
pub open spec fn elimination_event(e: Enemy) -> GameEvent {
    GameEvent::EnemyEliminated { x: e.x, y: e.y }
}

/// The falling letters that the presses of a tick remove, in press order, as
/// they stood after falling.
pub open spec fn eliminated_letters(es: Seq<Enemy>, keys: Seq<char>, dt_us: u32) -> Seq<Enemy> {
    removed_by_presses(es.map_values(|e: Enemy| fallen(e, dt_us)), keys)
}

/// The events of a tick's resolution: one elimination per letter that a
/// press removed, in press order and at its place, then one crossing per
/// letter taken into the tray, in field order.
pub open spec fn resolution_events(es: Seq<Enemy>, keys: Seq<char>, dt_us: u32) -> Seq<GameEvent> {
    eliminated_letters(es, keys, dt_us).map_values(|e: Enemy| elimination_event(e))
        + crossing_letters(es, keys, dt_us).map_values(|c: char| crossing_event(c))
}

/// The event of a confirm on `stack`: the word at its end, its first slot and
/// its length, when there is a word and confirm was pressed.
pub open spec fn commit_events(stack: Seq<char>, words: Set<Seq<char>>, confirm: bool) -> Seq<GameEvent> {
    match longest_word_suffix(stack, words) {
        Some(w) if confirm => seq![
            GameEvent::WordCommitted {
                first_slot: (stack.len() - w.len()) as usize,
                length: w.len() as usize,
            },
        ],
        _ => Seq::<GameEvent>::empty(),
    }
}

/// The letter that the scheduler placed, if any, as a sequence.
pub open spec fn spawned_letters(r: Option<Enemy>) -> Seq<Enemy> {
    match r {
        Some(e) => seq![e],
        None => Seq::<Enemy>::empty(),
    }
}

/// The event of the scheduler placing a letter, if it did.
pub open spec fn spawn_events(r: Option<Enemy>) -> Seq<GameEvent> {
    match r {
        Some(e) => seq![GameEvent::EnemySpawned { letter: e.letter, x: e.x, y: e.y }],
        None => Seq::<GameEvent>::empty(),
    }
}

/// What one tick of play does; see `Game::play_tick`.
pub open spec fn play_outcome(
    old: Game,
    new: Game,
    input: TickInput,
    dt_us: u32,
    events: Seq<GameEvent>,
) -> bool {
    let es = old.enemies.enemies@;
    let keys = input.keys_just_pressed@;
    let cap = old.key_actions.capacity();
    let words = old.key_actions.words();
    let admitted = gathered(old.key_actions.stack(), es, keys) + crossing_letters(es, keys, dt_us);
    let resolution = resolution_events(es, keys, dt_us);
    &&& new.key_actions.capacity() == cap
    &&& new.key_actions.words() == words
    &&& if old.key_actions.stack().len() > cap {
        &&& new.state == GameState::PlayingLose
        &&& new.enemies == old.enemies
        &&& new.spawn_timer == old.spawn_timer
        &&& new.key_actions.stack() == old.key_actions.stack()
        &&& new.key_actions.collected() == old.key_actions.collected()
        &&& events == seq![GameEvent::PlayerLost]
    } else if admitted.len() > cap {
        &&& new.state == GameState::PlayingLose
        &&& new.enemies.enemies@ == staying(es, keys, dt_us)
        &&& new.spawn_timer == old.spawn_timer
        &&& new.key_actions.stack() == admitted
        &&& new.key_actions.collected() == old.key_actions.collected()
        &&& events == resolution.push(GameEvent::PlayerLost)
    } else {
        &&& new.state == GameState::Playing
        &&& new.key_actions.stack() == if input.space_pressed {
            committed(admitted, words)
        } else {
            admitted
        }
        &&& new.key_actions.collected() == match longest_word_suffix(admitted, words) {
            Some(w) if input.space_pressed => old.key_actions.collected().push(w),
            _ => old.key_actions.collected(),
        }
        &&& exists|spawned: Option<Enemy>|
            #[trigger] spawn_tick(old.spawn_timer, new.spawn_timer, dt_us, spawned)
                && new.enemies.enemies@ == staying(es, keys, dt_us) + spawned_letters(spawned)
                && events == resolution + commit_events(admitted, words, input.space_pressed)
                + spawn_events(spawned)
    }
}

/// The text typed in the boss fight after a tick's keys: backspace takes off
/// the last letter, and the pressed letters are added only where the result
/// still begins some floor word.
pub open spec fn typed_after(old: Game, input: TickInput) -> Seq<char> {
    let s0 = old.key_actions.stack();
    let base = if input.backspace_pressed && s0.len() > 0 {
        s0.drop_last()
    } else {
        s0
    };
    let candidate = base + input.keys_just_pressed@;
    if exists|k: int|
        0 <= k < old.arena.floor_words.len() && is_prefix_of(
            candidate,
            #[trigger] old.arena.floor_words[k].word@,
        ) {
        candidate
    } else {
        base
    }
}

/// The events of a boss-fight tick: the boss's remaining health when it lost
/// points, then its defeat when this tick ended the fight.
pub open spec fn boss_events(before: BossArena, after: BossArena, hits: u32) -> Seq<GameEvent> {
    (if hits > 0 {
        seq![GameEvent::BossDamaged { health: after.boss.unwrap().health }]
    } else {
        Seq::<GameEvent>::empty()
    }) + (if before.state == BossState::Swarming && after.state == BossState::Defeated {
        seq![GameEvent::BossDefeated]
    } else {
        Seq::<GameEvent>::empty()
    })
}

/// What one tick of the boss fight does; see `Game::boss_tick`.
pub open spec fn boss_outcome(
    old: Game,
    new: Game,
    input: TickInput,
    dt_us: u32,
    events: Seq<GameEvent>,
) -> bool {
    let typed = typed_after(old, input);
    &&& new.state == GameState::Boss
    &&& new.enemies == old.enemies
    &&& new.spawn_timer == old.spawn_timer
    &&& new.key_actions.capacity() == old.key_actions.capacity()
    &&& new.key_actions.words() == old.key_actions.words()
    &&& new.key_actions.collected() == old.key_actions.collected()
    &&& new.key_actions.stack() == if input.space_pressed && old.arena.state == BossState::Swarming
        && old.arena.floor_texts().contains(typed) {
        Seq::<char>::empty()
    } else {
        typed
    }
    &&& exists|mid: BossArena, hits: u32|
        (if input.space_pressed && old.arena.state == BossState::Swarming {
            arena_fired(old.arena, mid, typed)
        } else {
            mid == old.arena
        }) && #[trigger] arena_ticked(mid, new.arena, dt_us as int, hits) && events == boss_events(
            mid,
            new.arena,
            hits,
        )
}

/// The run after entering the boss fight from play: the falling letters and
/// the typed text are gone, the collected words (or the backup words when
/// none was collected) lie on the floor, and the boss has appeared with its
/// full swarm and no bullet in flight.
pub open spec fn boss_entry(old: Game, new: Game) -> bool {
    &&& new.state == GameState::Boss
    &&& new.enemies.enemies@ == Seq::<Enemy>::empty()
    &&& new.spawn_timer == old.spawn_timer
    &&& new.key_actions.stack() == Seq::<char>::empty()
    &&& new.key_actions.capacity() == old.key_actions.capacity()
    &&& new.key_actions.words() == old.key_actions.words()
    &&& new.key_actions.collected() == old.key_actions.collected()
    &&& new.arena.floor_texts() == if old.key_actions.collected().len() == 0 {
        backup_words()
    } else {
        old.key_actions.collected()
    }
    &&& new.arena.boss == Some(
        Boss {
            position: Vec2 { x: 0, y: 0 },
            velocity: Vec2 { x: 0, y: 0 },
            health: BOSS_STARTING_HEALTH,
        },
    )
    &&& new.arena.letters.len() == BOSS_STARTING_HEALTH
    &&& new.arena.bullets.len() == 0
    &&& new.arena.state == BossState::Swarming
}

proof fn lemma_single_after_presses(e: Enemy, keys: Seq<char>)
    ensures
        after_presses(seq![e], keys) == if keys.contains(e.letter) {
            Seq::<Enemy>::empty()
        } else {
            seq![e]
        },
    decreases keys.len(),
{
    if keys.len() > 0 {
        let init = keys.drop_last();
        let x = keys.last();
        lemma_single_after_presses(e, init);
        assert(keys =~= init.push(x));
        assert(keys.contains(e.letter) == (init.contains(e.letter) || x == e.letter)) by {
            if keys.contains(e.letter) {
                let j = choose|j: int| 0 <= j < keys.len() && keys[j] == e.letter;
                if j < init.len() {
                    assert(init[j] == e.letter);
                }
            }
            if init.contains(e.letter) {
                let j = choose|j: int| 0 <= j < init.len() && init[j] == e.letter;
                assert(keys[j] == e.letter);
            }
            if x == e.letter {
                assert(keys[keys.len() - 1] == e.letter);
            }
        }
        let before = after_presses(seq![e], init);
        if init.contains(e.letter) {
            assert(!has_letter(before, x));
        } else if x == e.letter {
            assert(is_lowest_match(before, x, 0));
            assert(has_letter(before, x)) by {
                assert(before[0].letter == x);
            }
            let i = choose|i: int| is_lowest_match(before, x, i);
            assert(i == 0);
            assert(before.remove(0) =~= Seq::<Enemy>::empty());
        } else {
            assert(!has_letter(before, x)) by {
                if has_letter(before, x) {
                    let j = choose|j: int| 0 <= j < before.len() && #[trigger] before[j].letter == x;
                    assert(before[j] == e);
                }
            }
        }
    } else {
        assert(!keys.contains(e.letter));
    }
}

/// A keypress beats the kill line. A falling letter whose character is
/// pressed in the same tick is removed by the press, even where its fall
/// would take it below the kill line: it never joins the tray by crossing,
/// and nothing of it stays on the field.
pub proof fn lemma_keypress_beats_kill_line(e: Enemy, keys: Seq<char>, dt_us: u32)
    requires
        keys.contains(e.letter),
    ensures
        crossing_letters(seq![e], keys, dt_us) == Seq::<char>::empty(),
        staying(seq![e], keys, dt_us) == Seq::<Enemy>::empty(),
{
    let fell = fallen(e, dt_us);
    assert(seq![e].map_values(|x: Enemy| fallen(x, dt_us)) =~= seq![fell]);
    lemma_single_after_presses(fell, keys);
    let pressed = pressed_field(seq![e], keys, dt_us);
    assert(pressed =~= Seq::<Enemy>::empty());
    assert(pressed.filter(|x: Enemy| has_crossed(x)) =~= Seq::<Enemy>::empty()) by {
        reveal(Seq::filter);
    }
    assert(pressed.filter(|x: Enemy| !has_crossed(x)) =~= Seq::<Enemy>::empty()) by {
        reveal(Seq::filter);
    }
    assert(crossing_letters(seq![e], keys, dt_us) =~= Seq::<char>::empty());
}

/// The whole simulation.
pub struct Game {
    pub state: GameState,
    pub key_actions: KeyActions,
    pub enemies: EnemyField,
    pub spawn_timer: EnemySpawnTimer,
    pub arena: BossArena,
}

impl Game {
    /// The parts keep their invariants, and no falling letter stands below
    /// the kill line between ticks.
    pub open spec fn wf(&self) -> bool {
        &&& self.key_actions.wf()
        &&& self.enemies.wf()
        &&& forall|i: int| 0 <= i < self.enemies.enemies.len() ==> standing(#[trigger] self.enemies.enemies[i])
        &&& self.spawn_timer.wf()
        &&& self.arena.wf()
    }

    /// A run that starts loading, with an empty tray of `capacity` over
    /// `dictionary`.
    pub fn new(dictionary: Dictionary, capacity: usize) -> (g: Game)
        requires
            dictionary.wf(),
        ensures
            g.wf(),
            g.state == GameState::Loading,
            g.key_actions.stack() == Seq::<char>::empty(),
            g.key_actions.capacity() == capacity,
            g.key_actions.words() == dictionary@,
            g.enemies.enemies@ == Seq::<Enemy>::empty(),
            g.arena.boss.is_none(),
    {
        Game {
            state: GameState::Loading,
            key_actions: KeyActions::new(dictionary, capacity),
            enemies: EnemyField::new(),
            spawn_timer: EnemySpawnTimer::new(),
            arena: BossArena::new(),
        }
    }

    /// The current phase.
    pub fn current_phase(&self) -> (r: GameState)
        ensures
            r == self.state,
    {
        self.state
    }

    /// Loading is over: the menu shows.
    pub fn finish_loading(&mut self)
        ensures
            final(self).state == if old(self).state == GameState::Loading {
                GameState::Menu
            } else {
                old(self).state
            },
            final(self).key_actions == old(self).key_actions,
            final(self).enemies == old(self).enemies,
            final(self).spawn_timer == old(self).spawn_timer,
            final(self).arena == old(self).arena,
            old(self).wf() ==> final(self).wf(),
    {
        if self.state == GameState::Loading {
            self.state = GameState::Menu;
        }
    }

    /// The player leaves the menu: play starts.
    pub fn start_playing(&mut self)
        ensures
            final(self).state == if old(self).state == GameState::Menu {
                GameState::Playing
            } else {
                old(self).state
            },
            final(self).key_actions == old(self).key_actions,
            final(self).enemies == old(self).enemies,
            final(self).spawn_timer == old(self).spawn_timer,
            final(self).arena == old(self).arena,
            old(self).wf() ==> final(self).wf(),
    {
        if self.state == GameState::Menu {
            self.state = GameState::Playing;
        }
    }

    /// From play into the boss fight: the falling letters go, the tray is
    /// emptied for typing, the collected words (or the backup words) go on
    /// the floor, and the boss appears. Outside play nothing happens.
    pub fn enter_boss_phase(&mut self)
        requires
            old(self).wf(),
        ensures
            final(self).wf(),
            old(self).state == GameState::Playing ==> boss_entry(*old(self), *final(self)),
            old(self).state != GameState::Playing ==> *final(self) == *old(self),
    {
        if self.state != GameState::Playing {
            return;
        }
        self.enemies.clear();
        self.key_actions.clear();
        self.arena = BossArena::new();
        self.arena.spawn_words_on_the_ground(self.key_actions.all_collected_words());
        self.arena.spawn_boss();
        self.state = GameState::Boss;
        proof {
            let texts = if old(self).key_actions.collected().len() == 0 {
                backup_words()
            } else {
                old(self).key_actions.collected()
            };
            assert(Seq::<Seq<char>>::empty() + texts =~= texts);
        }
    }

    /// A tick's falling letters: they fall, each press removes the lowest
    /// letter that shows it, and those below the kill line leave the field
    /// and join the tray.
    #[verifier::rlimit(40)]
    fn resolve_enemies(&mut self, keys: &Vec<char>, dt_us: u32) -> (events: Vec<GameEvent>)
        requires
            old(self).wf(),
        ensures
            final(self).wf(),
            final(self).state == old(self).state,
            final(self).spawn_timer == old(self).spawn_timer,
            final(self).key_actions.capacity() == old(self).key_actions.capacity(),
            final(self).key_actions.words() == old(self).key_actions.words(),
            final(self).key_actions.collected() == old(self).key_actions.collected(),
            final(self).key_actions.stack() == old(self).key_actions.stack() + crossing_letters(
                old(self).enemies.enemies@,
                keys@,
                dt_us,
            ),
            final(self).enemies.enemies@ == staying(old(self).enemies.enemies@, keys@, dt_us),
            events@ == resolution_events(old(self).enemies.enemies@, keys@, dt_us),
    {
        let ghost es = self.enemies.enemies@;
        let ghost stack1 = self.key_actions.stack();
        let mut events: Vec<GameEvent> = Vec::new();
        self.enemies.move_enemies(dt_us);
        let removed = self.enemies.eliminate_for_keys(keys);
        let mut r: usize = 0;
        while r < removed.len()
            invariant
                0 <= r <= removed.len(),
                events@ == removed@.subrange(0, r as int).map_values(|e: Enemy| elimination_event(e)),
            decreases removed.len() - r,
        {
            let e = removed[r];
            events.push(GameEvent::EnemyEliminated { x: e.x, y: e.y });
            assert(removed@.subrange(0, r + 1) =~= removed@.subrange(0, r as int).push(e));
            assert(events@ =~= removed@.subrange(0, r + 1).map_values(|e: Enemy| elimination_event(e)));
            r = r + 1;
        }
        assert(removed@.subrange(0, removed.len() as int) =~= removed@);
        let ghost elim = events@;
        let crossed = self.enemies.cross_kill_line();
        let mut k: usize = 0;
        while k < crossed.len()
            invariant
                self.wf(),
                self.state == old(self).state,
                self.spawn_timer == old(self).spawn_timer,
                0 <= k <= crossed.len(),
                self.key_actions.stack() == stack1 + crossed@.subrange(0, k as int),
                self.key_actions.capacity() == old(self).key_actions.capacity(),
                self.key_actions.words() == old(self).key_actions.words(),
                self.key_actions.collected() == old(self).key_actions.collected(),
                self.enemies.enemies@ == staying(es, keys@, dt_us),
                crossed@ == crossing_letters(es, keys@, dt_us),
                events@ == elim + crossed@.subrange(0, k as int).map_values(|c: char| crossing_event(c)),
            decreases crossed.len() - k,
        {
            let c = crossed[k];
            self.key_actions.push(c);
            assert(self.key_actions.stack() =~= stack1 + crossed@.subrange(0, k + 1));
            events.push(GameEvent::EnemyCrossedKillLine { letter: c });
            assert(crossed@.subrange(0, k + 1) =~= crossed@.subrange(0, k as int).push(c));
            assert(events@ =~= elim + crossed@.subrange(0, k + 1).map_values(|c: char| crossing_event(c)));
            k = k + 1;
        }
        assert(crossed@.subrange(0, crossed.len() as int) =~= crossed@);
        events
    }

    /// One tick of play. A tray that overflowed before the tick loses the run
    /// at once, and nothing else happens. Otherwise, in order: each pressed
    /// letter that some falling letter shows joins the tray; the letters fall;
    /// each press removes the lowest letter that shows it; the letters below
    /// the kill line leave the field and join the tray; a tray now over its
    /// capacity loses the run; a confirm commits the word at the tray's end;
    /// and the scheduler may add a letter.
    #[verifier::rlimit(40)]
    pub fn play_tick(&mut self, input: &TickInput, dt_us: u32) -> (events: Vec<GameEvent>)
        requires
            old(self).wf(),
            old(self).state == GameState::Playing,
        ensures
            final(self).wf(),
            play_outcome(*old(self), *final(self), *input, dt_us, events@),
    {
        if self.key_actions.is_overflowed() {
            self.state = GameState::PlayingLose;
            let mut events: Vec<GameEvent> = Vec::new();
            events.push(GameEvent::PlayerLost);
            assert(events@ =~= seq![GameEvent::PlayerLost]);
            return events;
        }
        let ghost es = self.enemies.enemies@;
        let ghost keys = input.keys_just_pressed@;
        let ghost stack0 = self.key_actions.stack();
        let keys_v = &input.keys_just_pressed;
        let mut i: usize = 0;
        while i < keys_v.len()
            invariant
                self.wf(),
                self.state == GameState::Playing,
                self.enemies.enemies@ == es,
                self.spawn_timer == old(self).spawn_timer,
                keys == keys_v@,
                0 <= i <= keys_v.len(),
                self.key_actions.stack() == stack0 + keys.subrange(0, i as int).filter(
                    |c: char| has_letter(es, c),
                ),
                self.key_actions.capacity() == old(self).key_actions.capacity(),
                self.key_actions.words() == old(self).key_actions.words(),
                self.key_actions.collected() == old(self).key_actions.collected(),
            decreases keys_v.len() - i,
        {
            let c = keys_v[i];
            proof {
                assert(keys.subrange(0, i + 1) =~= keys.subrange(0, i as int).push(c));
                keys.subrange(0, i as int).lemma_filter_push(c, |c: char| has_letter(es, c));
            }
            if self.enemies.any_with_letter(c) {
                self.key_actions.push(c);
                assert(self.key_actions.stack() =~= stack0 + keys.subrange(0, i + 1).filter(
                    |c: char| has_letter(es, c),
                ));
            }
            i = i + 1;
        }
        assert(keys.subrange(0, keys.len() as int) =~= keys);
        let ghost stack1 = self.key_actions.stack();
        let mut events = self.resolve_enemies(keys_v, dt_us);
        let ghost resolution = events@;
        if self.key_actions.is_overflowed() {
            self.state = GameState::PlayingLose;
            events.push(GameEvent::PlayerLost);
            return events;
        }
        let ghost admitted = self.key_actions.stack();
        let ghost words = self.key_actions.words();
        proof {
            self.key_actions.lemma_longest_is_current();
        }
        if input.space_pressed {
            match self.key_actions.commit_word() {
                Some(commit) => {
                    events.push(
                        GameEvent::WordCommitted {
                            first_slot: commit.first_slot,
                            length: commit.word.len(),
                        },
                    );
                },
                None => {},
            }
        }
        assert(events@ =~= resolution + commit_events(admitted, words, input.space_pressed));
        let ghost before_spawn = events@;
        let ghost field = self.enemies.enemies@;
        let spawned = self.spawn_timer.tick(dt_us);
        match spawned {
            Some(e) => {
                assert(KILL_LINE_Y <= e.y);
                assert(-480_000_000_000 <= e.x <= 480_000_000_000);
                self.enemies.insert(e);
                events.push(GameEvent::EnemySpawned { letter: e.letter, x: e.x, y: e.y });
            },
            None => {},
        }
        assert(self.enemies.enemies@ =~= field + spawned_letters(spawned));
        assert(events@ =~= before_spawn + spawn_events(spawned));
        assert(spawn_tick(old(self).spawn_timer, self.spawn_timer, dt_us, spawned));
        assert(field == staying(es, keys, dt_us));
        assert(admitted == gathered(old(self).key_actions.stack(), es, keys) + crossing_letters(es, keys, dt_us));
        events
    }

    /// One tick of the boss fight. Backspace takes a letter off the typed
    /// text; the pressed letters are added only where the result still begins
    /// some floor word; while the boss swarms, a confirm on a text equal to a
    /// floor word fires its bullets and empties the typed text; then the arena
    /// runs its tick.
    pub fn boss_tick(&mut self, input: &TickInput, dt_us: u32) -> (events: Vec<GameEvent>)
        requires
            old(self).wf(),
            old(self).state == GameState::Boss,
        ensures
            final(self).wf(),
            boss_outcome(*old(self), *final(self), *input, dt_us, events@),
    {
        let mut events: Vec<GameEvent> = Vec::new();
        if input.backspace_pressed {
            self.key_actions.pop();
        }
        let ghost base = self.key_actions.stack();
        let mut candidate: Vec<char> = copy_chars(self.key_actions.char_stack());
        let keys = &input.keys_just_pressed;
        let mut i: usize = 0;
        while i < keys.len()
            invariant
                0 <= i <= keys.len(),
                candidate@ == base + keys@.subrange(0, i as int),
            decreases keys.len() - i,
        {
            candidate.push(keys[i]);
            assert(candidate@ =~= base + keys@.subrange(0, i + 1));
            i = i + 1;
        }
        assert(keys@.subrange(0, keys.len() as int) =~= keys@);
        if self.arena.has_word_with_prefix(&candidate) {
            let mut j: usize = 0;
            while j < keys.len()
                invariant
                    self.wf(),
                    self.state == GameState::Boss,
                    self.enemies == old(self).enemies,
                    self.spawn_timer == old(self).spawn_timer,
                    self.arena == old(self).arena,
                    self.key_actions.capacity() == old(self).key_actions.capacity(),
                    self.key_actions.words() == old(self).key_actions.words(),
                    self.key_actions.collected() == old(self).key_actions.collected(),
                    0 <= j <= keys.len(),
                    self.key_actions.stack() == base + keys@.subrange(0, j as int),
                decreases keys.len() - j,
            {
                self.key_actions.push(keys[j]);
                assert(self.key_actions.stack() =~= base + keys@.subrange(0, j + 1));
                j = j + 1;
            }
        }
        if input.space_pressed && self.arena.state == BossState::Swarming {
            let typed = copy_chars(self.key_actions.char_stack());
            let fired = self.arena.fire_completed_words(&typed);
            if fired {
                self.key_actions.clear();
            }
        }
        let ghost mid = self.arena;
        let was_swarming = self.arena.state == BossState::Swarming;
        let hits = self.arena.tick(dt_us);
        if hits > 0 {
            let health = match self.arena.boss {
                Some(b) => b.health,
                None => 0,
            };
            events.push(GameEvent::BossDamaged { health });
        }
        if was_swarming && self.arena.state == BossState::Defeated {
            events.push(GameEvent::BossDefeated);
        }
        assert(events@ =~= boss_events(mid, self.arena, hits));
        events
    }

    /// One tick of the run in its current phase. In play, a boss trigger that
    /// finds the run still in play starts the boss fight after the tick.
    /// Loading, the menu and a lost run do nothing.
    pub fn tick(&mut self, input: &TickInput, dt_us: u32) -> (events: Vec<GameEvent>)
        requires
            old(self).wf(),
        ensures
            final(self).wf(),
            match old(self).state {
                GameState::Playing => exists|mid: Game|
                    #[trigger] play_outcome(*old(self), mid, *input, dt_us, events@) && if input.boss_trigger_pressed
                        && mid.state == GameState::Playing {
                        boss_entry(mid, *final(self))
                    } else {
                        *final(self) == mid
                    },
                GameState::Boss => boss_outcome(*old(self), *final(self), *input, dt_us, events@),
                _ => *final(self) == *old(self) && events@.len() == 0,
            },
    {
        match self.state {
            GameState::Playing => {
                let events = self.play_tick(input, dt_us);
                let ghost mid = *self;
                if input.boss_trigger_pressed && self.state == GameState::Playing {
                    self.enter_boss_phase();
                }
                assert(play_outcome(*old(self), mid, *input, dt_us, events@));
                events
            },
            GameState::Boss => self.boss_tick(input, dt_us),
            _ => Vec::new(),
        }
    }
}

} // verus!
