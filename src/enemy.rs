//! Falling letters and the per-tick resolution of keypresses and kill-line
//! crossings.
use vstd::prelude::*;
use vstd::multiset::Multiset;
use crate::motion::{clamp_to_world, world_clamp};

verus! {

broadcast use vstd::seq_lib::group_seq_properties;

/// Half the extent, in micro-pixels, of the region in which positions are
/// kept; far beyond the screen.
pub const WORLD_LIMIT: i64 = 1_000_000_000_000_000;

/// The vertical position, in micro-pixels, below which a falling letter has
/// reached the player.
pub const KILL_LINE_Y: i64 = -150_000_000;

/// How fast letters fall, in pixels per second.
pub const ENEMY_FALL_SPEED: i64 = 20;

/// A falling letter. Positions are in micro-pixels, the origin at the centre
/// of the screen and `y` growing upwards.
#[derive(Clone, Copy, Debug, PartialEq, Eq, Structural)]
pub struct Enemy {
    pub letter: char,
    pub x: i64,
    pub y: i64,
}

/// A coordinate inside the region in which positions are kept.
pub open spec fn in_world(v: i64) -> bool {
    -WORLD_LIMIT <= v <= WORLD_LIMIT
}

/// The letter after falling for `dt_us` microseconds.
pub open spec fn fallen(e: Enemy, dt_us: u32) -> Enemy {
    Enemy { y: world_clamp(e.y - ENEMY_FALL_SPEED * dt_us) as i64, ..e }
}

/// `es[i]` is the letter `c` that stands lowest among those showing `c`, the
/// first of them where several stand equally low.
pub open spec fn is_lowest_match(es: Seq<Enemy>, c: char, i: int) -> bool {
    &&& 0 <= i < es.len()
    &&& es[i].letter == c
    &&& forall|j: int|
        0 <= j < es.len() && #[trigger] es[j].letter == c ==> es[i].y < es[j].y || (es[i].y
            == es[j].y && i <= j)
}

/// Some letter shows `c`.
pub open spec fn has_letter(es: Seq<Enemy>, c: char) -> bool {
    exists|j: int| 0 <= j < es.len() && #[trigger] es[j].letter == c
}

/// The letters after a press of `c`: the lowest letter showing `c` is gone.
pub open spec fn after_press(es: Seq<Enemy>, c: char) -> Seq<Enemy> {
    if has_letter(es, c) {
        es.remove(choose|i: int| is_lowest_match(es, c, i))
    } else {
        es
    }
}

/// The lowest letter showing `c`, the first of them where several stand
/// equally low.
pub open spec fn lowest_of(es: Seq<Enemy>, c: char) -> Enemy {
    es[choose|i: int| is_lowest_match(es, c, i)]
}

/// The letters that the presses of `keys` remove, in the order of the presses.
pub open spec fn removed_by_presses(es: Seq<Enemy>, keys: Seq<char>) -> Seq<Enemy>
    decreases keys.len(),
{
    if keys.len() == 0 {
        Seq::empty()
    } else {
        let before = after_presses(es, keys.drop_last());
        let earlier = removed_by_presses(es, keys.drop_last());
        if has_letter(before, keys.last()) {
            earlier.push(lowest_of(before, keys.last()))
        } else {
            earlier
        }
    }
}

/// The letters after the presses of `keys`, taken in order.
pub open spec fn after_presses(es: Seq<Enemy>, keys: Seq<char>) -> Seq<Enemy>
    decreases keys.len(),
{
    if keys.len() == 0 {
        es
    } else {
        after_press(after_presses(es, keys.drop_last()), keys.last())
    }
}

/// A letter inside the world and not yet below the kill line.
pub open spec fn standing(e: Enemy) -> bool {
    in_world(e.x) && in_world(e.y) && KILL_LINE_Y <= e.y
}

/// The letter has passed below the kill line.
pub open spec fn has_crossed(e: Enemy) -> bool {
    e.y < KILL_LINE_Y
}

proof fn lemma_lowest_unique(es: Seq<Enemy>, c: char, i: int, k: int)
    requires
        is_lowest_match(es, c, i),
        is_lowest_match(es, c, k),
    ensures
        i == k,
{
    assert(es[k].letter == c);
    assert(es[i].letter == c);
}

proof fn lemma_presses_partition(es: Seq<Enemy>, keys: Seq<char>)
    ensures
        removed_by_presses(es, keys).to_multiset().add(after_presses(es, keys).to_multiset())
            == es.to_multiset(),
    decreases keys.len(),
{
    broadcast use vstd::multiset::group_multiset_axioms;
    broadcast use vstd::seq_lib::to_multiset_build;
    if keys.len() == 0 {
        assert(Seq::<Enemy>::empty().to_multiset() =~= Multiset::<Enemy>::empty());
        assert(Multiset::<Enemy>::empty().add(es.to_multiset()) =~= es.to_multiset());
    } else {
        let init = keys.drop_last();
        let c = keys.last();
        let before = after_presses(es, init);
        let earlier = removed_by_presses(es, init);
        lemma_presses_partition(es, init);
        if has_letter(before, c) {
            lemma_lowest_exists(before, c);
            let i = choose|i: int| is_lowest_match(before, c, i);
            let x = before[i];
            vstd::seq_lib::to_multiset_remove(before, i);
            vstd::seq_lib::to_multiset_contains(before, x);
            assert(before.contains(x));
            assert(earlier.to_multiset().insert(x).add(before.to_multiset().remove(x))
                =~= earlier.to_multiset().add(before.to_multiset()));
        }
    }
}

proof fn lemma_lowest_exists(es: Seq<Enemy>, c: char)
    requires
        has_letter(es, c),
    ensures
        exists|i: int| is_lowest_match(es, c, i),
{
    let k0 = choose|j: int| 0 <= j < es.len() && #[trigger] es[j].letter == c;
    lemma_lowest_upto(es, c, es.len() as int, k0);
    let i = choose|i: int|
        0 <= i < es.len() && es[i].letter == c && forall|j: int|
            0 <= j < es.len() && #[trigger] es[j].letter == c ==> es[i].y < es[j].y || (es[i].y
                == es[j].y && i <= j);
    assert(is_lowest_match(es, c, i));
}

proof fn lemma_lowest_upto(es: Seq<Enemy>, c: char, n: int, k0: int)
    requires
        0 <= k0 < n <= es.len(),
        es[k0].letter == c,
    ensures
        exists|i: int|
            0 <= i < n && es[i].letter == c && forall|j: int|
                0 <= j < n && #[trigger] es[j].letter == c ==> es[i].y < es[j].y || (es[i].y == es[j].y
                    && i <= j),
    decreases n,
{
    if n - 1 == k0 {
        if exists|j: int| 0 <= j < k0 && #[trigger] es[j].letter == c {
            let k1 = choose|j: int| 0 <= j < k0 && #[trigger] es[j].letter == c;
            lemma_lowest_upto(es, c, k0, k1);
            let i = choose|i: int|
                0 <= i < k0 && es[i].letter == c && forall|j: int|
                    0 <= j < k0 && #[trigger] es[j].letter == c ==> es[i].y < es[j].y || (es[i].y
                        == es[j].y && i <= j);
            if es[k0].y < es[i].y {
                assert(forall|j: int|
                    0 <= j < n && #[trigger] es[j].letter == c ==> es[k0].y < es[j].y || (es[k0].y
                        == es[j].y && k0 <= j));
            } else {
                assert(forall|j: int|
                    0 <= j < n && #[trigger] es[j].letter == c ==> es[i].y < es[j].y || (es[i].y
                        == es[j].y && i <= j));
            }
        } else {
            assert(forall|j: int|
                0 <= j < n && #[trigger] es[j].letter == c ==> es[k0].y < es[j].y || (es[k0].y == es[j].y
                    && k0 <= j));
        }
    } else {
        lemma_lowest_upto(es, c, n - 1, k0);
        let i = choose|i: int|
            0 <= i < n - 1 && es[i].letter == c && forall|j: int|
                0 <= j < n - 1 && #[trigger] es[j].letter == c ==> es[i].y < es[j].y || (es[i].y == es[j].y
                    && i <= j);
        if es[n - 1].letter == c && es[n - 1].y < es[i].y {
            assert(forall|j: int|
                0 <= j < n && #[trigger] es[j].letter == c ==> es[n - 1].y < es[j].y || (es[n - 1].y
                    == es[j].y && n - 1 <= j));
        } else {
            assert(forall|j: int|
                0 <= j < n && #[trigger] es[j].letter == c ==> es[i].y < es[j].y || (es[i].y == es[j].y
                    && i <= j));
        }
    }
}

/// Within one tick every falling letter of the field meets exactly one fate:
/// a keypress removes it, or it crosses the kill line, or it stays. The
/// keypresses come first and crossing is judged on what they leave, so the
/// three groups together are the field, each letter counted once (as a
/// multiset). A letter that a keypress removes is never also taken into the
/// tray, whatever other letters the field holds.
pub proof fn lemma_one_fate_per_letter(es: Seq<Enemy>, keys: Seq<char>)
    ensures
        removed_by_presses(es, keys).to_multiset().add(
            after_presses(es, keys).filter(|e: Enemy| has_crossed(e)).to_multiset(),
        ).add(after_presses(es, keys).filter(|e: Enemy| !has_crossed(e)).to_multiset())
            == es.to_multiset(),
{
    broadcast use vstd::multiset::group_multiset_axioms;
    lemma_presses_partition(es, keys);
    lemma_filter_split(after_presses(es, keys));
    let r = removed_by_presses(es, keys).to_multiset();
    let a = after_presses(es, keys).filter(|e: Enemy| has_crossed(e)).to_multiset();
    let b = after_presses(es, keys).filter(|e: Enemy| !has_crossed(e)).to_multiset();
    assert(r.add(a).add(b) =~= r.add(a.add(b)));
}

proof fn lemma_filter_split(s: Seq<Enemy>)
    ensures
        s.filter(|e: Enemy| has_crossed(e)).to_multiset().add(
            s.filter(|e: Enemy| !has_crossed(e)).to_multiset(),
        ) == s.to_multiset(),
    decreases s.len(),
{
    broadcast use vstd::multiset::group_multiset_axioms;
    broadcast use vstd::seq_lib::to_multiset_build;
    if s.len() == 0 {
        assert(s.filter(|e: Enemy| has_crossed(e)) =~= Seq::<Enemy>::empty()) by {
            reveal(Seq::filter);
        }
        assert(s.filter(|e: Enemy| !has_crossed(e)) =~= Seq::<Enemy>::empty()) by {
            reveal(Seq::filter);
        }
        assert(s =~= Seq::<Enemy>::empty());
        assert(s.to_multiset() =~= Multiset::<Enemy>::empty());
        assert(Seq::<Enemy>::empty().to_multiset() =~= Multiset::<Enemy>::empty());
        assert(Multiset::<Enemy>::empty().add(Multiset::<Enemy>::empty()) =~= Multiset::<Enemy>::empty());
    } else {
        let init = s.drop_last();
        lemma_filter_split(init);
        assert(s =~= init.push(s.last()));
        init.lemma_filter_push(s.last(), |e: Enemy| has_crossed(e));
        init.lemma_filter_push(s.last(), |e: Enemy| !has_crossed(e));
        let a = init.filter(|e: Enemy| has_crossed(e)).to_multiset();
        let b = init.filter(|e: Enemy| !has_crossed(e)).to_multiset();
        if has_crossed(s.last()) {
            assert(a.insert(s.last()).add(b) =~= a.add(b).insert(s.last()));
        } else {
            assert(a.add(b.insert(s.last())) =~= a.add(b).insert(s.last()));
        }
    }
}

/// The live falling letters.
pub struct EnemyField {
    pub enemies: Vec<Enemy>,
}

impl EnemyField {
    /// Every letter stands inside the world, no lower than the kill line's
    /// reach.
    pub open spec fn wf(&self) -> bool {
        forall|i: int|
            0 <= i < self.enemies.len() ==> in_world(#[trigger] self.enemies[i].x) && in_world(
                self.enemies[i].y,
            )
    }

    /// No letters.
    pub fn new() -> (f: EnemyField)
        ensures
            f.wf(),
            f.enemies@ == Seq::<Enemy>::empty(),
    {
        EnemyField { enemies: Vec::new() }
    }

    /// Adds a letter.
    pub fn insert(&mut self, e: Enemy)
        requires
            old(self).wf(),
            in_world(e.x),
            in_world(e.y),
        ensures
            final(self).wf(),
            final(self).enemies@ == old(self).enemies@.push(e),
    {
        self.enemies.push(e);
    }

    /// Removes every letter.
    pub fn clear(&mut self)
        ensures
            final(self).wf(),
            final(self).enemies@ == Seq::<Enemy>::empty(),
    {
        self.enemies.clear();
    }

    /// Whether some letter shows `c`.
    pub fn any_with_letter(&self, c: char) -> (r: bool)
        ensures
            r == has_letter(self.enemies@, c),
    {
        let mut i: usize = 0;
        while i < self.enemies.len()
            invariant
                0 <= i <= self.enemies.len(),
                forall|j: int| 0 <= j < i ==> self.enemies@[j].letter != c,
            decreases self.enemies.len() - i,
        {
            if self.enemies[i].letter == c {
                return true;
            }
            i = i + 1;
        }
        false
    }

    /// Every letter falls for `dt_us` microseconds. A letter that would leave
    /// the world is expected to have crossed the kill line long before.
    pub fn move_enemies(&mut self, dt_us: u32)
        requires
            old(self).wf(),
        ensures
            final(self).wf(),
            final(self).enemies@ == old(self).enemies@.map_values(|e: Enemy| fallen(e, dt_us)),
    {
        let ghost start = self.enemies@;
        let mut i: usize = 0;
        while i < self.enemies.len()
            invariant
                self.enemies.len() == start.len(),
                0 <= i <= start.len(),
                forall|j: int| 0 <= j < i ==> self.enemies@[j] == fallen(start[j], dt_us),
                forall|j: int| i <= j < start.len() ==> self.enemies@[j] == start[j],
                forall|j: int|
                    0 <= j < start.len() ==> in_world(#[trigger] start[j].x) && in_world(start[j].y),
                forall|j: int|
                    0 <= j < i ==> in_world(#[trigger] self.enemies@[j].y),
            decreases start.len() - i,
        {
            let e = self.enemies[i];
            assert(e == start[i as int]);
            assert(in_world(start[i as int].x));
            let y = clamp_to_world(e.y as i128 - (ENEMY_FALL_SPEED as i128) * (dt_us as i128));
            let moved = Enemy { y, ..e };
            self.enemies.set(i, moved);
            i = i + 1;
        }
        assert(self.enemies@ =~= start.map_values(|e: Enemy| fallen(e, dt_us)));
    }

    /// The index of the lowest letter showing `c`, the first of them where
    /// several stand equally low; `None` when no letter shows `c`.
    pub fn lowest_matching(&self, c: char) -> (r: Option<usize>)
        ensures
            match r {
                Some(i) => is_lowest_match(self.enemies@, c, i as int),
                None => !has_letter(self.enemies@, c),
            },
    {
        let mut best: Option<usize> = None;
        let mut i: usize = 0;
        while i < self.enemies.len()
            invariant
                0 <= i <= self.enemies.len(),
                match best {
                    Some(b) => {
                        &&& b < i
                        &&& self.enemies@[b as int].letter == c
                        &&& forall|j: int|
                            0 <= j < i && #[trigger] self.enemies@[j].letter == c ==> self.enemies@[b as int].y
                                < self.enemies@[j].y || (self.enemies@[b as int].y == self.enemies@[j].y && b
                                <= j)
                    },
                    None => forall|j: int| 0 <= j < i ==> self.enemies@[j].letter != c,
                },
            decreases self.enemies.len() - i,
        {
            if self.enemies[i].letter == c {
                match best {
                    None => {
                        best = Some(i);
                    },
                    Some(b) => {
                        if self.enemies[i].y < self.enemies[b].y {
                            best = Some(i);
                        }
                    },
                }
            }
            i = i + 1;
        }
        best
    }

    /// A press of `c`: the lowest letter showing `c` is removed and returned.
    pub fn eliminate_lowest(&mut self, c: char) -> (r: Option<Enemy>)
        requires
            old(self).wf(),
        ensures
            final(self).wf(),
            final(self).enemies@ == after_press(old(self).enemies@, c),
            r.is_some() == has_letter(old(self).enemies@, c),
            final(self).enemies.len() == old(self).enemies.len() - (if r.is_some() {
                1int
            } else {
                0int
            }),
            match r {
                Some(e) => e.letter == c && e == lowest_of(old(self).enemies@, c),
                None => true,
            },
    {
        match self.lowest_matching(c) {
            None => None,
            Some(i) => {
                proof {
                    let es = self.enemies@;
                    let k = choose|k: int| is_lowest_match(es, c, k);
                    lemma_lowest_unique(es, c, i as int, k);
                }
                let ghost before = self.enemies@;
                let e = self.enemies.remove(i);
                assert forall|j: int| 0 <= j < self.enemies.len() implies in_world(
                    #[trigger] self.enemies[j].x,
                ) && in_world(self.enemies[j].y) by {
                    if j < i {
                        assert(self.enemies[j] == before[j]);
                    } else {
                        assert(self.enemies[j] == before[j + 1]);
                    }
                    assert(in_world(old(self).enemies[j].x));
                    assert(in_world(old(self).enemies[j + 1].x) || j + 1 >= before.len());
                }
                Some(e)
            },
        }
    }

    /// The presses of a tick, in order: each removes the lowest letter that
    /// shows its character. Returns the letters removed.
    pub fn eliminate_for_keys(&mut self, keys: &Vec<char>) -> (removed: Vec<Enemy>)
        requires
            old(self).wf(),
        ensures
            final(self).wf(),
            final(self).enemies@ == after_presses(old(self).enemies@, keys@),
            removed@ == removed_by_presses(old(self).enemies@, keys@),
            removed.len() + final(self).enemies.len() == old(self).enemies.len(),
    {
        let ghost start = self.enemies@;
        let mut removed: Vec<Enemy> = Vec::new();
        let mut i: usize = 0;
        while i < keys.len()
            invariant
                self.wf(),
                0 <= i <= keys.len(),
                self.enemies@ == after_presses(start, keys@.subrange(0, i as int)),
                removed@ == removed_by_presses(start, keys@.subrange(0, i as int)),
                removed.len() + self.enemies.len() == start.len(),
            decreases keys.len() - i,
        {
            let r = self.eliminate_lowest(keys[i]);
            match r {
                Some(e) => {
                    removed.push(e);
                },
                None => {},
            }
            assert(keys@.subrange(0, i + 1).drop_last() =~= keys@.subrange(0, i as int));
            i = i + 1;
        }
        assert(keys@.subrange(0, keys.len() as int) =~= keys@);
        removed
    }

    /// Letters below the kill line leave the field; their letters are
    /// returned in field order.
    pub fn cross_kill_line(&mut self) -> (letters: Vec<char>)
        requires
            old(self).wf(),
        ensures
            final(self).wf(),
            final(self).enemies@ == old(self).enemies@.filter(|e: Enemy| !has_crossed(e)),
            letters@ == old(self).enemies@.filter(|e: Enemy| has_crossed(e)).map_values(
                |e: Enemy| e.letter,
            ),
            forall|i: int|
                0 <= i < final(self).enemies.len() ==> KILL_LINE_Y <= #[trigger] final(self).enemies[i].y,
    {
        let ghost start = self.enemies@;
        let mut kept: Vec<Enemy> = Vec::new();
        let mut letters: Vec<char> = Vec::new();
        let mut i: usize = 0;
        while i < self.enemies.len()
            invariant
                self.enemies@ == start,
                self.wf(),
                0 <= i <= start.len(),
                kept@ == start.subrange(0, i as int).filter(|e: Enemy| !has_crossed(e)),
                letters@ == start.subrange(0, i as int).filter(|e: Enemy| has_crossed(e)).map_values(
                    |e: Enemy| e.letter,
                ),
                forall|j: int| 0 <= j < kept.len() ==> standing(#[trigger] kept@[j]),
            decreases start.len() - i,
        {
            let e = self.enemies[i];
            assert(in_world(self.enemies[i as int].x));
            proof {
                let pre = start.subrange(0, i as int);
                assert(start.subrange(0, i + 1) =~= pre.push(e));
                pre.lemma_filter_push(e, |e: Enemy| !has_crossed(e));
                pre.lemma_filter_push(e, |e: Enemy| has_crossed(e));
            }
            if e.y < KILL_LINE_Y {
                letters.push(e.letter);
                proof {
                    let pre = start.subrange(0, i as int).filter(|e: Enemy| has_crossed(e));
                    assert(pre.push(e).map_values(|e: Enemy| e.letter) =~= pre.map_values(
                        |e: Enemy| e.letter,
                    ).push(e.letter));
                }
            } else {
                let ghost before = kept@;
                assert(in_world(e.x) && in_world(e.y) && KILL_LINE_Y <= e.y);
                kept.push(e);
                assert(kept@ == before.push(e));
                assert forall|j: int| 0 <= j < kept.len() implies standing(#[trigger] kept@[j]) by {
                    if j < before.len() {
                        assert(kept@[j] == before[j]);
                    } else {
                        assert(kept@[j] == e);
                    }
                }
            }
            i = i + 1;
        }
        assert(start.subrange(0, start.len() as int) =~= start);
        self.enemies = kept;
        letters
    }
}

} // verus!
