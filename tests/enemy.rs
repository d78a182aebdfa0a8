use word_swarm::enemy::{Enemy, EnemyField, ENEMY_FALL_SPEED, KILL_LINE_Y};

fn field(es: &[(char, i64)]) -> EnemyField {
    let mut f = EnemyField::new();
    for (i, &(letter, y)) in es.iter().enumerate() {
        f.insert(Enemy { letter, x: i as i64, y });
    }
    f
}

#[test]
fn letters_fall_at_constant_speed() {
    let mut f = field(&[('a', 100_000_000), ('b', 0)]);
    f.move_enemies(500_000);
    assert_eq!(ENEMY_FALL_SPEED, 20);
    assert_eq!(f.enemies[0].y, 100_000_000 - 10_000_000);
    assert_eq!(f.enemies[1].y, -10_000_000);
    assert_eq!(f.enemies[0].letter, 'a');
    assert_eq!(f.enemies[1].x, 1);
}

#[test]
fn lowest_match_is_chosen() {
    let f = field(&[('a', 50), ('b', -10), ('a', 10), ('a', 30), ('a', 10)]);
    assert_eq!(f.lowest_matching('a'), Some(2));
    assert_eq!(f.lowest_matching('b'), Some(1));
    assert_eq!(f.lowest_matching('c'), None);
}

#[test]
fn a_press_removes_only_the_lowest_match() {
    let mut f = field(&[('a', 50), ('a', 10), ('a', 30)]);
    let e = f.eliminate_lowest('a').unwrap();
    assert_eq!(e.y, 10);
    assert_eq!(f.enemies.len(), 2);
    assert!(f.eliminate_lowest('z').is_none());
    assert_eq!(f.enemies.len(), 2);
}

#[test]
fn each_press_removes_one() {
    let mut f = field(&[('a', 50), ('a', 10), ('b', 30), ('a', 20)]);
    let removed = f.eliminate_for_keys(&vec!['a', 'a', 'c', 'b']);
    assert_eq!(removed.len(), 3);
    assert_eq!(removed[0].y, 10);
    assert_eq!(removed[1].y, 20);
    assert_eq!(removed[2].letter, 'b');
    assert_eq!(f.enemies.len(), 1);
    assert_eq!(f.enemies[0].y, 50);
}

#[test]
fn letters_below_the_line_cross_in_order() {
    let mut f = field(&[('a', KILL_LINE_Y - 1), ('b', KILL_LINE_Y), ('c', KILL_LINE_Y - 100)]);
    let letters = f.cross_kill_line();
    assert_eq!(letters, vec!['a', 'c']);
    assert_eq!(f.enemies.len(), 1);
    assert_eq!(f.enemies[0].letter, 'b');
}

#[test]
fn any_with_letter() {
    let f = field(&[('q', 0)]);
    assert!(f.any_with_letter('q'));
    assert!(!f.any_with_letter('z'));
    let mut g = field(&[('q', 0)]);
    g.clear();
    assert!(!g.any_with_letter('q'));
}

#[test]
fn removed_letters_come_in_press_order() {
    let mut f = field(&[('a', 50), ('b', 5), ('a', 10), ('b', 1)]);
    let removed = f.eliminate_for_keys(&vec!['b', 'a', 'b']);
    assert_eq!(removed.iter().map(|e| (e.letter, e.y)).collect::<Vec<_>>(), vec![('b', 1), ('a', 10), ('b', 5)]);
    assert_eq!(f.enemies.len(), 1);
}

#[test]
fn letters_far_below_keep_inside_the_world() {
    let mut f = field(&[('a', -999_999_999_999_999)]);
    f.move_enemies(u32::MAX);
    assert_eq!(f.enemies[0].y, -1_000_000_000_000_000);
}
