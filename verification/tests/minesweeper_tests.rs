use minesweeper::minesweeper::Minesweeper;

use std::collections::HashSet;
use std::hash::Hash;

fn my_eq<T>(a: &[T], b: &[T]) -> bool
where
    T: Eq + Hash,
{
    let a: HashSet<_> = a.iter().collect();
    let b: HashSet<_> = b.iter().collect();

    a == b
}

#[test]
fn create_new() {
    let ms = Minesweeper::new(10, 10, 10);
    println!("{:?}", ms);
}

#[test]
fn neightbors() {
    let ms = Minesweeper::new(10, 10, 10);
    let n = ms.neightbors((1, 1));
    println!("{:?}", n);
    assert!(my_eq(
        &n,
        &[
            (0, 0),
            (1, 0),
            (2, 0),
            (0, 1),
            (2, 1),
            (0, 2),
            (1, 2),
            (2, 2)
        ]
    ));
    let n = ms.neightbors((0, 0));
    println!("{:?}", n);
    assert!(my_eq(&n, &[(1, 0), (1, 1), (0, 1)]));

    let n = ms.neightbors((9, 0));
    println!("{:?}", n);
    assert!(my_eq(&n, &[(8, 0), (8, 1), (9, 1)]));

    let n = ms.neightbors((0, 9));
    println!("{:?}", n);
    assert!(my_eq(&n, &[(0, 8), (1, 8), (1, 9)]));

    let n = ms.neightbors((9, 9));
    println!("{:?}", n);
    assert!(my_eq(&n, &[(8, 9), (8, 8), (9, 8)]));
}

#[test]
fn flag() {
    let mut ms = Minesweeper::new_with_mines(10, 10, vec![(0, 0), (0, 1)]);
    ms.toggle_flag((0, 0));
    assert!(ms.is_flagged((0, 0)));
    ms.toggle_flag((0, 0));
    assert!(!ms.is_flagged((0, 0)));
    ms.open((0, 0));
    ms.toggle_flag((0, 0));
    assert!(!ms.is_flagged((0, 0)));
}

#[test]
fn print() {
    let mut ms = Minesweeper::new_with_mines(10, 10, vec![(0, 0), (0, 1)]);
    println!("{}", ms.render());
    ms.open((0, 0));
    ms.open((0, 1));
    ms.open((0, 2));
    ms.open((0, 3));
    ms.open((1, 0));
    ms.open((1, 1));
    ms.open((1, 2));
    ms.open((1, 3));
    ms.toggle_flag((2, 3));
    println!("{}", ms.render());
}

#[test]
fn print_str() {
    let ms = Minesweeper::new(10, 10, 10);
    println!("{}", ms.render());
}

#[test]
fn open_flag() {
    let mut ms = Minesweeper::new_with_mines(10, 10, vec![(0, 0)]);
    ms.toggle_flag((0, 0));
    ms.open((0, 0));
    println!("{}", ms.render());
}

#[test]
fn interior_neighbor_count() {
    let ms = Minesweeper::new_with_mines(10, 10, vec![(0, 0)]);
    let n = ms.neightbors((5, 5));
    assert_eq!(n.len(), 8);
    assert!(my_eq(
        &n,
        &[
            (4, 4),
            (5, 4),
            (6, 4),
            (4, 5),
            (6, 5),
            (4, 6),
            (5, 6),
            (6, 6)
        ]
    ));
}

#[test]
fn neighboring_mine_counts() {
    let ms = Minesweeper::new_with_mines(10, 10, vec![(0, 0), (0, 1)]);
    assert_eq!(ms.neightboring_mines((1, 0)), 2);
    assert_eq!(ms.neightboring_mines((1, 1)), 2);
    assert_eq!(ms.neightboring_mines((0, 2)), 1);
    assert_eq!(ms.neightboring_mines((2, 2)), 0);
    assert_eq!(ms.neightboring_mines((9, 9)), 0);
}

#[test]
fn flag_blocks_open() {
    let mut ms = Minesweeper::new_with_mines(10, 10, vec![(0, 0)]);
    ms.toggle_flag((0, 0));
    ms.open((0, 0));
    assert!(!ms.is_opened((0, 0)));
    assert!(!ms.is_lost());
    ms.toggle_flag((0, 0));
    ms.open((0, 0));
    assert!(ms.is_opened((0, 0)));
    assert!(ms.is_lost());
}

#[test]
fn opened_cell_cannot_be_flagged() {
    let mut ms = Minesweeper::new_with_mines(10, 10, vec![(0, 0)]);
    ms.open((5, 5));
    assert!(ms.is_opened((5, 5)));
    ms.toggle_flag((5, 5));
    assert!(!ms.is_flagged((5, 5)));
}

#[test]
fn toggle_twice_restores() {
    let mut ms = Minesweeper::new_with_mines(10, 10, vec![(0, 0)]);
    assert!(!ms.is_flagged((3, 3)));
    ms.toggle_flag((3, 3));
    assert!(ms.is_flagged((3, 3)));
    ms.toggle_flag((3, 3));
    assert!(!ms.is_flagged((3, 3)));
}

#[test]
fn loss_reveals_all_mines() {
    let mut ms = Minesweeper::new_with_mines(10, 10, vec![(0, 0), (0, 1)]);
    ms.open((0, 0));
    assert!(ms.is_opened((0, 0)));
    assert!(ms.is_opened((0, 1)));
    assert!(ms.is_lost());
    assert!(!ms.is_won());
    // Once lost, open and toggle_flag are no-ops.
    ms.open((5, 5));
    assert!(!ms.is_opened((5, 5)));
    ms.toggle_flag((5, 5));
    assert!(!ms.is_flagged((5, 5)));
}

#[test]
fn zero_cascade_opens_region() {
    let mut ms = Minesweeper::new_with_mines(10, 10, vec![(0, 0), (0, 1)]);
    ms.open((5, 5));
    assert!(ms.is_opened((5, 5)));
    assert!(ms.is_opened((9, 9)));
    assert!(ms.is_opened((1, 0)));
    assert!(ms.is_opened((0, 2)));
    assert!(!ms.is_opened((0, 0)));
    assert!(!ms.is_opened((0, 1)));
    assert!(!ms.is_lost());
    assert!(ms.is_won());
}

#[test]
fn win_condition() {
    let mut ms = Minesweeper::new_with_mines(2, 2, vec![(0, 0)]);
    ms.open((1, 0));
    assert!(!ms.is_won());
    ms.open((0, 1));
    ms.open((1, 1));
    assert!(ms.is_won());
    assert!(!ms.is_lost());

    let mut ms = Minesweeper::new_with_mines(2, 2, vec![(0, 0)]);
    ms.open((0, 0));
    assert!(ms.is_lost());
    assert!(!ms.is_won());
}

#[test]
fn chord_opens_neighbors() {
    let mut ms = Minesweeper::new_with_mines(10, 10, vec![(0, 0)]);
    ms.open((1, 1));
    assert!(ms.is_opened((1, 1)));
    assert!(!ms.is_opened((2, 2)));
    ms.toggle_flag((0, 0));
    ms.open((1, 1));
    assert!(ms.is_opened((1, 0)));
    assert!(ms.is_opened((0, 1)));
    assert!(ms.is_opened((2, 2)));
    assert!(!ms.is_opened((0, 0)));
    assert!(ms.is_flagged((0, 0)));
    assert!(!ms.is_lost());
    assert!(ms.is_won());
}

#[test]
fn chord_mismatch_is_no_op() {
    let mut ms = Minesweeper::new_with_mines(10, 10, vec![(0, 0)]);
    ms.open((1, 1));
    assert!(ms.is_opened((1, 1)));
    ms.open((1, 1));
    assert!(!ms.is_opened((0, 1)));
    assert!(!ms.is_opened((2, 2)));
    assert!(!ms.is_lost());
}

#[test]
fn chord_with_wrong_flag_hits_mine() {
    let mut ms = Minesweeper::new_with_mines(10, 10, vec![(0, 0)]);
    ms.open((1, 1));
    ms.toggle_flag((2, 2));
    ms.open((1, 1));
    assert!(ms.is_lost());
    assert!(ms.is_opened((0, 0)));
}

#[test]
fn random_game_without_mines_is_won_in_one_open() {
    let mut ms = Minesweeper::new(5, 5, 0);
    ms.open((2, 2));
    assert!(ms.is_won());
    assert!(!ms.is_lost());
}

#[test]
fn random_game_of_only_mines_is_lost_in_one_open() {
    let mut ms = Minesweeper::new(2, 2, 4);
    ms.open((0, 0));
    assert!(ms.is_lost());
    assert!(ms.is_opened((1, 1)));
}

#[test]
fn render_hidden_flagged_and_count() {
    let mut ms = Minesweeper::new_with_mines(2, 2, vec![(0, 0)]);
    assert_eq!(
        ms.render(),
        "\u{2B1C} \u{2B1C} \n\u{2B1C} \u{2B1C} \n"
    );
    ms.toggle_flag((0, 0));
    ms.open((1, 1));
    assert_eq!(
        ms.render(),
        "\u{1F6A9} \u{2B1C} \n\u{2B1C}  1 \n"
    );
}

#[test]
fn render_mine_after_loss() {
    let mut ms = Minesweeper::new_with_mines(2, 2, vec![(0, 0)]);
    ms.open((0, 0));
    assert_eq!(
        ms.render(),
        "\u{1F4A3} \u{2B1C} \n\u{2B1C} \u{2B1C} \n"
    );
}

#[test]
fn render_zero_count() {
    let mut ms = Minesweeper::new_with_mines(2, 2, vec![]);
    ms.open((0, 0));
    assert_eq!(ms.render(), " 0  0 \n 0  0 \n");
    assert!(ms.is_won());
}
