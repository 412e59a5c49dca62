use tictactoe::board::{lsb, State};

fn board_of(cells: &[i8]) -> State {
    let mut s = State::new();
    for &c in cells {
        s.play(c);
    }
    s
}

#[test]
fn new_board_is_empty() {
    let s = State::new();
    assert_eq!(s.turn(), 1);
    assert_eq!(s.legal_moves(), vec![0, 1, 2, 3, 4, 5, 6, 7, 8]);
    assert_eq!(s.num_legal_moves(), 9);
    assert!(!s.is_full());
    assert_eq!(s.evaluate(), 0);
    assert!(!s.is_game_over());
}

#[test]
fn play_marks_cell_for_mover_and_flips_turn() {
    let mut s = State::new();
    s.play(4);
    assert!(s.pos_filled(4));
    assert!(s.player_at(4));
    assert_eq!(s.turn(), -1);
    s.play(0);
    assert!(s.pos_filled(0));
    assert!(!s.player_at(0));
    assert_eq!(s.turn(), 1);
    assert!(!s.pos_filled(8));
}

#[test]
fn play_then_unplay_restores_board() {
    let mut s = board_of(&[4, 0, 8]);
    let before = s.legal_moves();
    let turn = s.turn();
    s.play(2);
    s.unplay();
    assert_eq!(s.legal_moves(), before);
    assert_eq!(s.turn(), turn);
    assert!(s.player_at(4) && s.player_at(8) && !s.player_at(0));
    s.unplay();
    assert!(!s.pos_filled(8));
    assert_eq!(s.turn(), 1);
    s.unplay();
    s.unplay();
    assert_eq!(s.num_legal_moves(), 9);
}

#[test]
fn legal_moves_are_free_cells_ascending() {
    let s = board_of(&[4, 0, 8, 2]);
    assert_eq!(s.legal_moves(), vec![1, 3, 5, 6, 7]);
}

#[test]
fn moves_and_taken_cells_number_nine() {
    let mut s = State::new();
    for (k, c) in [4i8, 0, 8, 2, 6, 3].iter().enumerate() {
        s.play(*c);
        let taken = (0..9).filter(|&i| s.pos_filled(i)).count();
        assert_eq!(taken, k + 1);
        assert_eq!(s.legal_moves().len() + taken, 9);
        assert_eq!(s.num_legal_moves() as usize, s.legal_moves().len());
    }
}

#[test]
fn evaluate_rows_columns_diagonals() {
    // first player holds the top row
    assert_eq!(board_of(&[0, 3, 1, 4, 2]).evaluate(), 1);
    // second player holds the middle column
    assert_eq!(board_of(&[0, 1, 2, 4, 3, 7]).evaluate(), -1);
    // first player holds the anti-diagonal
    assert_eq!(board_of(&[2, 0, 4, 1, 6]).evaluate(), 1);
    // second player holds the main diagonal
    assert_eq!(board_of(&[1, 0, 2, 4, 3, 8]).evaluate(), -1);
    // no line held
    assert_eq!(board_of(&[0, 4, 8, 2]).evaluate(), 0);
}

#[test]
fn evaluate_first_line_in_order_decides() {
    // the second player holds the top row and the first player the bottom
    // row; the top row is tried first
    let mut s = State::new();
    for c in [0i8, 1, 2] {
        s.pass_turn();
        s.play(c);
    }
    for c in [6i8, 7, 8] {
        s.play(c);
        s.pass_turn();
    }
    assert!(!s.player_at(0) && s.player_at(6));
    assert_eq!(s.evaluate(), -1);
}

#[test]
fn evaluate_negates_when_players_swap() {
    // first player: 0 1 2, second: 3 4
    let s = board_of(&[0, 3, 1, 4, 2]);
    // the same cells with the players exchanged
    let mut t = State::new();
    for c in [3i8, 0, 4, 1] {
        t.play(c);
    }
    t.pass_turn();
    t.play(2);
    for i in 0..9 {
        assert_eq!(s.pos_filled(i), t.pos_filled(i));
        if s.pos_filled(i) {
            assert_ne!(s.player_at(i), t.player_at(i));
        }
    }
    assert_eq!(s.evaluate(), 1);
    assert_eq!(t.evaluate(), -1);
}

#[test]
fn game_over_iff_win_or_full() {
    let samples: [&[i8]; 6] = [
        &[],
        &[4, 0],
        &[0, 3, 1, 4, 2],
        &[0, 1, 2, 4, 3, 7],
        &[0, 4, 8, 2, 6, 3, 5, 7, 1],
        &[4, 0, 8, 2, 1, 7, 6, 3],
    ];
    for cells in samples {
        let s = board_of(cells);
        assert_eq!(s.is_game_over(), s.evaluate() != 0 || s.is_full());
    }
    let full_draw = board_of(&[0, 4, 8, 2, 6, 3, 5, 7, 1]);
    assert!(full_draw.is_full());
    assert_eq!(full_draw.evaluate(), 0);
    assert!(full_draw.is_game_over());
    assert!(!board_of(&[4, 0, 8, 2, 1, 7, 6, 3]).is_game_over());
}

#[test]
fn pass_turn_flips_only_the_turn() {
    let mut s = board_of(&[4]);
    s.pass_turn();
    assert_eq!(s.turn(), 1);
    assert_eq!(s.legal_moves(), vec![0, 1, 2, 3, 5, 6, 7, 8]);
}

#[test]
fn lsb_finds_lowest_set_bit() {
    assert_eq!(lsb(1), 0);
    assert_eq!(lsb(0b1011000), 3);
    assert_eq!(lsb(0b100000000), 8);
    assert_eq!(lsb(0), 16);
}

#[test]
fn heuristic_value_is_zero() {
    assert_eq!(board_of(&[4, 0]).heuristic_value(), 0);
}
