use tictactoe::board::State;
use tictactoe::search::Istus;

fn engine_on(cells: &[i8]) -> Istus {
    let mut g = Istus::new();
    for &c in cells {
        g.node.play(c);
    }
    g
}

/// Plain negamax over every move, with no window.
fn full_width(s: &mut State, colour: i16) -> i16 {
    if s.is_game_over() {
        return colour * s.evaluate();
    }
    let mut best = -2;
    for m in s.legal_moves() {
        s.play(m);
        let v = -full_width(s, -colour);
        s.unplay();
        if v > best {
            best = v;
        }
    }
    best
}

#[test]
fn empty_board_is_a_draw() {
    let mut g = Istus::new();
    let r = g.engine_move();
    assert_eq!(r.score, 0);
    assert_eq!(r.win_percent, 50);
    assert_eq!(r.nodes, g.nodes);
    assert!(r.nodes > 0);
    assert!(g.node.pos_filled(r.cell));
    assert_eq!(g.node.num_legal_moves(), 8);
}

#[test]
fn engine_against_itself_draws() {
    let mut g = Istus::new();
    while !g.node.is_game_over() {
        let r = g.engine_move();
        assert_eq!(r.score, 0);
        assert_eq!(r.win_percent, 50);
    }
    assert!(g.node.is_full());
    assert_eq!(g.node.evaluate(), 0);
}

#[test]
fn engine_completes_top_row() {
    let mut g = Istus::new();
    g.node.play(0);
    g.node.pass_turn();
    g.node.play(1);
    g.node.pass_turn();
    assert_eq!(g.node.turn(), 1);
    let r = g.engine_move();
    assert_eq!(r.cell, 2);
    assert_eq!(r.score, 1);
    assert_eq!(r.win_percent, 100);
    assert_eq!(g.node.evaluate(), 1);
}

#[test]
fn engine_blocks_threat() {
    // first player: 0 7; second player: 4 3, threatening 5
    let mut g = engine_on(&[0, 4, 7, 3]);
    assert_eq!(g.node.turn(), 1);
    let r = g.engine_move();
    assert_eq!(r.cell, 5);
    assert!(r.score >= 0);
}

#[test]
fn engine_second_player_blocks() {
    // first player: 0 1, threatening 2; second player: 4
    let mut g = engine_on(&[0, 4, 1]);
    let r = g.engine_move();
    assert_eq!(r.cell, 2);
}

#[test]
fn engine_lost_position_takes_first_move() {
    // first player: 0 4, threatening 8; blocking there still allows a fork,
    // so every move loses and the lowest free cell is kept
    let mut g = engine_on(&[0, 1, 4]);
    let r = g.engine_move();
    assert_eq!(r.score, -1);
    assert_eq!(r.win_percent, 0);
    assert_eq!(r.cell, 2);
}

#[test]
fn alpha_beta_matches_full_width() {
    let starts: [&[i8]; 6] = [&[], &[4], &[0, 4], &[0, 4, 8], &[0, 1, 4], &[4, 0, 8, 2]];
    for cells in starts {
        let mut g = engine_on(cells);
        let colour = g.node.turn();
        let expected = full_width(&mut g.node, colour);
        g.reset_nodes();
        let got = g.negamax(colour, -2, 2);
        assert_eq!(got, expected);
        assert!(g.nodes > 0);
        // every child too, from the child's side
        for m in g.node.legal_moves() {
            g.node.play(m);
            let c = g.node.turn();
            let e = full_width(&mut g.node, c);
            g.reset_nodes();
            assert_eq!(g.negamax(c, -2, 2), e);
            g.node.unplay();
        }
    }
}

#[test]
fn negamax_leaves_board_unchanged() {
    let mut g = engine_on(&[0, 4, 8]);
    let before = g.node.legal_moves();
    g.negamax(-1, -2, 2);
    assert_eq!(g.node.legal_moves(), before);
    assert_eq!(g.node.turn(), -1);
}

#[test]
fn negamax_window_clamps() {
    // a drawn position: value 0 for the side to move
    let mut g = engine_on(&[4, 0]);
    assert_eq!(g.negamax(1, -2, 2), 0);
    // window above the value: the lower bound comes back
    assert_eq!(g.negamax(1, 0, 1), 0);
    // window below the value: the upper bound comes back
    assert_eq!(g.negamax(1, -2, -1), -1);
}

#[test]
fn negamax_on_finished_board_counts_one_node() {
    let mut g = engine_on(&[0, 3, 1, 4, 2]);
    g.reset_nodes();
    assert_eq!(g.negamax(1, -2, 2), 1);
    assert_eq!(g.negamax(-1, -2, 2), -1);
    assert_eq!(g.nodes, 2);
}

#[test]
fn reset_nodes_zeroes_count() {
    let mut g = engine_on(&[4]);
    g.negamax(-1, -2, 2);
    assert!(g.nodes > 0);
    g.reset_nodes();
    assert_eq!(g.nodes, 0);
}
