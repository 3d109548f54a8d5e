use mchs::game::{
    flip_code, flip_turn, legal_moves, move_diff, next_code, turn, unzip_code, valid, winner,
    xo, Game, MoveError, Outcome,
};
use mchs::game::{apply_move, zip_code};
use mchs::mchs::ROOT;

fn code_of(board: [i8; 9], to_move: i8) -> i32 {
    let b: Vec<i8> = board.to_vec();
    zip_code(&b, to_move)
}

#[test]
fn round_trip_empty_board() {
    let b: Vec<i8> = vec![0; 9];
    let c = zip_code(&b, 1);
    assert_eq!(c, ROOT);
    let (b2, t2) = unzip_code(c);
    assert_eq!(b2, b);
    assert_eq!(t2, 1);
}

#[test]
fn round_trip_mixed_boards() {
    let boards: [[i8; 9]; 3] = [
        [1, -1, 0, 0, 1, 0, -1, 0, 0],
        [1, 1, 1, -1, -1, 0, 0, 0, 0],
        [-1, 1, -1, 1, -1, 1, -1, 1, -1],
    ];
    for &bd in boards.iter() {
        for &t in [1i8, -1].iter() {
            let c = code_of(bd, t);
            let (b2, t2) = unzip_code(c);
            assert_eq!(b2, bd.to_vec());
            assert_eq!(t2, t);
        }
    }
}

#[test]
fn color_swap_is_involutive() {
    let codes = [
        ROOT,
        code_of([1, -1, 0, 0, 1, 0, -1, 0, 0], -1),
        code_of([1, 1, 1, -1, -1, 0, 0, 0, 0], 1),
    ];
    for &c in codes.iter() {
        assert_eq!(flip_code(flip_code(c)), c);
        assert_ne!(flip_code(c), c);
    }
}

#[test]
fn color_swap_exchanges_marks() {
    let c = code_of([1, -1, 0, 0, 1, 0, -1, 0, 0], 1);
    let f = flip_code(c);
    let (b, t) = unzip_code(f);
    assert_eq!(b, vec![-1, 1, 0, 0, -1, 0, 1, 0, 0]);
    assert_eq!(t, -1);
}

#[test]
fn outcome_symmetric_under_color_swap() {
    let a_wins = code_of([1, 1, 1, -1, -1, 0, 0, 0, 1], -1);
    assert_eq!(winner(a_wins), Outcome::MarkAWins);
    assert_eq!(winner(flip_code(a_wins)), Outcome::MarkBWins);

    let draw = code_of([1, -1, 1, 1, -1, -1, -1, 1, 1], 1);
    assert_eq!(winner(draw), Outcome::Draw);
    assert_eq!(winner(flip_code(draw)), Outcome::Draw);

    assert_eq!(winner(ROOT), Outcome::InProgress);
    assert_eq!(winner(flip_code(ROOT)), Outcome::InProgress);
}

#[test]
fn winner_detects_each_kind_of_line() {
    let row = code_of([0, 0, 0, 1, 1, 1, -1, -1, 0], -1);
    assert_eq!(winner(row), Outcome::MarkAWins);
    let col = code_of([-1, 1, 0, -1, 1, 0, -1, 0, 1], 1);
    assert_eq!(winner(col), Outcome::MarkBWins);
    let diag = code_of([1, -1, 0, -1, 1, 0, 0, 0, 1], -1);
    assert_eq!(winner(diag), Outcome::MarkAWins);
}

#[test]
fn empty_board_has_all_nine_moves() {
    let moves = legal_moves(ROOT);
    assert_eq!(moves, vec![0, 1, 2, 3, 4, 5, 6, 7, 8]);
    for m in 0..9 {
        assert!(valid(ROOT, m));
    }
    assert!(!valid(ROOT, 9));
}

#[test]
fn one_move_removes_one_cell_and_flips_turn() {
    for m in 0..9 {
        let nxt = next_code(ROOT, m);
        assert_eq!(legal_moves(nxt).len(), 8);
        assert!(!valid(nxt, m));
        assert_eq!(turn(nxt), -1);
        assert_eq!(turn(ROOT), 1);
    }
}

#[test]
fn flip_turn_only_touches_the_mover() {
    let c = flip_turn(ROOT);
    assert_eq!(turn(c), -1);
    let (b, _) = unzip_code(c);
    assert_eq!(b, vec![0; 9]);
    assert_eq!(flip_turn(c), ROOT);
}

#[test]
fn move_diff_recovers_every_move() {
    let mut c = ROOT;
    let played = [4usize, 0, 8, 2, 6];
    for &m in played.iter() {
        let nxt = next_code(c, m);
        assert_eq!(move_diff(c, nxt), m);
        c = nxt;
    }
}

#[test]
fn game_accepts_legal_moves_and_rejects_occupied_cells() {
    let mut g = Game::new();
    assert_eq!(g.code, ROOT);
    let (c1, out) = g.next(ROOT, 4).unwrap();
    assert_eq!(c1, next_code(ROOT, 4));
    assert_eq!(out, Outcome::InProgress);
    assert_eq!(g.code, c1);
    assert_eq!(g.next(c1, 4), Err(MoveError::InvalidMove));
    assert_eq!(g.code, c1);
    assert_eq!(g.next(c1, 9), Err(MoveError::InvalidMove));
}

#[test]
fn game_reconciles_the_swapped_orientation() {
    let mut g = Game::new();
    let swapped = flip_code(g.code);
    let (c1, _) = g.next(swapped, 3).unwrap();
    assert_eq!(c1, next_code(swapped, 3));
    assert_eq!(g.code, flip_code(c1));
}

#[test]
fn game_reports_the_final_outcome() {
    let mut g = Game::new();
    let mut c = g.code;
    for &m in [0usize, 3, 1, 4, 2].iter() {
        let (nc, out) = g.next(c, m).unwrap();
        c = nc;
        if m == 2 {
            assert_eq!(out, Outcome::MarkAWins);
        } else {
            assert_eq!(out, Outcome::InProgress);
        }
    }
}

#[test]
fn game_init_resets_to_the_opening() {
    let mut g = Game::new();
    g.next(ROOT, 0).unwrap();
    g.init();
    assert_eq!(g.code, ROOT);
}

#[test]
fn xo_prints_the_marks() {
    assert_eq!(xo(1), "X");
    assert_eq!(xo(-1), "O");
    assert_eq!(xo(0), " ");
}

#[test]
fn apply_move_checks_legality() {
    let c1 = apply_move(ROOT, 4).unwrap();
    assert_eq!(c1, next_code(ROOT, 4));
    assert_eq!(apply_move(c1, 4), Err(MoveError::InvalidMove));
    assert_eq!(apply_move(c1, 9), Err(MoveError::InvalidMove));
}
