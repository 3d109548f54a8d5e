use mchs::fixed::{isqrt, ln_fp};
use mchs::game::{winner, zip_code, Outcome};
use mchs::mchs::{eval, uct, MCHS, ROOT};
use mchs::VALUE_ONE;

fn code_of(board: [i8; 9], to_move: i8) -> i32 {
    let b: Vec<i8> = board.to_vec();
    zip_code(&b, to_move)
}

/// Mark A at 0 and 4, mark B at 2 and 5, mark A to move: cell 8 wins
/// at once for A, and every other move lets B win at 8 instead.
fn forced_win_code() -> i32 {
    code_of([1, 0, -1, 0, 1, -1, 0, 0, 0], 1)
}

#[test]
fn isqrt_exact_values() {
    assert_eq!(isqrt(0), 0);
    assert_eq!(isqrt(1), 1);
    assert_eq!(isqrt(16), 4);
    assert_eq!(isqrt(17), 4);
    assert_eq!(isqrt(24), 4);
    assert_eq!(isqrt(25), 5);
    assert_eq!(isqrt(65536 * 65536), 65536);
}

#[test]
fn ln_fp_exact_values() {
    assert_eq!(ln_fp(65536), 0);
    assert_eq!(ln_fp(131072), 45426);
    assert_eq!(ln_fp(262144), 2 * 45426);
}

#[test]
fn uct_without_exploration_is_the_signed_mean() {
    assert_eq!(uct(1, 65536, 10, 2, false), 32768);
    assert_eq!(uct(-1, 65536, 10, 2, false), -32768);
    assert_eq!(uct(1, -3 * 65536, 10, 3, false), -65536);
    assert_eq!(uct(-1, -3 * 65536, 10, 3, false), 65536);
    assert_eq!(uct(1, 0, 1, 1, false), 0);
}

#[test]
fn uct_exploration_bonus_is_nonnegative_and_shrinks_with_visits() {
    let base = uct(1, 65536, 100, 2, false);
    let explored = uct(1, 65536, 100, 2, true);
    assert!(explored >= base);
    let few = uct(1, 0, 1000, 1, true);
    let many = uct(1, 0, 1000, 500, true);
    assert!(few > many);
}

#[test]
fn eval_reports_terminal_positions_exactly() {
    let a_wins = code_of([1, 1, 1, -1, -1, 0, 0, 0, 1], -1);
    let b_wins = code_of([-1, -1, -1, 1, 1, 0, 1, 0, 0], 1);
    let draw = code_of([1, -1, 1, 1, -1, -1, -1, 1, 1], 1);
    for _ in 0..20 {
        assert_eq!(eval(a_wins), 1);
        assert_eq!(eval(b_wins), -1);
        assert_eq!(eval(draw), 0);
    }
}

#[test]
fn eval_stays_in_range_on_open_positions() {
    for _ in 0..50 {
        let v = eval(ROOT);
        assert!(-1 <= v && v <= 1);
    }
}

#[test]
fn new_engine_holds_one_fresh_root_node() {
    let s = MCHS::new(1);
    assert_eq!(s.h.len(), 1);
    let nd = s.h.get(&ROOT).unwrap();
    assert_eq!(nd.n, 1);
    assert_eq!(nd.w, 0);
    assert!(nd.children.is_empty());
    assert!(nd.parents.is_empty());
    assert_eq!(s.turn, 1);
}

#[test]
fn expanding_a_terminal_position_reports_its_outcome() {
    let a_wins = code_of([1, 1, 1, -1, -1, 0, 0, 0, 1], -1);
    let mut s = MCHS::new(1);
    s.new_node(a_wins);
    let (dw, dn) = s.expand(a_wins);
    assert_eq!(dw, VALUE_ONE);
    assert_eq!(dn, 1);
    let nd = s.h.get(&a_wins).unwrap();
    assert_eq!(nd.n, 2);
    assert_eq!(nd.w, VALUE_ONE);
    assert!(nd.children.is_empty());
}

#[test]
fn expanding_an_open_position_creates_every_legal_child() {
    let mut s = MCHS::new(1);
    let (dw, dn) = s.expand(ROOT);
    assert_eq!(dn, 9);
    assert!(-9 * VALUE_ONE <= dw && dw <= 9 * VALUE_ONE);
    let root = s.h.get(&ROOT).unwrap();
    assert_eq!(root.children.len(), 9);
    assert_eq!(root.n, 1 + 9);
    assert_eq!(root.w, dw);
    let kids = root.children.clone();
    let mut sum = 0i64;
    for ch in kids.iter() {
        let nd = s.h.get(ch).unwrap();
        assert_eq!(nd.n, 2);
        assert_eq!(nd.parents, vec![ROOT]);
        assert!(winner(*ch) == Outcome::InProgress);
        sum += nd.w;
    }
    assert_eq!(sum, dw);
}

#[test]
fn one_iteration_yields_a_legal_move() {
    let mut s = MCHS::new(1);
    let mov = s.search(ROOT, 1);
    assert!(mov < 9);
    assert!(mchs::game::valid(ROOT, mov));
}

#[test]
fn long_search_finds_the_forced_win() {
    let code = forced_win_code();
    let mut s = MCHS::new(1);
    let mov = s.search(code, 1000);
    assert_eq!(mov, 8);
}

#[test]
fn weights_never_decrease_and_child_lists_never_change() {
    let mut s = MCHS::new(1);
    s.search(ROOT, 50);
    let before: Vec<(i32, u64, Vec<i32>)> =
        s.h.iter().map(|(c, nd)| (*c, nd.n, nd.children.clone())).collect();
    s.search(ROOT, 50);
    for (c, n, kids) in before.iter() {
        let nd = s.h.get(c).unwrap();
        assert!(nd.n >= *n);
        if !kids.is_empty() {
            assert_eq!(&nd.children, kids);
        }
    }
}

#[test]
fn fixed_point_score_tracks_the_real_formula() {
    let cases: [(i8, i64, u64, u64); 5] = [
        (1, 65536, 100, 2),
        (-1, -131072, 500, 7),
        (1, 0, 1000, 1),
        (1, 3 * 65536, 16000, 9),
        (-1, 40 * 65536, 16000, 123),
    ];
    for &(t, w, np, ni) in cases.iter() {
        let fp = uct(t, w, np, ni, true) as f64 / 65536.0;
        let c = ((np as f64 + 19653.0) / 19652.0).ln() + 1.25;
        let real = t as f64 * (w as f64 / 65536.0) / ni as f64
            + c * ((np as f64).ln() / ni as f64).sqrt();
        assert!((fp - real).abs() < 0.01, "{} vs {}", fp, real);
    }
}
