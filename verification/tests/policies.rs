use mchs::game::{child_codes, move_diff, next_code, winner, zip_code, Outcome};
use mchs::mchs::ROOT;
use mchs::mchs_net::{sample_index, MCHSNet, SaveData};

fn code_of(board: [i8; 9], to_move: i8) -> i32 {
    let b: Vec<i8> = board.to_vec();
    zip_code(&b, to_move)
}

/// Mark A at 0 and 4, mark B at 2 and 5, mark A to move: cell 8 wins
/// at once for A, and every other move lets B win at 8 instead.
fn forced_win_code() -> i32 {
    code_of([1, 0, -1, 0, 1, -1, 0, 0, 0], 1)
}

/// One simulation with an estimator that values every position at
/// zero: descend, expand the leaf, credit the path and the root.
fn run_zero_eval_iteration(m: &mut MCHSNet, root: i32) {
    let path = m.select_path(root);
    let leaf = *path.last().unwrap();
    let evals: Vec<i64> = if winner(leaf) == Outcome::InProgress {
        vec![0; child_codes(leaf).len()]
    } else {
        Vec::new()
    };
    let (dw, dn) = m.expand(leaf, &evals);
    let mut ancestors = path.clone();
    ancestors.pop();
    m.backprop(&ancestors, dw, dn);
    m.backprop(&vec![root], dw, dn);
}

#[test]
fn sampling_follows_the_visit_counts() {
    let counts: Vec<u64> = vec![90, 10];
    let mut first = 0u32;
    let trials = 10000u32;
    for _ in 0..trials {
        let r: u64 = rand::Rng::gen_range(&mut rand::thread_rng(), 0..100);
        let idx = sample_index(&counts, r);
        assert!(idx < 2);
        if idx == 0 {
            first += 1;
        }
    }
    let freq = first as f64 / trials as f64;
    assert!(0.85 <= freq && freq <= 0.95, "frequency {}", freq);
}

#[test]
fn sampling_windows_are_exact() {
    let counts: Vec<u64> = vec![3, 0, 2];
    assert_eq!(sample_index(&counts, 0), 0);
    assert_eq!(sample_index(&counts, 2), 0);
    assert_eq!(sample_index(&counts, 3), 2);
    assert_eq!(sample_index(&counts, 4), 2);
}

#[test]
fn one_zero_valued_iteration_yields_a_legal_move() {
    let mut m = MCHSNet::new(1);
    run_zero_eval_iteration(&mut m, ROOT);
    let idx = m.choice_from_pi(ROOT, false);
    let child = m.h.get(&ROOT).unwrap().children[idx];
    let mov = move_diff(ROOT, child);
    assert!(mov < 9);
    assert!(mchs::game::valid(ROOT, mov));
}

#[test]
fn visit_counts_single_out_the_forced_win() {
    let code = forced_win_code();
    let mut m = MCHSNet::new(1);
    m.receive(code);
    for _ in 0..1000 {
        run_zero_eval_iteration(&mut m, code);
    }
    let idx = m.choice_from_pi(code, false);
    let child = m.h.get(&code).unwrap().children[idx];
    assert_eq!(move_diff(code, child), 8);
}

#[test]
fn exploration_choice_matches_between_engines() {
    let mut m = MCHSNet::new(1);
    for _ in 0..50 {
        run_zero_eval_iteration(&mut m, ROOT);
    }
    let idx = m.choice_from_uct(ROOT, true);
    let len = m.h.get(&ROOT).unwrap().children.len();
    assert!(idx < len);
}

#[test]
fn proportional_choice_always_names_a_child() {
    let mut m = MCHSNet::new(1);
    for _ in 0..30 {
        run_zero_eval_iteration(&mut m, ROOT);
    }
    let len = m.h.get(&ROOT).unwrap().children.len();
    for _ in 0..100 {
        let idx = m.choice_from_pi(ROOT, true);
        assert!(idx < len);
    }
}

#[test]
fn history_records_received_positions_in_order() {
    let mut m = MCHSNet::new(-1);
    let c1 = next_code(ROOT, 4);
    let c2 = next_code(c1, 0);
    m.receive(c1);
    m.receive(c2);
    assert_eq!(m.hist, vec![c1, c2]);
    assert!(m.h.contains_key(&c1));
    assert!(m.h.contains_key(&c2));
}

#[test]
fn init_clears_the_engine_for_a_new_game() {
    let mut m = MCHSNet::new(1);
    m.receive(next_code(ROOT, 4));
    run_zero_eval_iteration(&mut m, ROOT);
    m.init(-1);
    assert_eq!(m.turn, -1);
    assert!(m.hist.is_empty());
    assert_eq!(m.h.len(), 1);
    assert_eq!(m.h.get(&ROOT).unwrap().n, 1);
}

#[test]
fn save_pairs_the_history_with_the_result() {
    let mut m = MCHSNet::new(1);
    let c1 = next_code(ROOT, 4);
    let c2 = next_code(c1, 0);
    m.receive(c1);
    m.receive(c2);
    let mut d = SaveData::new();
    d.save(&m, 1);
    assert_eq!(d.codes, vec![c1, c2]);
    assert_eq!(d.results, vec![1, 1]);
    d.save(&m, -1);
    assert_eq!(d.codes, vec![c1, c2, c1, c2]);
    assert_eq!(d.results, vec![1, 1, -1, -1]);
    d.init();
    assert!(d.codes.is_empty());
    assert!(d.results.is_empty());
}

#[test]
fn conclude_records_the_chosen_child_in_the_history() {
    let mut m = MCHSNet::new(1);
    for _ in 0..50 {
        run_zero_eval_iteration(&mut m, ROOT);
    }
    let hist_len = m.hist.len();
    let mov = m.conclude(ROOT, false);
    assert!(mov < 9);
    assert!(mchs::game::valid(ROOT, mov));
    assert_eq!(m.hist.len(), hist_len + 1);
    assert_eq!(*m.hist.last().unwrap(), next_code(ROOT, mov));
}
