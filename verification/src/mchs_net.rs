//! The search engine for an externally supplied evaluator, the
//! visit-count move policies, and the self-play record.
//!
//! The evaluator itself lives outside this crate: a driver descends
//! the table with `select_path`, has the leaf's children valued by
//! whatever estimator it runs, hands the values to
//! `expand`, and credits the path with `backprop`.  The
//! engine's behaviour is pinned for every value the estimator could
//! return.

use std::collections::HashMap;

use vstd::prelude::*;

use crate::VALUE_ONE;
use crate::game::{
    Outcome, child_codes, child_codes_spec, empties, legal_moves_spec, lemma_in_progress_has_move,
    lemma_legal_children, lemma_move_diff_pair, lemma_move_empties, lemma_root_fields, move_diff,
    next_code_spec, outcome_spec, outcome_value_spec, root_spec, unique_cell_diff, valid_spec,
    wf_icode, winner,
};
use crate::mchs::{
    GraphNode, MAX_SIMS, ROOT, expand_rel, n_bounded, outcome_value, table_ok, tbl_add,
    tbl_choice_uct, tbl_ensure, tbl_expand_given, uct_pick, uct_score,
};
use crate::rng::rand_below;

verus! {

broadcast use vstd::std_specs::hash::group_hash_axioms;

// ---------------------------------------------------------------------
// Visit-proportional sampling
// ---------------------------------------------------------------------

/// The sum of the first `j` counts.
pub open spec fn pfx(s: Seq<u64>, j: int) -> int
    decreases j,
{
    if j <= 0 {
        0
    } else {
        pfx(s, j - 1) + s[j - 1]
    }
}

/// Prefix sums of counts never decrease.
pub proof fn lemma_pfx_mono(s: Seq<u64>, i: int, j: int)
    requires
        0 <= i <= j <= s.len(),
    ensures
        pfx(s, i) <= pfx(s, j),
    decreases j,
{
    if i < j {
        lemma_pfx_mono(s, i, j - 1);
    }
}

/// Each draw selects exactly one index: the windows
/// `[pfx(s, i), pfx(s, i + 1))` are disjoint, and window `i` is
/// `s[i]` draws wide, so an index is drawn in proportion to its
/// count.
pub proof fn lemma_sample_window_unique(s: Seq<u64>, r: int, i: int, j: int)
    requires
        0 <= i <= j < s.len(),
        pfx(s, i) <= r < pfx(s, i + 1),
        pfx(s, j) <= r < pfx(s, j + 1),
    ensures
        i == j,
{
    if i < j {
        lemma_pfx_mono(s, i + 1, j);
    }
}

/// The index whose cumulative-count window holds the draw `r`.
pub fn sample_index(counts: &Vec<u64>, r: u64) -> (idx: usize)
    requires
        r < pfx(counts@, counts@.len() as int),
        pfx(counts@, counts@.len() as int) <= 0xFFFF_FFFF_FFFF_FFFF,
    ensures
        idx < counts@.len(),
        pfx(counts@, idx as int) <= r < pfx(counts@, idx as int + 1),
{
    let mut cum: u64 = 0;
    let mut i: usize = 0;
    while i < counts.len()
        invariant
            i <= counts@.len(),
            cum == pfx(counts@, i as int),
            cum <= r,
            r < pfx(counts@, counts@.len() as int),
            pfx(counts@, counts@.len() as int) <= 0xFFFF_FFFF_FFFF_FFFF,
        decreases counts@.len() - i,
    {
        proof {
            lemma_pfx_mono(counts@, i as int + 1, counts@.len() as int);
        }
        if r < cum + counts[i] {
            return i;
        }
        cum = cum + counts[i];
        i = i + 1;
    }
    proof {
        assert(false);
    }
    vstd::pervasive::unreached()
}

// ---------------------------------------------------------------------
// The engine half that works with an outside evaluator
// ---------------------------------------------------------------------

/// The weight of child `j` of `code` in table `m`.
pub open spec fn visit_count(m: Map<i32, GraphNode>, code: i32, j: int) -> int {
    m[m[code].children@[j]].n as int
}

/// The sum of the weights of the first `j` children of `code`.
pub open spec fn visits_prefix(m: Map<i32, GraphNode>, code: i32, j: int) -> int
    decreases j,
{
    if j <= 0 {
        0
    } else {
        visits_prefix(m, code, j - 1) + visit_count(m, code, j - 1)
    }
}

/// The search engine driven by an outside evaluator: the statistics
/// table, the mark this player answers for, the history of codes this
/// side moved through (for training data), and the count of
/// simulation steps taken so far.
pub struct MCHSNet {
    pub h: HashMap<i32, GraphNode>,
    pub turn: i8,
    pub hist: Vec<i32>,
    pub sims: u64,
}

impl MCHSNet {
    /// The table is sound and every weight stays within the budget
    /// that the step count grants.
    pub open spec fn wf(&self) -> bool {
        &&& table_ok(self.h@)
        &&& n_bounded(self.h@, 1 + 18 * self.sims as int)
        &&& self.sims <= MAX_SIMS
    }

    /// A fresh engine for the given mark, with one node at the
    /// opening position and an empty history.
    pub fn new(turn: i8) -> (s: MCHSNet)
        ensures
            s.wf(),
            s.h@.contains_key(ROOT),
            forall|c: i32| s.h@.contains_key(c) ==> c == ROOT,
            s.h@[ROOT].n == 1 && s.h@[ROOT].w == 0 && s.h@[ROOT].children@.len() == 0
                && s.h@[ROOT].parents@.len() == 0,
            s.turn == turn,
            s.hist@.len() == 0,
            s.sims == 0,
    {
        let mut h: HashMap<i32, GraphNode> = HashMap::new();
        proof {
            lemma_root_fields();
            assert(ROOT as u32 == root_spec());
        }
        h.insert(ROOT, GraphNode { parents: Vec::new(), children: Vec::new(), w: 0, n: 1 });
        MCHSNet { h, turn, hist: Vec::new(), sims: 0 }
    }

    /// Reset for a new game: a fresh table, an empty history, the
    /// given mark.
    pub fn init(&mut self, turn: i8)
        ensures
            final(self).wf(),
            final(self).h@.contains_key(ROOT),
            forall|c: i32| final(self).h@.contains_key(c) ==> c == ROOT,
            final(self).h@[ROOT].n == 1 && final(self).h@[ROOT].w == 0 && final(self).h@[ROOT].children@.len() == 0,
            final(self).turn == turn,
            final(self).hist@.len() == 0,
            final(self).sims == 0,
    {
        let mut h: HashMap<i32, GraphNode> = HashMap::new();
        proof {
            lemma_root_fields();
            assert(ROOT as u32 == root_spec());
        }
        h.insert(ROOT, GraphNode { parents: Vec::new(), children: Vec::new(), w: 0, n: 1 });
        self.h = h;
        self.turn = turn;
        self.hist = Vec::new();
        self.sims = 0;
    }

    /// Insert a node for `code` unless one is there; idempotent.
    pub fn new_node(&mut self, code: i32)
        requires
            old(self).wf(),
            wf_icode(code),
        ensures
            final(self).wf(),
            final(self).turn == old(self).turn,
            final(self).sims == old(self).sims,
            final(self).hist == old(self).hist,
            final(self).h@.contains_key(code),
            forall|c: i32|
                #[trigger] old(self).h@.contains_key(c) ==> final(self).h@.contains_key(c)
                    && final(self).h@[c] == old(self).h@[c],
            forall|c: i32|
                final(self).h@.contains_key(c) ==> old(self).h@.contains_key(c) || c == code,
            old(self).h@.contains_key(code) ==> final(self).h@ == old(self).h@,
            !old(self).h@.contains_key(code) ==> final(self).h@[code].n == 1
                && final(self).h@[code].w == 0 && final(self).h@[code].children@.len() == 0,
    {
        tbl_ensure(&mut self.h, code);
    }

    /// Record an opponent-made or own position in the history and
    /// make sure it has a node.
    pub fn receive(&mut self, code: i32)
        requires
            old(self).wf(),
            wf_icode(code),
        ensures
            final(self).wf(),
            final(self).turn == old(self).turn,
            final(self).sims == old(self).sims,
            final(self).hist@ == old(self).hist@.push(code),
            final(self).h@.contains_key(code),
            forall|c: i32|
                #[trigger] old(self).h@.contains_key(c) ==> final(self).h@.contains_key(c)
                    && final(self).h@[c] == old(self).h@[c],
            forall|c: i32|
                final(self).h@.contains_key(c) ==> old(self).h@.contains_key(c) || c == code,
            old(self).h@.contains_key(code) ==> final(self).h@ == old(self).h@,
            !old(self).h@.contains_key(code) ==> final(self).h@[code].n == 1
                && final(self).h@[code].w == 0 && final(self).h@[code].children@.len() == 0
                && final(self).h@[code].parents@.len() == 0,
    {
        self.hist.push(code);
        tbl_ensure(&mut self.h, code);
    }

    /// The index of the child of `code` with the best selection
    /// score; the lowest index wins ties.
    pub fn choice_from_uct(&self, code: i32, c_flg: bool) -> (r: usize)
        requires
            table_ok(self.h@),
            n_bounded(self.h@, 0x2000000),
            self.h@.contains_key(code),
            self.h@[code].children@.len() > 0,
        ensures
            r < self.h@[code].children@.len(),
            forall|j: int|
                0 <= j < self.h@[code].children@.len() ==> #[trigger] uct_score(
                    self.h@,
                    code,
                    j,
                    c_flg,
                ) <= uct_score(self.h@, code, r as int, c_flg),
            forall|j: int|
                0 <= j < r ==> #[trigger] uct_score(self.h@, code, j, c_flg) < uct_score(
                    self.h@,
                    code,
                    r as int,
                    c_flg,
                ),
    {
        tbl_choice_uct(&self.h, code, c_flg)
    }

    /// Descend from `root` by the exploration score until a position
    /// with no children yet: the path of one simulation, root first.
    pub fn select_path(&self, root: i32) -> (path: Vec<i32>)
        requires
            table_ok(self.h@),
            n_bounded(self.h@, 0x2000000),
            self.h@.contains_key(root),
        ensures
            path@.len() >= 1,
            path@[0] == root,
            forall|i: int| 0 <= i < path@.len() ==> self.h@.contains_key(#[trigger] path@[i]),
            self.h@[path@.last()].children@.len() == 0,
            forall|i: int|
                0 <= i < path@.len() - 1 ==> #[trigger] uct_pick(self.h@, path@[i], path@[i + 1]),
            forall|i: int, j: int|
                0 <= i < j < path@.len() ==> empties(#[trigger] path@[j] as u32, 9) < empties(
                    #[trigger] path@[i] as u32,
                    9,
                ),
    {
        let mut path: Vec<i32> = Vec::new();
        let mut cur: i32 = root;
        path.push(root);
        let mut go = match self.h.get(&cur) {
            Some(nd) => nd.children.len() > 0,
            None => vstd::pervasive::unreached(),
        };
        while go
            invariant
                table_ok(self.h@),
                n_bounded(self.h@, 0x2000000),
                path@.len() >= 1,
                path@[0] == root,
                path@.last() == cur,
                self.h@.contains_key(cur),
                forall|i: int| 0 <= i < path@.len() ==> self.h@.contains_key(#[trigger] path@[i]),
                go == (self.h@[cur].children@.len() > 0),
                forall|i: int|
                    0 <= i < path@.len() - 1 ==> #[trigger] uct_pick(
                        self.h@,
                        path@[i],
                        path@[i + 1],
                    ),
                forall|i: int, j: int|
                    0 <= i < j < path@.len() ==> empties(#[trigger] path@[j] as u32, 9) < empties(
                        #[trigger] path@[i] as u32,
                        9,
                    ),
            decreases empties(cur as u32, 9),
        {
            let choice = tbl_choice_uct(&self.h, cur, true);
            let next = match self.h.get(&cur) {
                Some(nd) => nd.children[choice],
                None => vstd::pervasive::unreached(),
            };
            proof {
                lemma_legal_children(cur as u32, 9);
                lemma_move_empties(
                    cur as u32,
                    legal_moves_spec(cur as u32)[choice as int] as u32,
                );
                assert(uct_pick(self.h@, cur, next));
            }
            path.push(next);
            cur = next;
            go = match self.h.get(&cur) {
                Some(nd) => nd.children.len() > 0,
                None => vstd::pervasive::unreached(),
            };
        }
        path
    }

    /// Expand `code`, crediting each child with the evaluation the
    /// caller's estimator produced for it, in move order: one
    /// simulation step.  A terminal position reports its own outcome
    /// with weight one and the evaluations go unused.
    pub fn expand(&mut self, code: i32, evals: &Vec<i64>) -> (r: (i64, u64))
        requires
            old(self).wf(),
            old(self).sims < MAX_SIMS,
            old(self).h@.contains_key(code),
            old(self).h@[code].children@.len() == 0,
            outcome_spec(code as u32) == Outcome::InProgress ==> evals@.len()
                == child_codes_spec(code as u32).len(),
            forall|i: int|
                0 <= i < evals@.len() ==> -(VALUE_ONE as int) <= #[trigger] evals@[i] <= VALUE_ONE
                    as int,
        ensures
            final(self).wf(),
            final(self).turn == old(self).turn,
            final(self).hist == old(self).hist,
            final(self).sims == old(self).sims + 1,
            1 <= r.1 <= 9,
            -((r.1 as int) * (VALUE_ONE as int)) <= r.0 as int <= (r.1 as int) * (VALUE_ONE
                as int),
            final(self).h@.contains_key(code),
            final(self).h@[code].n == old(self).h@[code].n + r.1,
            final(self).h@[code].w == old(self).h@[code].w + r.0,
            outcome_spec(code as u32) != Outcome::InProgress ==> r.1 == 1 && r.0
                == outcome_value_spec(outcome_spec(code as u32)) && (forall|c: i32|
                #[trigger] final(self).h@.contains_key(c) <==> old(self).h@.contains_key(c)) && (
            forall|c: i32|
                c != code && old(self).h@.contains_key(c) ==> #[trigger] final(self).h@[c] == old(self).h@[c]),
            outcome_spec(code as u32) == Outcome::InProgress ==> expand_rel(
                old(self).h@,
                final(self).h@,
                code,
                evals@,
                r.0 as int,
                r.1 as int,
            ) && final(self).h@[code].children@ == child_codes_spec(code as u32),
            forall|c: i32|
                #[trigger] old(self).h@.contains_key(c) ==> final(self).h@.contains_key(c)
                    && final(self).h@[c].n >= old(self).h@[c].n && (old(self).h@[c].children@.len() > 0 ==> final(self).h@[c].children@ == old(self).h@[c].children@),
    {
        self.sims = self.sims + 1;
        let out = winner(code);
        if out != Outcome::InProgress {
            let val = outcome_value(out);
            tbl_add(&mut self.h, code, val, 1);
            (val, 1)
        } else {
            proof {
                lemma_legal_children(code as u32, 9);
                lemma_in_progress_has_move(code as u32);
                crate::game::lemma_empties_le(code as u32, 9);
            }
            let kids = child_codes(code);
            tbl_expand_given(&mut self.h, code, kids, evals)
        }
    }

    /// Credit every position on a simulation path with the deltas the
    /// expansion returned: one simulation step.  The path must name
    /// each position at most once.
    pub fn backprop(&mut self, path: &Vec<i32>, dw: i64, dn: u64)
        requires
            old(self).wf(),
            old(self).sims < MAX_SIMS,
            forall|i: int| 0 <= i < path@.len() ==> old(self).h@.contains_key(#[trigger] path@[i]),
            forall|i: int, j: int|
                0 <= i < j < path@.len() ==> #[trigger] path@[i] != #[trigger] path@[j],
            1 <= dn <= 9,
            -((dn as int) * (VALUE_ONE as int)) <= dw as int <= (dn as int) * (VALUE_ONE as int),
        ensures
            final(self).wf(),
            final(self).turn == old(self).turn,
            final(self).hist == old(self).hist,
            final(self).sims == old(self).sims + 1,
            forall|i: int|
                0 <= i < path@.len() ==> final(self).h@[#[trigger] path@[i]].n == old(self).h@[path@[i]].n + dn && final(self).h@[path@[i]].w == old(self).h@[path@[i]].w
                    + dw && final(self).h@[path@[i]].children == old(self).h@[path@[i]].children,
            forall|c: i32|
                #[trigger] old(self).h@.contains_key(c) ==> final(self).h@.contains_key(c)
                    && final(self).h@[c].n >= old(self).h@[c].n && (!path@.contains(c)
                    ==> final(self).h@[c] == old(self).h@[c]),
            forall|c: i32|
                final(self).h@.contains_key(c) ==> old(self).h@.contains_key(c),
    {
        self.sims = self.sims + 1;
        let ghost m0 = self.h@;
        let mut i: usize = 0;
        while i < path.len()
            invariant
                table_ok(self.h@),
                self.turn == old(self).turn,
                self.hist == old(self).hist,
                self.sims == old(self).sims + 1,
                self.sims <= MAX_SIMS,
                m0 == old(self).h@,
                n_bounded(m0, 1 + 18 * old(self).sims as int),
                i <= path@.len(),
                1 <= dn <= 9,
                -((dn as int) * (VALUE_ONE as int)) <= dw as int <= (dn as int) * (VALUE_ONE
                    as int),
                n_bounded(m0, 0x1800000),
                forall|c: i32| #[trigger] m0.contains_key(c) ==> self.h@.contains_key(c),
                forall|c: i32| #[trigger] self.h@.contains_key(c) ==> m0.contains_key(c),
                forall|ii: int| 0 <= ii < path@.len() ==> m0.contains_key(#[trigger] path@[ii]),
                forall|ii: int, jj: int|
                    0 <= ii < jj < path@.len() ==> #[trigger] path@[ii] != #[trigger] path@[jj],
                forall|ii: int|
                    0 <= ii < i ==> self.h@[#[trigger] path@[ii]].n == m0[path@[ii]].n + dn
                        && self.h@[path@[ii]].w == m0[path@[ii]].w + dw
                        && self.h@[path@[ii]].children == m0[path@[ii]].children,
                forall|c: i32|
                    #[trigger] m0.contains_key(c) && !path@.take(i as int).contains(c)
                        ==> self.h@[c] == m0[c],
            decreases path@.len() - i,
        {
            let ghost hpre = self.h@;
            let code = path[i];
            proof {
                assert(!path@.take(i as int).contains(code));
                assert(hpre[code] == m0[code]);
            }
            tbl_add(&mut self.h, code, dw, dn);
            i = i + 1;
            proof {
                assert(path@.take(i as int) =~= path@.take(i as int - 1).push(code));
                assert forall|c: i32|
                    #[trigger] m0.contains_key(c) && !path@.take(i as int).contains(c) implies self
                    .h@[c] == m0[c] by {
                    if path@.take(i as int - 1).contains(c) {
                        let idx = choose|idx: int|
                            0 <= idx < i as int - 1 && #[trigger] path@.take(i as int - 1)[idx]
                                == c;
                        assert(path@.take(i as int)[idx] == c);
                    }
                    assert(!path@.take(i as int - 1).contains(c));
                    assert(path@.take(i as int)[i as int - 1] == code);
                    assert(c != code);
                    assert(hpre[c] == m0[c]);
                }
                assert forall|ii: int| 0 <= ii < i implies self.h@[#[trigger] path@[ii]].n
                    == m0[path@[ii]].n + dn && self.h@[path@[ii]].w == m0[path@[ii]].w + dw
                    && self.h@[path@[ii]].children == m0[path@[ii]].children by {
                    if ii < i as int - 1 {
                        assert(path@[ii] != code);
                        assert(self.h@[path@[ii]] == hpre[path@[ii]]);
                    }
                }
            }
        }
        proof {
            assert(path@.take(path@.len() as int) =~= path@);
            assert forall|c: i32|
                #[trigger] m0.contains_key(c) && !path@.contains(c) implies self.h@[c]
                == m0[c] by {
                assert(!path@.take(path@.len() as int).contains(c));
            }
            assert forall|c: i32| #[trigger] m0.contains_key(c) implies self.h@[c].n >= m0[c].n
                && self.h@[c].n <= m0[c].n + dn by {
                if path@.contains(c) {
                    let ii = choose|ii: int| 0 <= ii < path@.len() && #[trigger] path@[ii] == c;
                    assert(self.h@[c].n == m0[c].n + dn);
                } else {
                    assert(self.h@[c] == m0[c]);
                }
            }
            assert(n_bounded(self.h@, 1 + 18 * self.sims as int));
        }
    }

    /// The end-of-search move policies over visit counts.  With `tau`
    /// off: the index of the most visited child, ties to the lowest
    /// index.  With `tau` on: an index drawn with probability
    /// proportional to its child's visit count.
    pub fn choice_from_pi(&self, code: i32, tau: bool) -> (r: usize)
        requires
            table_ok(self.h@),
            n_bounded(self.h@, 0x2000000),
            self.h@.contains_key(code),
            self.h@[code].children@.len() > 0,
        ensures
            r < self.h@[code].children@.len(),
            !tau ==> forall|j: int|
                0 <= j < self.h@[code].children@.len() ==> #[trigger] visit_count(self.h@, code, j)
                    <= visit_count(self.h@, code, r as int),
            !tau ==> forall|j: int|
                0 <= j < r ==> #[trigger] visit_count(self.h@, code, j) < visit_count(
                    self.h@,
                    code,
                    r as int,
                ),
            tau ==> 0 <= visits_prefix(self.h@, code, r as int) < visits_prefix(
                self.h@,
                code,
                r as int + 1,
            ) <= visits_prefix(self.h@, code, self.h@[code].children@.len() as int),
    {
        let nd = match self.h.get(&code) {
            Some(nd) => nd,
            None => vstd::pervasive::unreached(),
        };
        let len = nd.children.len();
        proof {
            lemma_legal_children(code as u32, 9);
            crate::game::lemma_empties_le(code as u32, 9);
            assert(len <= 9);
        }
        let mut counts: Vec<u64> = Vec::new();
        let mut n_max: u64 = 0;
        let mut greedy: usize = 0;
        let mut i: usize = 0;
        while i < len
            invariant
                table_ok(self.h@),
                n_bounded(self.h@, 0x2000000),
                self.h@.contains_key(code),
                nd == self.h@[code],
                len == nd.children@.len(),
                i <= len,
                counts@.len() == i,
                forall|j: int|
                    0 <= j < i ==> #[trigger] counts@[j] == visit_count(self.h@, code, j),
                i > 0 ==> greedy < i && n_max == visit_count(self.h@, code, greedy as int),
                i == 0 ==> greedy == 0 && n_max == 0,
                forall|j: int|
                    0 <= j < i ==> #[trigger] visit_count(self.h@, code, j) <= n_max,
                forall|j: int|
                    0 <= j < greedy ==> #[trigger] visit_count(self.h@, code, j) < n_max,
            decreases len - i,
        {
            let ch = nd.children[i];
            let cnd = match self.h.get(&ch) {
                Some(cnd) => cnd,
                None => vstd::pervasive::unreached(),
            };
            counts.push(cnd.n);
            if cnd.n > n_max {
                greedy = i;
                n_max = cnd.n;
            }
            i = i + 1;
        }
        if !tau {
            return greedy;
        }
        let mut n_sum: u64 = 0;
        let mut k: usize = 0;
        while k < counts.len()
            invariant
                k <= counts@.len(),
                counts@.len() == len,
                len <= 9,
                len == self.h@[code].children@.len(),
                table_ok(self.h@),
                n_bounded(self.h@, 0x2000000),
                self.h@.contains_key(code),
                forall|j: int|
                    0 <= j < len ==> #[trigger] counts@[j] == visit_count(self.h@, code, j),
                n_sum == pfx(counts@, k as int),
                n_sum == visits_prefix(self.h@, code, k as int),
                n_sum <= (k as int) * 0x2000000,
            decreases counts@.len() - k,
        {
            proof {
                assert(self.h@.contains_key(self.h@[code].children@[k as int]));
            }
            n_sum = n_sum + counts[k];
            k = k + 1;
        }
        proof {
            assert(self.h@.contains_key(self.h@[code].children@[0]));
            assert(visit_count(self.h@, code, 0) >= 1);
            assert(counts@[0] >= 1);
            assert(pfx(counts@, 0) == 0);
            assert(pfx(counts@, 1) == counts@[0]);
            lemma_pfx_mono(counts@, 1, counts@.len() as int);
        }
        let draw = rand_below(n_sum);
        let idx = sample_index(&counts, draw);
        proof {
            lemma_visits_prefix_eq(self.h@, code, counts@, idx as int);
            lemma_visits_prefix_eq(self.h@, code, counts@, idx as int + 1);
            lemma_visits_prefix_eq(self.h@, code, counts@, len as int);
            lemma_pfx_mono(counts@, 0, idx as int);
            lemma_pfx_mono(counts@, idx as int + 1, counts@.len() as int);
        }
        idx
    }
    /// The concluding step of one search: pick a child of `root` by
    /// the visit-count policy (sampled when `train` is on, greedy
    /// otherwise), record the chosen position in the history, and
    /// answer the cell index that produces it, always a legal move.
    pub fn conclude(&mut self, root: i32, train: bool) -> (r: usize)
        requires
            old(self).wf(),
            old(self).h@.contains_key(root),
            old(self).h@[root].children@.len() > 0,
        ensures
            final(self).wf(),
            final(self).h@ == old(self).h@,
            final(self).turn == old(self).turn,
            final(self).sims == old(self).sims,
            valid_spec(root as u32, r as int),
            exists|j: int|
                {
                    &&& 0 <= j < old(self).h@[root].children@.len()
                    &&& r == legal_moves_spec(root as u32)[j]
                    &&& final(self).hist@ == old(self).hist@.push(
                        #[trigger] old(self).h@[root].children@[j],
                    )
                    &&& (!train ==> (forall|jj: int|
                        0 <= jj < old(self).h@[root].children@.len()
                            ==> #[trigger] visit_count(old(self).h@, root, jj) <= visit_count(
                            old(self).h@,
                            root,
                            j,
                        )) && (forall|jj: int|
                        0 <= jj < j ==> #[trigger] visit_count(old(self).h@, root, jj)
                            < visit_count(old(self).h@, root, j)))
                    &&& (train ==> 0 <= visits_prefix(old(self).h@, root, j) < visits_prefix(
                        old(self).h@,
                        root,
                        j + 1,
                    ))
                },
    {
        let choice = self.choice_from_pi(root, train);
        let next = match self.h.get(&root) {
            Some(nd) => nd.children[choice],
            None => vstd::pervasive::unreached(),
        };
        proof {
            lemma_legal_children(root as u32, 9);
            let m = legal_moves_spec(root as u32)[choice as int] as u32;
            lemma_move_diff_pair(root as u32, m);
            assert(next as u32 == next_code_spec(root as u32, m));
            assert(unique_cell_diff(root as u32, next as u32, m));
        }
        let mov = move_diff(root, next);
        self.hist.push(next);
        proof {
            let m = legal_moves_spec(root as u32)[choice as int] as u32;
            assert(mov as u32 == m);
            assert(mov as int == legal_moves_spec(root as u32)[choice as int] as int);
            assert(mov == legal_moves_spec(root as u32)[choice as int]);
        }
        mov
    }
}

/// Prefix sums agree when the counts agree pointwise.
proof fn lemma_visits_prefix_eq(m: Map<i32, GraphNode>, code: i32, s: Seq<u64>, j: int)
    requires
        0 <= j <= s.len(),
        forall|i: int| 0 <= i < s.len() ==> #[trigger] s[i] == visit_count(m, code, i),
    ensures
        visits_prefix(m, code, j) == pfx(s, j),
    decreases j,
{
    if j > 0 {
        lemma_visits_prefix_eq(m, code, s, j - 1);
    }
}

// ---------------------------------------------------------------------
// The self-play record
// ---------------------------------------------------------------------

/// The training record: the codes one side moved through, paired with
/// the final result of each of their games.
pub struct SaveData {
    pub codes: Vec<i32>,
    pub results: Vec<i8>,
}

impl SaveData {
    /// An empty record.
    pub fn new() -> (s: SaveData)
        ensures
            s.codes@.len() == 0,
            s.results@.len() == 0,
    {
        SaveData { codes: Vec::new(), results: Vec::new() }
    }

    /// Append one finished game: every code of the engine's history,
    /// each labelled with the game's result.
    pub fn save(&mut self, mchs_net: &MCHSNet, result: i8)
        ensures
            final(self).codes@ == old(self).codes@ + mchs_net.hist@,
            final(self).results@ == old(self).results@ + Seq::new(
                mchs_net.hist@.len(),
                |i: int| result,
            ),
    {
        let mut i: usize = 0;
        while i < mchs_net.hist.len()
            invariant
                i <= mchs_net.hist@.len(),
                self.codes@ == old(self).codes@ + mchs_net.hist@.take(i as int),
                self.results@ == old(self).results@ + Seq::new(i as nat, |j: int| result),
            decreases mchs_net.hist@.len() - i,
        {
            self.codes.push(mchs_net.hist[i]);
            self.results.push(result);
            i = i + 1;
            proof {
                assert(self.codes@ =~= old(self).codes@ + mchs_net.hist@.take(i as int));
                assert(self.results@ =~= old(self).results@ + Seq::new(i as nat, |j: int| result));
            }
        }
        proof {
            assert(mchs_net.hist@.take(mchs_net.hist@.len() as int) =~= mchs_net.hist@);
            assert(self.codes@ =~= old(self).codes@ + mchs_net.hist@);
        }
    }

    /// Clear the record.
    pub fn init(&mut self)
        ensures
            final(self).codes@.len() == 0,
            final(self).results@.len() == 0,
    {
        self.codes = Vec::new();
        self.results = Vec::new();
    }
}

} // verus!
