//! The search engine over the shared statistics table, with the
//! rollout evaluator.
//!
//! Every position reached during search has one node in a table keyed
//! by its code, so transpositions share their statistics.  A node's
//! accumulated value `w` and visit weight `n` only ever grow; its
//! child list is filled once, on first expansion, and then never
//! changes.

use std::collections::HashMap;

use vstd::prelude::*;

use crate::VALUE_ONE;
use crate::fixed::{is_sqrt, lemma_sqrt_unique, ln_fp, ln_fp_spec, isqrt, sqrt_spec};
use crate::game::{
    Outcome, child_codes, child_codes_spec, empties, legal_moves_spec, lemma_in_progress_has_move,
    lemma_legal_children, lemma_move_diff_pair, lemma_move_empties, lemma_next_code_fields,
    lemma_plays_snoc, lemma_root_fields, move_diff, next_code_spec, outcome_spec,
    outcome_value_spec, plays_to, root_spec, turn, turn_spec, unique_cell_diff, valid_spec,
    wf_icode, winner,
};
use crate::rng::rand_below;

verus! {

broadcast use vstd::std_specs::hash::group_hash_axioms;

/// The code of the opening position: every cell empty, mark A to move.
pub const ROOT: i32 = 611669;

/// The most simulation steps one table accepts over its life; keeps
/// every count far from overflow.
pub const MAX_SIMS: u64 = 1048576;

// ---------------------------------------------------------------------
// Selection scores
// ---------------------------------------------------------------------

/// Division truncating toward zero, as the machine divides.
pub open spec fn tz_div(a: int, b: int) -> int {
    if a >= 0 {
        a / b
    } else {
        -((-a) / b)
    }
}

/// The exploration bonus: the coefficient
/// `ln((np + 19653) / 19652) + 1.25` times `sqrt(ln(np) / ni)`, in
/// fixed-point arithmetic.
pub open spec fn uct_bonus(np: int, ni: int) -> int {
    let cfp = ln_fp_spec((((np + 19653) * 65536) / 19652) as u64) + 81920;
    let lnp = ln_fp_spec((np * 65536) as u64);
    let ratio = lnp / ni;
    let s = sqrt_spec(ratio * 65536);
    (cfp * s) / 65536
}

/// The selection score of a child with accumulated value `w` and
/// weight `ni` under a parent of weight `np`: the child's mean value
/// signed for the mover, plus, when exploration is on, the bonus.
pub open spec fn uct_spec(t: int, w: int, np: int, ni: int, c_flg: bool) -> int {
    let v = tz_div(t * w, ni);
    if c_flg {
        v + uct_bonus(np, ni)
    } else {
        v
    }
}

/// The selection score, executable.  `t` is the mover's sign, `w` and
/// `ni` the child's statistics, `np` the parent's weight; `c_flg`
/// turns the exploration bonus on.
pub fn uct(t: i8, w: i64, np: u64, ni: u64, c_flg: bool) -> (r: i64)
    requires
        t == 1 || t == -1,
        1 <= ni,
        1 <= np <= 0x2000000,
        -0x20000000000000 <= w <= 0x20000000000000,
    ensures
        r == uct_spec(t as int, w as int, np as int, ni as int, c_flg),
{
    let tw: i64 = if t == 1 {
        w
    } else {
        -w
    };
    let v: i64 = if tw >= 0 {
        ((tw as u64) / ni) as i64
    } else {
        -((((-tw) as u64) / ni) as i64)
    };
    proof {
        if tw < 0 {
            vstd::arithmetic::div_mod::lemma_div_is_ordered(0, -(tw as int), ni as int);
            vstd::arithmetic::div_mod::lemma_div_nonincreasing(-(tw as int), ni as int);
        } else {
            vstd::arithmetic::div_mod::lemma_div_is_ordered(0, tw as int, ni as int);
            vstd::arithmetic::div_mod::lemma_div_nonincreasing(tw as int, ni as int);
        }
        assert(v == tz_div(t as int * w as int, ni as int));
    }
    if !c_flg {
        return v;
    }
    proof {
        vstd::arithmetic::div_mod::lemma_div_is_ordered(
            19654int * 65536,
            (np as int + 19653) * 65536,
            19652,
        );
    }
    let arg1: u64 = ((np + 19653) * 65536) / 19652;
    let cfp: u64 = ln_fp(arg1) + 81920;
    let lnp: u64 = ln_fp(np * 65536);
    proof {
        vstd::arithmetic::div_mod::lemma_div_nonincreasing(lnp as int, ni as int);
    }
    let ratio: u64 = lnp / ni;
    let s: u64 = isqrt(ratio * 65536);
    proof {
        assert(is_sqrt(ratio as int * 65536, s as int));
        lemma_sqrt_unique(ratio as int * 65536, s as int);
        assert(s <= 0x200000) by (nonlinear_arith)
            requires
                0 <= s,
                (s as int) * (s as int) <= 0x40000000000,
        ;
        assert((cfp as int) * (s as int) <= 0x300000 * 0x200000) by (nonlinear_arith)
            requires
                cfp <= 0x300000,
                s <= 0x200000,
        ;
        vstd::arithmetic::div_mod::lemma_div_nonincreasing((cfp as int) * (s as int), 65536);
        vstd::arithmetic::div_mod::lemma_div_pos_is_pos((cfp as int) * (s as int), 65536);
    }
    let bonus: u64 = (cfp * s) / 65536;
    v + (bonus as i64)
}

// ---------------------------------------------------------------------
// The rollout evaluator
// ---------------------------------------------------------------------

/// Estimate a position by playing uniformly random legal moves to the
/// end: the exact terminal outcome, -1, 0 or 1, from mark A's side.
/// The report is always the outcome of some position a sequence of at
/// most nine legal moves reaches from the input; on a terminal
/// position it is that position's own outcome, with no playout.
pub fn eval(code: i32) -> (r: i8)
    requires
        wf_icode(code),
    ensures
        -1 <= r <= 1,
        outcome_spec(code as u32) != Outcome::InProgress ==> (r as int) * (VALUE_ONE as int)
            == outcome_value_spec(outcome_spec(code as u32)),
        exists|t: u32, moves: Seq<u32>|
            {
                &&& moves.len() <= 9
                &&& #[trigger] plays_to(code as u32, moves, t)
                &&& crate::game::wf_code(t)
                &&& outcome_spec(t) != Outcome::InProgress
                &&& (r as int) * (VALUE_ONE as int) == outcome_value_spec(outcome_spec(t))
            },
{
    let mut c = code;
    let mut out = winner(c);
    let ghost mut moves: Seq<u32> = Seq::empty();
    proof {
        crate::game::lemma_empties_le(code as u32, 9);
    }
    while out == Outcome::InProgress
        invariant
            wf_icode(code),
            wf_icode(c),
            out == outcome_spec(c as u32),
            outcome_spec(code as u32) != Outcome::InProgress ==> c == code,
            plays_to(code as u32, moves, c as u32),
            moves.len() + empties(c as u32, 9) == empties(code as u32, 9),
            empties(code as u32, 9) <= 9,
        decreases empties(c as u32, 9),
    {
        proof {
            lemma_in_progress_has_move(c as u32);
            lemma_legal_children(c as u32, 9);
        }
        let kids = child_codes(c);
        let idx = rand_below(kids.len() as u64) as usize;
        proof {
            let m = legal_moves_spec(c as u32)[idx as int];
            lemma_next_code_fields(c as u32, m as u32);
            lemma_move_empties(c as u32, m as u32);
            lemma_plays_snoc(code as u32, moves, c as u32, m as u32);
            moves = moves.push(m as u32);
        }
        c = kids[idx];
        out = winner(c);
    }
    proof {
        assert(plays_to(code as u32, moves, c as u32) && moves.len() <= 9 && crate::game::wf_code(c as u32)
            && outcome_spec(c as u32) != Outcome::InProgress);
    }
    match out {
        Outcome::MarkAWins => 1,
        Outcome::MarkBWins => -1,
        _ => 0,
    }
}

// ---------------------------------------------------------------------
// The statistics table
// ---------------------------------------------------------------------

/// One node of the statistics table: the codes this position was
/// reached from, the codes one move ahead (filled once, on first
/// expansion), the accumulated value `w` (scaled by one value unit,
/// signed for mark A) and the visit weight `n`.
pub struct GraphNode {
    pub parents: Vec<i32>,
    pub children: Vec<i32>,
    pub w: i64,
    pub n: u64,
}

/// What holds of every node: its key is a position, its weight counts
/// at least the creation prior, its value stays within one unit per
/// visit, and its child list is either still empty or exactly the
/// position's children, which only an in-progress position has.
pub open spec fn node_ok(c: i32, nd: GraphNode) -> bool {
    &&& wf_icode(c)
    &&& 1 <= nd.n
    &&& -((nd.n - 1) * (VALUE_ONE as int)) <= nd.w as int <= (nd.n - 1) * (VALUE_ONE as int)
    &&& (nd.children@.len() == 0 || nd.children@ == child_codes_spec(c as u32))
    &&& (nd.children@.len() > 0 ==> outcome_spec(c as u32) == Outcome::InProgress)
}

/// What holds of the whole table: every node is sound and every
/// listed child has a node of its own.
pub open spec fn table_ok(m: Map<i32, GraphNode>) -> bool {
    &&& forall|c: i32| m.contains_key(c) ==> node_ok(c, #[trigger] m[c])
    &&& forall|c: i32, i: int|
        m.contains_key(c) && 0 <= i < m[c].children@.len() ==> m.contains_key(
            #[trigger] m[c].children@[i],
        )
}

/// Every weight in the table is at most `b`.
pub open spec fn n_bounded(m: Map<i32, GraphNode>, b: int) -> bool {
    forall|c: i32| m.contains_key(c) ==> #[trigger] m[c].n <= b
}

/// Insert a fresh node for `code` unless one is there; everything
/// else stands.
pub(crate) fn tbl_ensure(h: &mut HashMap<i32, GraphNode>, code: i32)
    ensures
        final(h)@.contains_key(code),
        final(h)@.dom() == old(h)@.dom().insert(code),
        forall|c: i32| old(h)@.contains_key(c) ==> final(h)@.contains_key(c) && final(h)@[c] == old(h)@[c],
        old(h)@.contains_key(code) ==> final(h)@ == old(h)@,
        !old(h)@.contains_key(code) ==> final(h)@[code].n == 1 && final(h)@[code].w == 0
            && final(h)@[code].children@.len() == 0 && final(h)@[code].parents@.len() == 0,
{
    if !h.contains_key(&code) {
        h.insert(code, GraphNode { parents: Vec::new(), children: Vec::new(), w: 0, n: 1 });
    }
    proof {
        assert(h@.dom() =~= old(h)@.dom().insert(code));
    }
}

/// Add a value and weight delta to one node; everything else stands.
pub(crate) fn tbl_add(h: &mut HashMap<i32, GraphNode>, code: i32, dw: i64, dn: u64)
    requires
        old(h)@.contains_key(code),
        old(h)@[code].n <= 0x2000000,
        dn <= 18,
        -((dn as int) * (VALUE_ONE as int)) <= dw as int <= (dn as int) * (VALUE_ONE as int),
        -((old(h)@[code].n as int) * (VALUE_ONE as int)) <= old(h)@[code].w as int <= (old(
            h,
        )@[code].n as int) * (VALUE_ONE as int),
    ensures
        final(h)@.dom() == old(h)@.dom(),
        final(h)@.contains_key(code),
        forall|c: i32|
            c != code && old(h)@.contains_key(c) ==> final(h)@.contains_key(c) && #[trigger] final(h)@[c]
                == old(h)@[c],
        final(h)@[code].n == old(h)@[code].n + dn,
        final(h)@[code].w == old(h)@[code].w + dw,
        final(h)@[code].children == old(h)@[code].children,
        final(h)@[code].parents == old(h)@[code].parents,
{
    let mut nd = match h.remove(&code) {
        Some(nd) => nd,
        None => vstd::pervasive::unreached(),
    };
    nd.w = nd.w + dw;
    nd.n = nd.n + dn;
    h.insert(code, nd);
    proof {
        assert(h@.dom() =~= old(h)@.dom());
    }
}

/// Record `parent` as one more way to reach `code`; everything else
/// stands.
pub(crate) fn tbl_push_parent(h: &mut HashMap<i32, GraphNode>, code: i32, parent: i32)
    requires
        old(h)@.contains_key(code),
    ensures
        final(h)@.dom() == old(h)@.dom(),
        final(h)@.contains_key(code),
        forall|c: i32|
            c != code && old(h)@.contains_key(c) ==> final(h)@.contains_key(c) && #[trigger] final(h)@[c]
                == old(h)@[c],
        final(h)@[code].n == old(h)@[code].n,
        final(h)@[code].w == old(h)@[code].w,
        final(h)@[code].children == old(h)@[code].children,
        final(h)@[code].parents@ == old(h)@[code].parents@.push(parent),
{
    let mut nd = match h.remove(&code) {
        Some(nd) => nd,
        None => vstd::pervasive::unreached(),
    };
    nd.parents.push(parent);
    h.insert(code, nd);
    proof {
        assert(h@.dom() =~= old(h)@.dom());
    }
}

/// Fill `code`'s child list; everything else stands.
pub(crate) fn tbl_set_children(h: &mut HashMap<i32, GraphNode>, code: i32, kids: Vec<i32>)
    requires
        old(h)@.contains_key(code),
    ensures
        final(h)@.dom() == old(h)@.dom(),
        final(h)@.contains_key(code),
        forall|c: i32|
            c != code && old(h)@.contains_key(c) ==> final(h)@.contains_key(c) && #[trigger] final(h)@[c]
                == old(h)@[c],
        final(h)@[code].n == old(h)@[code].n,
        final(h)@[code].w == old(h)@[code].w,
        final(h)@[code].children@ == kids@,
        final(h)@[code].parents == old(h)@[code].parents,
{
    let mut nd = match h.remove(&code) {
        Some(nd) => nd,
        None => vstd::pervasive::unreached(),
    };
    nd.children = kids;
    h.insert(code, nd);
    proof {
        assert(h@.dom() =~= old(h)@.dom());
    }
}

// ---------------------------------------------------------------------
// Expansion
// ---------------------------------------------------------------------

/// The sum of the first `n` entries.
pub open spec fn sum_prefix(s: Seq<i64>, n: int) -> int
    decreases n,
{
    if n <= 0 {
        0
    } else {
        sum_prefix(s, n - 1) + s[n - 1]
    }
}

/// A sum of values each within one unit stays within one unit per
/// entry.
pub proof fn lemma_sum_prefix_bounds(s: Seq<i64>, n: int)
    requires
        0 <= n <= s.len(),
        forall|i: int|
            0 <= i < s.len() ==> -(VALUE_ONE as int) <= #[trigger] s[i] <= VALUE_ONE as int,
    ensures
        -(n * (VALUE_ONE as int)) <= sum_prefix(s, n) <= n * (VALUE_ONE as int),
    decreases n,
{
    if n > 0 {
        lemma_sum_prefix_bounds(s, n - 1);
    }
}

/// A position's children are pairwise distinct codes, none of them
/// the position itself.
pub proof fn lemma_children_distinct(c: u32)
    requires
        crate::game::wf_code(c),
    ensures
        forall|i: int, j: int|
            0 <= i < j < child_codes_spec(c).len() ==> #[trigger] child_codes_spec(c)[i]
                != #[trigger] child_codes_spec(c)[j],
        forall|i: int|
            0 <= i < child_codes_spec(c).len() ==> #[trigger] child_codes_spec(c)[i] != c as i32,
        forall|i: int|
            0 <= i < child_codes_spec(c).len() ==> wf_icode(#[trigger] child_codes_spec(c)[i]),
{
    lemma_legal_children(c, 9);
    let kids = child_codes_spec(c);
    let legal = legal_moves_spec(c);
    assert forall|i: int| 0 <= i < kids.len() implies wf_icode(#[trigger] kids[i]) by {
        lemma_next_code_fields(c, legal[i] as u32);
    }
    assert forall|i: int, j: int| 0 <= i < j < kids.len() implies #[trigger] kids[i]
        != #[trigger] kids[j] by {
        let mi = legal[i] as u32;
        let mj = legal[j] as u32;
        lemma_next_code_fields(c, mi);
        lemma_next_code_fields(c, mj);
        assert(mi < mj);
        assert(crate::game::field(next_code_spec(c, mi), mj) == 1);
        assert(crate::game::field(next_code_spec(c, mj), mj) != 1);
    }
    assert forall|i: int| 0 <= i < kids.len() implies #[trigger] kids[i] != c as i32 by {
        let mi = legal[i] as u32;
        lemma_next_code_fields(c, mi);
        assert(crate::game::field(next_code_spec(c, mi), mi) != 1);
        assert(crate::game::field(c, mi) == 1);
    }
}

/// What one child's node looks like after the expansion of `code`:
/// created if absent, then credited with its evaluation, one more
/// visit and one more parent.
pub open spec fn expanded_child_ok(
    m0: Map<i32, GraphNode>,
    m1: Map<i32, GraphNode>,
    code: i32,
    evals: Seq<i64>,
    i: int,
) -> bool {
    let ch = child_codes_spec(code as u32)[i];
    &&& m1.contains_key(ch)
    &&& m1[ch].n == (if m0.contains_key(ch) {
        m0[ch].n + 1
    } else {
        2
    })
    &&& m1[ch].w as int == (if m0.contains_key(ch) {
        m0[ch].w + evals[i]
    } else {
        evals[i] as int
    })
    &&& m1[ch].parents@ == (if m0.contains_key(ch) {
        m0[ch].parents@
    } else {
        Seq::<i32>::empty()
    }).push(code)
    &&& m1[ch].children@ == (if m0.contains_key(ch) {
        m0[ch].children@
    } else {
        Seq::<i32>::empty()
    })
}

/// The whole effect of expanding `code` with child evaluations
/// `evals`: every legal child gains a node, an evaluation and this
/// parent; `code` itself gains the child list and the summed deltas;
/// nothing else moves.
pub open spec fn expand_rel(
    m0: Map<i32, GraphNode>,
    m1: Map<i32, GraphNode>,
    code: i32,
    evals: Seq<i64>,
    dw: int,
    dn: int,
) -> bool {
    let kids = child_codes_spec(code as u32);
    &&& evals.len() == kids.len()
    &&& dn == kids.len()
    &&& dw == sum_prefix(evals, kids.len() as int)
    &&& forall|i: int|
        0 <= i < evals.len() ==> -(VALUE_ONE as int) <= #[trigger] evals[i] <= VALUE_ONE as int
    &&& forall|c: i32| #[trigger] m1.contains_key(c) <==> m0.contains_key(c) || kids.contains(c)
    &&& m1[code].children@ == kids
    &&& m1[code].n == m0[code].n + dn
    &&& m1[code].w == m0[code].w + dw
    &&& m1[code].parents == m0[code].parents
    &&& forall|i: int| 0 <= i < kids.len() ==> #[trigger] expanded_child_ok(m0, m1, code, evals, i)
    &&& forall|c: i32|
        m0.contains_key(c) && c != code && !kids.contains(c) ==> #[trigger] m1[c] == m0[c]
}

/// Whether `c` is a child of `p` that no sibling beats on the
/// exploration score, ties going to the earlier sibling.
pub open spec fn uct_pick(m: Map<i32, GraphNode>, p: i32, c: i32) -> bool {
    exists|j: int|
        {
            &&& 0 <= j < m[p].children@.len()
            &&& #[trigger] m[p].children@[j] == c
            &&& forall|jj: int|
                0 <= jj < m[p].children@.len() ==> #[trigger] uct_score(m, p, jj, true)
                    <= uct_score(m, p, j, true)
            &&& forall|jj: int|
                0 <= jj < j ==> #[trigger] uct_score(m, p, jj, true) < uct_score(m, p, j, true)
        }
}

/// What one whole simulation does to the table.  `path` is the
/// descent: it starts at the entry position, each step is the
/// exploration pick judged on the statistics as they stood when the
/// simulation began, and it ends at a position that had no children
/// yet.  That leaf reports its outcome (terminal) or is expanded with
/// per-child evaluations `evals`; every position on the path gains
/// exactly the returned deltas, once, and nothing else in the table
/// moves.
pub open spec fn sim_rel(
    m0: Map<i32, GraphNode>,
    m1: Map<i32, GraphNode>,
    path: Seq<i32>,
    evals: Seq<i64>,
    dw: int,
    dn: int,
) -> bool {
    let leaf = path.last();
    &&& path.len() >= 1
    &&& forall|i: int| 0 <= i < path.len() ==> m0.contains_key(#[trigger] path[i])
    &&& forall|i: int| 0 <= i < path.len() - 1 ==> #[trigger] uct_pick(m0, path[i], path[i + 1])
    &&& forall|i: int, j: int|
        0 <= i < j < path.len() ==> empties(#[trigger] path[j] as u32, 9) < empties(
            #[trigger] path[i] as u32,
            9,
        )
    &&& m0[leaf].children@.len() == 0
    &&& forall|i: int|
        0 <= i < path.len() ==> m1.contains_key(#[trigger] path[i]) && m1[path[i]].n
            == m0[path[i]].n + dn && m1[path[i]].w == m0[path[i]].w + dw && m1[path[i]].parents
            == m0[path[i]].parents
    &&& forall|i: int|
        0 <= i < path.len() - 1 ==> #[trigger] m1[path[i]].children == m0[path[i]].children
    &&& if outcome_spec(leaf as u32) != Outcome::InProgress {
        &&& dn == 1
        &&& dw == outcome_value_spec(outcome_spec(leaf as u32))
        &&& m1[leaf].children == m0[leaf].children
        &&& (forall|c: i32| #[trigger] m1.contains_key(c) <==> m0.contains_key(c))
        &&& (forall|c: i32|
            m0.contains_key(c) && !path.contains(c) ==> #[trigger] m1[c] == m0[c])
    } else {
        let kids = child_codes_spec(leaf as u32);
        &&& evals.len() == kids.len()
        &&& dn == kids.len()
        &&& dw == sum_prefix(evals, kids.len() as int)
        &&& (forall|i: int|
            0 <= i < evals.len() ==> -(VALUE_ONE as int) <= #[trigger] evals[i] <= VALUE_ONE
                as int)
        &&& m1[leaf].children@ == kids
        &&& (forall|i: int|
            0 <= i < kids.len() ==> #[trigger] expanded_child_ok(m0, m1, leaf, evals, i))
        &&& (forall|c: i32|
            #[trigger] m1.contains_key(c) <==> m0.contains_key(c) || kids.contains(c))
        &&& (forall|c: i32|
            m0.contains_key(c) && !path.contains(c) && !kids.contains(c) ==> #[trigger] m1[c]
                == m0[c])
    }
}

/// Expand an in-progress, not yet expanded position, crediting each
/// child with the given evaluation; returns the summed value delta
/// and the child count for the caller to carry upward.
pub(crate) fn tbl_expand_given(
    h: &mut HashMap<i32, GraphNode>,
    code: i32,
    kids: Vec<i32>,
    evals: &Vec<i64>,
) -> (r: (i64, u64))
    requires
        table_ok(old(h)@),
        n_bounded(old(h)@, 0x2000000),
        old(h)@.contains_key(code),
        old(h)@[code].children@.len() == 0,
        outcome_spec(code as u32) == Outcome::InProgress,
        kids@ == child_codes_spec(code as u32),
        evals@.len() == kids@.len(),
        forall|i: int|
            0 <= i < evals@.len() ==> -(VALUE_ONE as int) <= #[trigger] evals@[i] <= VALUE_ONE
                as int,
    ensures
        table_ok(final(h)@),
        expand_rel(old(h)@, final(h)@, code, evals@, r.0 as int, r.1 as int),
        1 <= r.1 <= 9,
        -((r.1 as int) * (VALUE_ONE as int)) <= r.0 as int <= (r.1 as int) * (VALUE_ONE as int),
        forall|c: i32|
            #[trigger] old(h)@.contains_key(c) ==> final(h)@.contains_key(c) && final(h)@[c].n
                >= old(h)@[c].n && final(h)@[c].n <= old(h)@[c].n + r.1 && (
            old(h)@[c].children@.len() > 0 ==> final(h)@[c].children@ == old(h)@[c].children@),
        forall|c: i32|
            #[trigger] final(h)@.contains_key(c) && !old(h)@.contains_key(c) ==> final(h)@[c].n
                == 2,
{
    proof {
        lemma_children_distinct(code as u32);
        lemma_legal_children(code as u32, 9);
        lemma_in_progress_has_move(code as u32);
        crate::game::lemma_empties_le(code as u32, 9);
        lemma_sum_prefix_bounds(evals@, evals@.len() as int);
    }
    let ghost m0 = h@;
    let mut dw: i64 = 0;
    let mut dn: u64 = 0;
    let mut i: usize = 0;
    while i < kids.len()
        invariant
            table_ok(h@),
            n_bounded(m0, 0x2000000),
            i <= kids@.len(),
            kids@ == child_codes_spec(code as u32),
            evals@.len() == kids@.len(),
            kids@.len() <= 9,
            forall|ii: int|
                0 <= ii < evals@.len() ==> -(VALUE_ONE as int) <= #[trigger] evals@[ii]
                    <= VALUE_ONE as int,
            forall|ii: int, jj: int|
                0 <= ii < jj < kids@.len() ==> #[trigger] kids@[ii] != #[trigger] kids@[jj],
            forall|ii: int| 0 <= ii < kids@.len() ==> #[trigger] kids@[ii] != code,
            m0.contains_key(code),
            m0[code].children@.len() == 0,
            outcome_spec(code as u32) == Outcome::InProgress,
            h@.contains_key(code),
            h@[code] == m0[code],
            dn == i,
            dw == sum_prefix(evals@, i as int),
            -((i as int) * (VALUE_ONE as int)) <= dw as int <= (i as int) * (VALUE_ONE as int),
            forall|c: i32| m0.contains_key(c) ==> #[trigger] h@.contains_key(c),
            forall|c: i32|
                #[trigger] h@.contains_key(c) ==> m0.contains_key(c) || kids@.take(
                    i as int,
                ).contains(c),
            forall|j: int| 0 <= j < i ==> #[trigger] expanded_child_ok(m0, h@, code, evals@, j),
            forall|j: int|
                i <= j < kids@.len() ==> (m0.contains_key(#[trigger] kids@[j]) ==> h@[kids@[j]]
                    == m0[kids@[j]]) && (!m0.contains_key(kids@[j]) ==> !h@.contains_key(
                    kids@[j],
                )),
            forall|c: i32|
                m0.contains_key(c) && c != code && !kids@.contains(c) ==> #[trigger] h@[c]
                    == m0[c],
            forall|c: i32|
                m0.contains_key(c) ==> #[trigger] h@[c].n >= m0[c].n && h@[c].n <= m0[c].n + 1
                    && (m0[c].children@.len() > 0 ==> h@[c].children@ == m0[c].children@),
            forall|c: i32|
                h@.contains_key(c) && !m0.contains_key(c) ==> #[trigger] h@[c].n == 2,
        decreases kids@.len() - i,
    {
        let ghost hpre = h@;
        let ch = kids[i];
        proof {
            assert(!kids@.take(i as int).contains(ch));
            assert(kids@.contains(ch));
            lemma_legal_children(code as u32, 9);
            lemma_next_code_fields(code as u32, legal_moves_spec(code as u32)[i as int] as u32);
            assert(wf_icode(ch));
        }
        tbl_ensure(h, ch);
        tbl_push_parent(h, ch, code);
        tbl_add(h, ch, evals[i], 1);
        dw = dw + evals[i];
        dn = dn + 1;
        i = i + 1;
        proof {
            assert(kids@.take(i as int) =~= kids@.take(i as int - 1).push(ch));
            assert forall|c: i32| #[trigger] h@.contains_key(c) implies m0.contains_key(c)
                || kids@.take(i as int).contains(c) by {
                if !m0.contains_key(c) && c != ch {
                    assert(hpre.contains_key(c));
                    assert(kids@.take(i as int - 1).contains(c));
                    let j = choose|j: int|
                        0 <= j < i as int - 1 && #[trigger] kids@.take(i as int - 1)[j] == c;
                    assert(kids@.take(i as int)[j] == c);
                } else if c == ch {
                    assert(kids@.take(i as int)[i as int - 1] == ch);
                }
            }
            assert forall|j: int| 0 <= j < i implies #[trigger] expanded_child_ok(
                m0,
                h@,
                code,
                evals@,
                j,
            ) by {
                if j < i as int - 1 {
                    assert(expanded_child_ok(m0, hpre, code, evals@, j));
                    assert(kids@[j] != ch);
                    assert(h@[kids@[j]] == hpre[kids@[j]]);
                } else {
                    assert(kids@[j] == ch);
                    assert(h@.contains_key(ch));
                    if m0.contains_key(ch) {
                        assert(hpre[ch] == m0[ch]);
                        assert(h@[ch].n == m0[ch].n + 1);
                        assert(h@[ch].w as int == m0[ch].w + evals@[j]);
                        assert(h@[ch].parents@ == m0[ch].parents@.push(code));
                        assert(h@[ch].children@ == m0[ch].children@);
                    } else {
                        assert(!hpre.contains_key(ch));
                        assert(h@[ch].n == 2);
                        assert(h@[ch].w as int == evals@[j] as int);
                        assert(h@[ch].parents@ =~= Seq::<i32>::empty().push(code));
                        assert(h@[ch].children@ =~= Seq::<i32>::empty());
                    }
                }
            }
        }
    }
    let ghost mmid = h@;
    proof {
        assert(kids@.take(kids@.len() as int) =~= kids@);
    }
    tbl_set_children(h, code, kids);
    tbl_add(h, code, dw, dn);
    proof {
        let m1 = h@;
        let kidseq = child_codes_spec(code as u32);
        assert forall|j: int| 0 <= j < kidseq.len() implies #[trigger] expanded_child_ok(
            m0,
            m1,
            code,
            evals@,
            j,
        ) by {
            assert(expanded_child_ok(m0, mmid, code, evals@, j));
            assert(kidseq[j] != code);
            assert(m1[kidseq[j]] == mmid[kidseq[j]]);
        }
        assert forall|c: i32| #[trigger] m1.contains_key(c) implies m0.contains_key(c)
            || kidseq.contains(c) by {
            assert(mmid.contains_key(c));
        }
        assert forall|c: i32| m0.contains_key(c) || kidseq.contains(c) implies #[trigger] m1
            .contains_key(c) by {
            if kidseq.contains(c) {
                let j = choose|j: int| 0 <= j < kidseq.len() && #[trigger] kidseq[j] == c;
                assert(expanded_child_ok(m0, m1, code, evals@, j));
            }
        }
        assert forall|c: i32|
            m0.contains_key(c) && c != code && !kidseq.contains(c) implies #[trigger] m1[c]
            == m0[c] by {
            assert(mmid[c] == m0[c]);
            assert(m1[c] == mmid[c]);
        }
        assert forall|c: i32| m1.contains_key(c) implies node_ok(c, #[trigger] m1[c]) by {
            if c == code {
                assert(m1[code].children@ == kidseq);
                assert(m1[code].n == m0[code].n + dn);
            } else if kidseq.contains(c) {
                let j = choose|j: int| 0 <= j < kidseq.len() && #[trigger] kidseq[j] == c;
                assert(expanded_child_ok(m0, m1, code, evals@, j));
                lemma_children_distinct(code as u32);
            } else {
                assert(m1[c] == m0[c]);
            }
        }
        assert forall|c: i32, ii: int|
            m1.contains_key(c) && 0 <= ii < m1[c].children@.len() implies m1.contains_key(
            #[trigger] m1[c].children@[ii],
        ) by {
            if c == code {
                assert(expanded_child_ok(m0, m1, code, evals@, ii));
            } else if kidseq.contains(c) {
                let j = choose|j: int| 0 <= j < kidseq.len() && #[trigger] kidseq[j] == c;
                assert(expanded_child_ok(m0, m1, code, evals@, j));
                if m0.contains_key(c) {
                    assert(m1[c].children@ == m0[c].children@);
                    assert(m0.contains_key(m0[c].children@[ii]));
                }
            } else {
                assert(m1[c] == m0[c]);
                assert(m0.contains_key(m0[c].children@[ii]));
            }
        }
        assert(table_ok(m1));
    }
    (dw, dn)
}

// ---------------------------------------------------------------------
// The engine
// ---------------------------------------------------------------------

/// The numeric value of an outcome, scaled by one value unit.
pub fn outcome_value(o: Outcome) -> (v: i64)
    ensures
        v as int == outcome_value_spec(o),
{
    match o {
        Outcome::MarkAWins => crate::VALUE_ONE,
        Outcome::MarkBWins => -crate::VALUE_ONE,
        _ => 0,
    }
}

/// The selection score of child `j` of `code` in table `m`.
pub open spec fn uct_score(m: Map<i32, GraphNode>, code: i32, j: int, c_flg: bool) -> int {
    let ch = m[code].children@[j];
    uct_spec(turn_spec(code as u32), m[ch].w as int, m[code].n as int, m[ch].n as int, c_flg)
}

/// The index of the child of `code` with the best selection score in
/// table `h`; the lowest index wins ties.
pub(crate) fn tbl_choice_uct(h: &HashMap<i32, GraphNode>, code: i32, c_flg: bool) -> (r: usize)
    requires
        table_ok(h@),
        n_bounded(h@, 0x2000000),
        h@.contains_key(code),
        h@[code].children@.len() > 0,
    ensures
        r < h@[code].children@.len(),
        forall|j: int|
            0 <= j < h@[code].children@.len() ==> #[trigger] uct_score(h@, code, j, c_flg)
                <= uct_score(h@, code, r as int, c_flg),
        forall|j: int|
            0 <= j < r ==> #[trigger] uct_score(h@, code, j, c_flg) < uct_score(
                h@,
                code,
                r as int,
                c_flg,
            ),
{
        let t = turn(code);
        let nd = match h.get(&code) {
            Some(nd) => nd,
            None => vstd::pervasive::unreached(),
        };
        let np = nd.n;
        let len = nd.children.len();
        let mut r: usize = 0;
        let mut best: i64 = 0;
        let mut j: usize = 0;
        while j < len
            invariant
                table_ok(h@),
                n_bounded(h@, 0x2000000),
                h@.contains_key(code),
                nd == h@[code],
                np == nd.n,
                len == nd.children@.len(),
                t as int == turn_spec(code as u32),
                t == 1 || t == -1,
                j <= len,
                j > 0 ==> r < j && best == uct_score(h@, code, r as int, c_flg),
                j == 0 ==> r == 0,
                forall|jj: int|
                    0 <= jj < j ==> #[trigger] uct_score(h@, code, jj, c_flg) <= uct_score(
                        h@,
                        code,
                        r as int,
                        c_flg,
                    ),
                forall|jj: int|
                    0 <= jj < r ==> #[trigger] uct_score(h@, code, jj, c_flg) < uct_score(
                        h@,
                        code,
                        r as int,
                        c_flg,
                    ),
            decreases len - j,
        {
            let ch = nd.children[j];
            let cnd = match h.get(&ch) {
                Some(cnd) => cnd,
                None => vstd::pervasive::unreached(),
            };
            let u = uct(t, cnd.w, np, cnd.n, c_flg);
            if j == 0 || u > best {
                r = j;
                best = u;
            }
            j = j + 1;
        }
        r
}

/// Whether child index `j` of `root` wins the pure-value policy in
/// table `m`: no sibling scores higher and every earlier sibling
/// scores strictly lower.
pub open spec fn value_greedy_choice(m: Map<i32, GraphNode>, root: i32, j: int) -> bool {
    &&& 0 <= j < m[root].children@.len()
    &&& forall|i: int|
        0 <= i < m[root].children@.len() ==> #[trigger] uct_score(m, root, i, false) <= uct_score(
            m,
            root,
            j,
            false,
        )
    &&& forall|i: int|
        0 <= i < j ==> #[trigger] uct_score(m, root, i, false) < uct_score(m, root, j, false)
}

/// The search engine with the rollout evaluator: the statistics table,
/// the mark this player answers for, and the count of simulation
/// steps taken so far.
pub struct MCHS {
    pub h: HashMap<i32, GraphNode>,
    pub turn: i8,
    pub sims: u64,
}

impl MCHS {
    /// The table is sound and every weight stays within the budget
    /// that the step count grants.
    pub open spec fn wf(&self) -> bool {
        &&& table_ok(self.h@)
        &&& n_bounded(self.h@, 1 + 18 * self.sims as int)
        &&& self.sims <= MAX_SIMS
    }

    /// A fresh engine for the given mark, with one node at the
    /// opening position.
    pub fn new(turn: i8) -> (s: MCHS)
        ensures
            s.wf(),
            s.h@.contains_key(ROOT),
            forall|c: i32| s.h@.contains_key(c) ==> c == ROOT,
            s.h@[ROOT].n == 1 && s.h@[ROOT].w == 0 && s.h@[ROOT].children@.len() == 0
                && s.h@[ROOT].parents@.len() == 0,
            s.turn == turn,
            s.sims == 0,
    {
        let mut h: HashMap<i32, GraphNode> = HashMap::new();
        proof {
            lemma_root_fields();
            assert(ROOT as u32 == root_spec());
        }
        h.insert(ROOT, GraphNode { parents: Vec::new(), children: Vec::new(), w: 0, n: 1 });
        MCHS { h, turn, sims: 0 }
    }

    /// Insert a node for `code` unless one is there; idempotent.
    pub fn new_node(&mut self, code: i32)
        requires
            old(self).wf(),
            wf_icode(code),
        ensures
            final(self).wf(),
            final(self).turn == old(self).turn,
            final(self).sims == old(self).sims,
            final(self).h@.contains_key(code),
            forall|c: i32|
                #[trigger] old(self).h@.contains_key(c) ==> final(self).h@.contains_key(c)
                    && final(self).h@[c] == old(self).h@[c],
            forall|c: i32|
                final(self).h@.contains_key(c) ==> old(self).h@.contains_key(c) || c == code,
            old(self).h@.contains_key(code) ==> final(self).h@ == old(self).h@,
            !old(self).h@.contains_key(code) ==> final(self).h@[code].n == 1
                && final(self).h@[code].w == 0 && final(self).h@[code].children@.len() == 0
                && final(self).h@[code].parents@.len() == 0,
    {
        tbl_ensure(&mut self.h, code);
    }

    /// The index of the child of `code` with the best selection
    /// score; the lowest index wins ties.
    pub fn choice_from_uct(&self, code: i32, c_flg: bool) -> (r: usize)
        requires
            table_ok(self.h@),
            n_bounded(self.h@, 0x2000000),
            self.h@.contains_key(code),
            self.h@[code].children@.len() > 0,
        ensures
            r < self.h@[code].children@.len(),
            forall|j: int|
                0 <= j < self.h@[code].children@.len() ==> #[trigger] uct_score(
                    self.h@,
                    code,
                    j,
                    c_flg,
                ) <= uct_score(self.h@, code, r as int, c_flg),
            forall|j: int|
                0 <= j < r ==> #[trigger] uct_score(self.h@, code, j, c_flg) < uct_score(
                    self.h@,
                    code,
                    r as int,
                    c_flg,
                ),
    {
        tbl_choice_uct(&self.h, code, c_flg)
    }

    /// Expand `code` without touching the step count: a terminal
    /// position reports its own outcome with weight one; an
    /// in-progress one gains all its children, each evaluated by one
    /// rollout.
    fn expand_core(&mut self, code: i32) -> (r: (i64, u64))
        requires
            table_ok(old(self).h@),
            n_bounded(old(self).h@, 0x1800000),
            old(self).h@.contains_key(code),
            old(self).h@[code].children@.len() == 0,
        ensures
            table_ok(final(self).h@),
            final(self).turn == old(self).turn,
            final(self).sims == old(self).sims,
            1 <= r.1 <= 9,
            -((r.1 as int) * (VALUE_ONE as int)) <= r.0 as int <= (r.1 as int) * (VALUE_ONE
                as int),
            final(self).h@.contains_key(code),
            final(self).h@[code].n == old(self).h@[code].n + r.1,
            final(self).h@[code].w == old(self).h@[code].w + r.0,
            final(self).h@[code].parents == old(self).h@[code].parents,
            outcome_spec(code as u32) != Outcome::InProgress ==> r.1 == 1 && r.0
                == outcome_value_spec(outcome_spec(code as u32)) && (forall|c: i32|
                #[trigger] final(self).h@.contains_key(c) <==> old(self).h@.contains_key(c)) && (
            forall|c: i32|
                c != code && old(self).h@.contains_key(c) ==> #[trigger] final(self).h@[c] == old(self).h@[c]) && final(self).h@[code].children == old(self).h@[code].children,
            outcome_spec(code as u32) == Outcome::InProgress ==> (exists|evals: Seq<i64>|
                expand_rel(old(self).h@, final(self).h@, code, evals, r.0 as int, r.1 as int))
                && final(self).h@[code].children@ == child_codes_spec(code as u32),
            forall|c: i32|
                #[trigger] old(self).h@.contains_key(c) ==> final(self).h@.contains_key(c)
                    && final(self).h@[c].n >= old(self).h@[c].n && final(self).h@[c].n <= old(
                    self,
                ).h@[c].n + r.1 && (old(self).h@[c].children@.len() > 0
                    ==> final(self).h@[c].children@ == old(self).h@[c].children@),
            forall|c: i32|
                #[trigger] final(self).h@.contains_key(c) && !old(self).h@.contains_key(c)
                    ==> final(self).h@[c].n == 2,
            forall|c: i32|
                #[trigger] old(self).h@.contains_key(c) && empties(c as u32, 9) > empties(
                    code as u32,
                    9,
                ) ==> final(self).h@[c] == old(self).h@[c],
    {
        let out = winner(code);
        if out != Outcome::InProgress {
            let val = outcome_value(out);
            tbl_add(&mut self.h, code, val, 1);
            (val, 1)
        } else {
            proof {
                lemma_children_distinct(code as u32);
                lemma_legal_children(code as u32, 9);
                lemma_in_progress_has_move(code as u32);
                crate::game::lemma_empties_le(code as u32, 9);
            }
            let kids = child_codes(code);
            let mut evals: Vec<i64> = Vec::new();
            let mut i: usize = 0;
            while i < kids.len()
                invariant
                    kids@ == child_codes_spec(code as u32),
                    crate::game::wf_code(code as u32),
                    i <= kids@.len(),
                    evals@.len() == i,
                    forall|ii: int|
                        0 <= ii < i ==> -(VALUE_ONE as int) <= #[trigger] evals@[ii] <= VALUE_ONE
                            as int,
                decreases kids@.len() - i,
            {
                proof {
                    lemma_children_distinct(code as u32);
                }
                let e = eval(kids[i]);
                evals.push((e as i64) * crate::VALUE_ONE);
                i = i + 1;
            }
            let ghost m0 = self.h@;
            let (dw, dn) = tbl_expand_given(&mut self.h, code, kids, &evals);
            proof {
                assert(expand_rel(m0, self.h@, code, evals@, dw as int, dn as int));
                assert forall|c: i32|
                    m0.contains_key(c) && empties(c as u32, 9) > empties(code as u32, 9) implies #[trigger] self
                    .h@[c] == m0[c] by {
                    let kidseq = child_codes_spec(code as u32);
                    if kidseq.contains(c) {
                        let j = choose|j: int| 0 <= j < kidseq.len() && #[trigger] kidseq[j] == c;
                        lemma_legal_children(code as u32, 9);
                        lemma_move_empties(
                            code as u32,
                            legal_moves_spec(code as u32)[j] as u32,
                        );
                        assert(false);
                    }
                }
            }
            (dw, dn)
        }
    }

    /// Expand `code`: one simulation step.  A terminal position
    /// reports its own outcome with weight one; an in-progress one
    /// gains all its children, each evaluated by one random rollout,
    /// and its own statistics grow by the summed evaluations and the
    /// child count, which the caller carries further up.
    pub fn expand(&mut self, code: i32) -> (r: (i64, u64))
        requires
            old(self).wf(),
            old(self).sims < MAX_SIMS,
            old(self).h@.contains_key(code),
            old(self).h@[code].children@.len() == 0,
        ensures
            final(self).wf(),
            final(self).turn == old(self).turn,
            final(self).sims == old(self).sims + 1,
            1 <= r.1 <= 9,
            -((r.1 as int) * (VALUE_ONE as int)) <= r.0 as int <= (r.1 as int) * (VALUE_ONE
                as int),
            final(self).h@.contains_key(code),
            final(self).h@[code].n == old(self).h@[code].n + r.1,
            final(self).h@[code].w == old(self).h@[code].w + r.0,
            final(self).h@[code].parents == old(self).h@[code].parents,
            outcome_spec(code as u32) != Outcome::InProgress ==> r.1 == 1 && r.0
                == outcome_value_spec(outcome_spec(code as u32)) && (forall|c: i32|
                #[trigger] final(self).h@.contains_key(c) <==> old(self).h@.contains_key(c)) && (
            forall|c: i32|
                c != code && old(self).h@.contains_key(c) ==> #[trigger] final(self).h@[c] == old(self).h@[c]) && final(self).h@[code].children == old(self).h@[code].children,
            outcome_spec(code as u32) == Outcome::InProgress ==> (exists|evals: Seq<i64>|
                expand_rel(old(self).h@, final(self).h@, code, evals, r.0 as int, r.1 as int))
                && final(self).h@[code].children@ == child_codes_spec(code as u32),
            forall|c: i32|
                #[trigger] old(self).h@.contains_key(c) ==> final(self).h@.contains_key(c)
                    && final(self).h@[c].n >= old(self).h@[c].n && (old(
                    self,
                ).h@[c].children@.len() > 0 ==> final(self).h@[c].children@ == old(
                    self,
                ).h@[c].children@),
    {
        self.sims = self.sims + 1;
        self.expand_core(code)
    }

    /// One simulation from `code`, without the step bookkeeping.
    fn sim_rec(&mut self, code: i32) -> (r: (i64, u64))
        requires
            table_ok(old(self).h@),
            n_bounded(old(self).h@, 0x1800000),
            old(self).h@.contains_key(code),
        ensures
            table_ok(final(self).h@),
            final(self).turn == old(self).turn,
            final(self).sims == old(self).sims,
            1 <= r.1 <= 9,
            -((r.1 as int) * (VALUE_ONE as int)) <= r.0 as int <= (r.1 as int) * (VALUE_ONE
                as int),
            final(self).h@.contains_key(code),
            final(self).h@[code].n == old(self).h@[code].n + r.1,
            final(self).h@[code].w == old(self).h@[code].w + r.0,
            outcome_spec(code as u32) == Outcome::InProgress ==> final(self).h@[code].children@
                == child_codes_spec(code as u32),
            forall|c: i32|
                #[trigger] old(self).h@.contains_key(c) ==> final(self).h@.contains_key(c)
                    && final(self).h@[c].n >= old(self).h@[c].n && final(self).h@[c].n <= old(
                    self,
                ).h@[c].n + r.1 && (old(self).h@[c].children@.len() > 0
                    ==> final(self).h@[c].children@ == old(self).h@[c].children@),
            forall|c: i32|
                #[trigger] final(self).h@.contains_key(c) && !old(self).h@.contains_key(c)
                    ==> final(self).h@[c].n == 2,
            forall|c: i32|
                #[trigger] old(self).h@.contains_key(c) && empties(c as u32, 9) > empties(
                    code as u32,
                    9,
                ) ==> final(self).h@[c] == old(self).h@[c],
            exists|path: Seq<i32>, evals: Seq<i64>|
                path[0] == code && #[trigger] sim_rel(
                    old(self).h@,
                    final(self).h@,
                    path,
                    evals,
                    r.0 as int,
                    r.1 as int,
                ),
        decreases empties(code as u32, 9),
    {
        let has_kids = match self.h.get(&code) {
            Some(nd) => nd.children.len() > 0,
            None => vstd::pervasive::unreached(),
        };
        if !has_kids {
            let r = self.expand_core(code);
            proof {
                let m0 = old(self).h@;
                let m1 = self.h@;
                let path = seq![code];
                assert(path[0] == code);
                assert(path.last() == code);
                if outcome_spec(code as u32) != Outcome::InProgress {
                    let evals = Seq::<i64>::empty();
                    assert forall|c: i32|
                        m0.contains_key(c) && !path.contains(c) implies #[trigger] m1[c]
                        == m0[c] by {
                        assert(c != code);
                    }
                    assert(sim_rel(m0, m1, path, evals, r.0 as int, r.1 as int));
                    assert(path[0] == code && sim_rel(m0, m1, path, evals, r.0 as int, r.1 as int));
                } else {
                    let evals = choose|e: Seq<i64>|
                        expand_rel(m0, m1, code, e, r.0 as int, r.1 as int);
                    assert(expand_rel(m0, m1, code, evals, r.0 as int, r.1 as int));
                    assert forall|c: i32|
                        m0.contains_key(c) && !path.contains(c) && !child_codes_spec(
                            code as u32,
                        ).contains(c) implies #[trigger] m1[c] == m0[c] by {
                        assert(c != code);
                    }
                    assert(sim_rel(m0, m1, path, evals, r.0 as int, r.1 as int));
                    assert(path[0] == code && sim_rel(m0, m1, path, evals, r.0 as int, r.1 as int));
                }
            }
            r
        } else {
            let choice = self.choice_from_uct(code, true);
            let next = match self.h.get(&code) {
                Some(nd) => nd.children[choice],
                None => vstd::pervasive::unreached(),
            };
            proof {
                lemma_legal_children(code as u32, 9);
                lemma_move_empties(
                    code as u32,
                    legal_moves_spec(code as u32)[choice as int] as u32,
                );
            }
            let ghost m0 = self.h@;
            proof {
                assert(m0[code].children@[choice as int] == next);
                assert(uct_pick(m0, code, next));
            }
            let (dw, dn) = self.sim_rec(next);
            let ghost hmid = self.h@;
            proof {
                assert(self.h@[code] == m0[code]);
            }
            tbl_add(&mut self.h, code, dw, dn);
            proof {
                let m1 = self.h@;
                let (ipath, ievals): (Seq<i32>, Seq<i64>) = choose|p: Seq<i32>, e: Seq<i64>|
                    p[0] == next && #[trigger] sim_rel(m0, hmid, p, e, dw as int, dn as int);
                assert(ipath[0] == next && sim_rel(m0, hmid, ipath, ievals, dw as int, dn as int));
                let path = seq![code] + ipath;
                assert(path.len() == 1 + ipath.len());
                assert(path[0] == code);
                assert forall|i: int| 1 <= i < path.len() implies path[i] == ipath[i - 1] by {}
                assert(ipath.len() >= 1);
                assert(path.last() == ipath.last());
                let leaf = ipath.last();
                assert forall|i: int|
                    0 <= i < ipath.len() implies empties(#[trigger] ipath[i] as u32, 9) < empties(
                    code as u32,
                    9,
                ) by {
                    if i > 0 {
                        assert(empties(ipath[i] as u32, 9) < empties(ipath[0] as u32, 9));
                    }
                    assert(empties(next as u32, 9) < empties(code as u32, 9));
                }
                assert forall|i: int| 0 <= i < ipath.len() implies #[trigger] ipath[i]
                    != code by {}
                assert(!ipath.contains(code));
                assert forall|i: int, j: int|
                    0 <= i < j < path.len() implies empties(#[trigger] path[j] as u32, 9)
                    < empties(#[trigger] path[i] as u32, 9) by {
                    if i == 0 {
                        assert(path[j] == ipath[j - 1]);
                    } else {
                        assert(path[i] == ipath[i - 1]);
                        assert(path[j] == ipath[j - 1]);
                        assert(empties(ipath[j - 1] as u32, 9) < empties(ipath[i - 1] as u32, 9));
                    }
                }
                assert forall|i: int| 0 <= i < path.len() - 1 implies #[trigger] uct_pick(
                    m0,
                    path[i],
                    path[i + 1],
                ) by {
                    if i == 0 {
                        assert(path[1] == ipath[0]);
                        assert(uct_pick(m0, code, next));
                    } else {
                        assert(path[i] == ipath[i - 1]);
                        assert(path[i + 1] == ipath[i]);
                        assert(0 <= i - 1 < ipath.len() - 1);
                        assert(uct_pick(m0, ipath[i - 1], ipath[i - 1 + 1]));
                        assert(ipath[i - 1 + 1] == ipath[i]);
                    }
                }
                assert forall|i: int| 0 <= i < path.len() implies m1.contains_key(
                    #[trigger] path[i],
                ) && m1[path[i]].n == m0[path[i]].n + dn && m1[path[i]].w == m0[path[i]].w + dw
                    && m1[path[i]].parents == m0[path[i]].parents by {
                    if i == 0 {
                        assert(hmid[code] == m0[code]);
                    } else {
                        assert(path[i] == ipath[i - 1]);
                        assert(ipath[i - 1] != code);
                        assert(m1[ipath[i - 1]] == hmid[ipath[i - 1]]);
                    }
                }
                assert forall|i: int| 0 <= i < path.len() - 1 implies #[trigger] m1[path[i]].children
                    == m0[path[i]].children by {
                    if i == 0 {
                        assert(hmid[code] == m0[code]);
                    } else {
                        assert(path[i] == ipath[i - 1]);
                        assert(ipath[i - 1] != code);
                        assert(m1[ipath[i - 1]] == hmid[ipath[i - 1]]);
                        assert(hmid[ipath[i - 1]].children == m0[ipath[i - 1]].children);
                    }
                }
                assert(leaf != code);
                assert(m1[leaf] == hmid[leaf]);
                assert forall|c: i32| #[trigger] m1.contains_key(c) implies hmid.contains_key(
                    c,
                ) by {}
                assert forall|c: i32| #[trigger] hmid.contains_key(c) implies m1.contains_key(
                    c,
                ) by {}
                if outcome_spec(leaf as u32) != Outcome::InProgress {
                    assert forall|c: i32|
                        m0.contains_key(c) && !path.contains(c) implies #[trigger] m1[c]
                        == m0[c] by {
                        if ipath.contains(c) {
                            let k = choose|k: int|
                                0 <= k < ipath.len() && #[trigger] ipath[k] == c;
                            assert(path[k + 1] == c);
                        }
                        assert(!ipath.contains(c));
                        assert(c != code);
                        assert(m1[c] == hmid[c]);
                        assert(hmid[c] == m0[c]);
                    }
                    assert(sim_rel(m0, m1, path, ievals, dw as int, dn as int));
                } else {
                    let kids = child_codes_spec(leaf as u32);
                    assert(wf_icode(leaf));
                    lemma_legal_children(leaf as u32, 9);
                    assert forall|i: int| 0 <= i < kids.len() implies #[trigger] kids[i]
                        != code by {
                        lemma_move_empties(
                            leaf as u32,
                            legal_moves_spec(leaf as u32)[i] as u32,
                        );
                        assert(empties(kids[i] as u32, 9) < empties(leaf as u32, 9));
                        assert(empties(leaf as u32, 9) <= empties(code as u32, 9));
                    }
                    assert forall|i: int| 0 <= i < kids.len() implies #[trigger] expanded_child_ok(
                        m0,
                        m1,
                        leaf,
                        ievals,
                        i,
                    ) by {
                        assert(expanded_child_ok(m0, hmid, leaf, ievals, i));
                        assert(kids[i] != code);
                        assert(m1[kids[i]] == hmid[kids[i]]);
                    }
                    assert forall|c: i32|
                        m0.contains_key(c) && !path.contains(c) && !kids.contains(c) implies #[trigger] m1[c]
                        == m0[c] by {
                        if ipath.contains(c) {
                            let k = choose|k: int|
                                0 <= k < ipath.len() && #[trigger] ipath[k] == c;
                            assert(path[k + 1] == c);
                        }
                        assert(!ipath.contains(c));
                        assert(c != code);
                        assert(m1[c] == hmid[c]);
                        assert(hmid[c] == m0[c]);
                    }
                    assert(sim_rel(m0, m1, path, ievals, dw as int, dn as int));
                }
                assert(path[0] == code && sim_rel(m0, m1, path, ievals, dw as int, dn as int));
            }
            (dw, dn)
        }
    }

    /// One simulation from `code`: descend by the exploration score
    /// to an unexpanded position, expand it there, and credit every
    /// position on the descent path, and only those, with the one
    /// returned delta pair (`sim_rel` pins the whole effect).
    pub fn search_one(&mut self, code: i32) -> (r: (i64, u64))
        requires
            old(self).wf(),
            old(self).sims < MAX_SIMS,
            old(self).h@.contains_key(code),
        ensures
            final(self).wf(),
            final(self).turn == old(self).turn,
            final(self).sims == old(self).sims + 1,
            1 <= r.1 <= 9,
            -((r.1 as int) * (VALUE_ONE as int)) <= r.0 as int <= (r.1 as int) * (VALUE_ONE
                as int),
            final(self).h@.contains_key(code),
            final(self).h@[code].n == old(self).h@[code].n + r.1,
            final(self).h@[code].w == old(self).h@[code].w + r.0,
            outcome_spec(code as u32) == Outcome::InProgress ==> final(self).h@[code].children@
                == child_codes_spec(code as u32),
            forall|c: i32|
                #[trigger] old(self).h@.contains_key(c) ==> final(self).h@.contains_key(c)
                    && final(self).h@[c].n >= old(self).h@[c].n && (old(
                    self,
                ).h@[c].children@.len() > 0 ==> final(self).h@[c].children@ == old(
                    self,
                ).h@[c].children@),
            exists|path: Seq<i32>, evals: Seq<i64>|
                path[0] == code && #[trigger] sim_rel(
                    old(self).h@,
                    final(self).h@,
                    path,
                    evals,
                    r.0 as int,
                    r.1 as int,
                ),
    {
        self.sims = self.sims + 1;
        self.sim_rec(code)
    }

    /// Run `n_iter` simulations from `root` and answer the move to
    /// play: the child with the best pure-value score, read back as a
    /// cell index.  The answer is always a legal move at `root`.
    pub fn search(&mut self, root: i32, n_iter: usize) -> (r: usize)
        requires
            old(self).wf(),
            wf_icode(root),
            outcome_spec(root as u32) == Outcome::InProgress,
            1 <= n_iter,
            old(self).sims + n_iter <= MAX_SIMS,
        ensures
            final(self).wf(),
            valid_spec(root as u32, r as int),
            final(self).turn == old(self).turn,
            final(self).sims == old(self).sims + n_iter,
            final(self).h@.contains_key(root),
            final(self).h@[root].children@ == child_codes_spec(root as u32),
            exists|j: int|
                #[trigger] value_greedy_choice(final(self).h@, root, j) && r == legal_moves_spec(
                    root as u32,
                )[j],
            final(self).h@[root].n >= (if old(self).h@.contains_key(root) {
                old(self).h@[root].n as int
            } else {
                1
            }) + 2 * n_iter,
            forall|c: i32|
                #[trigger] old(self).h@.contains_key(c) ==> final(self).h@.contains_key(c)
                    && final(self).h@[c].n >= old(self).h@[c].n && (old(
                    self,
                ).h@[c].children@.len() > 0 ==> final(self).h@[c].children@ == old(
                    self,
                ).h@[c].children@),
    {
        self.new_node(root);
        let ghost s0 = *self;
        let ghost rbase = s0.h@[root].n;
        let mut it: usize = 0;
        while it < n_iter
            invariant
                self.wf(),
                self.turn == s0.turn,
                wf_icode(root),
                outcome_spec(root as u32) == Outcome::InProgress,
                self.h@.contains_key(root),
                it <= n_iter,
                self.sims == s0.sims + it,
                s0.sims + n_iter <= MAX_SIMS,
                it > 0 ==> self.h@[root].children@ == child_codes_spec(root as u32),
                rbase == s0.h@[root].n,
                self.h@[root].n >= rbase + 2 * it,
                forall|c: i32|
                    #[trigger] s0.h@.contains_key(c) ==> self.h@.contains_key(c) && self.h@[c].n
                        >= s0.h@[c].n && (s0.h@[c].children@.len() > 0 ==> self.h@[c].children@
                        == s0.h@[c].children@),
            decreases n_iter - it,
        {
            self.sims = self.sims + 1;
            let (dw, dn) = self.sim_rec(root);
            tbl_add(&mut self.h, root, dw, dn);
            it = it + 1;
        }
        proof {
            lemma_legal_children(root as u32, 9);
            lemma_in_progress_has_move(root as u32);
        }
        let choice = self.choice_from_uct(root, false);
        let next = match self.h.get(&root) {
            Some(nd) => nd.children[choice],
            None => vstd::pervasive::unreached(),
        };
        proof {
            let m = legal_moves_spec(root as u32)[choice as int] as u32;
            lemma_move_diff_pair(root as u32, m);
            assert(next as u32 == next_code_spec(root as u32, m));
            assert(unique_cell_diff(root as u32, next as u32, m));
        }
        let mov = move_diff(root, next);
        proof {
            let m = legal_moves_spec(root as u32)[choice as int] as u32;
            assert(mov as u32 == m);
            assert(valid_spec(root as u32, legal_moves_spec(root as u32)[choice as int] as int));
            assert(mov as int == legal_moves_spec(root as u32)[choice as int] as int);
            assert(value_greedy_choice(self.h@, root, choice as int));
            assert(mov == legal_moves_spec(root as u32)[choice as int]);
            assert forall|c: i32| #[trigger] old(self).h@.contains_key(c) implies self
                .h@.contains_key(c) && self.h@[c].n >= old(self).h@[c].n && (old(
                self,
            ).h@[c].children@.len() > 0 ==> self.h@[c].children@ == old(self).h@[c].children@) by {
                assert(s0.h@[c] == old(self).h@[c]);
                assert(s0.h@.contains_key(c));
            }
        }
        mov
    }
}

} // verus!
