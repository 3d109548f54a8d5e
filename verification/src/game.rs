//! The state codec: a tic-tac-toe position and the player to move,
//! packed into one integer code.
//!
//! A code holds ten two-bit fields.  Fields 0..9 are the cells in
//! row-major order; each holds 0 (mark B), 1 (empty) or 2 (mark A).
//! Field 9 is the player to move: 0 (mark B) or 2 (mark A).  The mark
//! values used outside the code are -1 (B, "O"), 0 (empty) and
//! 1 (A, "X"); a cell field is always the mark plus one.

use vstd::prelude::*;

verus! {

/// Exclusive upper bound on well-formed codes: four to the tenth.
pub const CODE_LIMIT: u32 = 0x100000;

/// Field `k` of code `c`: the two bits at offset `2 * k`.
pub open spec fn field(c: u32, k: u32) -> u32 {
    (c >> k >> k) & 3
}

/// `c` with field `k` replaced by `v`, all other fields kept.
pub open spec fn code_with(c: u32, k: u32, v: u32) -> u32 {
    (c & !(3u32 << k << k)) | (v << k << k)
}

/// A well-formed code: in range, no cell field holds 3, and the
/// to-move field holds one of the two marks.
pub open spec fn wf_code(c: u32) -> bool {
    &&& c < CODE_LIMIT
    &&& forall|k: u32| k < 9 ==> #[trigger] field(c, k) <= 2
    &&& (field(c, 9) == 0 || field(c, 9) == 2)
}

/// Every field fits in two bits.
pub proof fn lemma_field_bound(c: u32, k: u32)
    by (bit_vector)
    ensures
        field(c, k) <= 3,
{
}

/// Replacing one field changes that field and nothing else, and keeps
/// the code in range.
pub proof fn lemma_code_with(c: u32, k: u32, v: u32, j: u32)
    by (bit_vector)
    requires
        c < 0x100000,
        k <= 9,
        j <= 9,
        v <= 3,
    ensures
        field(code_with(c, k, v), k) == v,
        j != k ==> field(code_with(c, k, v), j) == field(c, j),
        code_with(c, k, v) < 0x100000,
{
}

/// Two codes in range with equal fields are equal.
pub proof fn lemma_code_ext(c1: u32, c2: u32)
    by (bit_vector)
    requires
        c1 < 0x100000,
        c2 < 0x100000,
        field(c1, 0) == field(c2, 0),
        field(c1, 1) == field(c2, 1),
        field(c1, 2) == field(c2, 2),
        field(c1, 3) == field(c2, 3),
        field(c1, 4) == field(c2, 4),
        field(c1, 5) == field(c2, 5),
        field(c1, 6) == field(c2, 6),
        field(c1, 7) == field(c2, 7),
        field(c1, 8) == field(c2, 8),
        field(c1, 9) == field(c2, 9),
    ensures
        c1 == c2,
{
}

/// Read field `k` of `c`.
pub fn get_field(c: u32, k: u32) -> (r: u32)
    requires
        k <= 9,
    ensures
        r == field(c, k),
        r <= 3,
{
    proof {
        lemma_field_bound(c, k);
    }
    (c >> k >> k) & 3
}

/// Write value `v` into field `k` of `c`.
pub fn set_field(c: u32, k: u32, v: u32) -> (r: u32)
    requires
        c < CODE_LIMIT,
        k <= 9,
        v <= 3,
    ensures
        r == code_with(c, k, v),
        r < CODE_LIMIT,
        field(r, k) == v,
        forall|j: u32| j <= 9 && j != k ==> #[trigger] field(r, j) == field(c, j),
{
    proof {
        assert forall|j: u32| j <= 9 && j != k implies #[trigger] field(
            code_with(c, k, v),
            j,
        ) == field(c, j) by {
            lemma_code_with(c, k, v, j);
        }
        lemma_code_with(c, k, v, k);
    }
    (c & !(3u32 << k << k)) | (v << k << k)
}

// ---------------------------------------------------------------------
// Codes as seen through the i32 interface
// ---------------------------------------------------------------------

/// A well-formed code carried in an `i32`.
pub open spec fn wf_icode(code: i32) -> bool {
    0 <= code && wf_code(code as u32)
}

/// The player to move: 1 for mark A ("X"), -1 for mark B ("O").
pub open spec fn turn_spec(c: u32) -> int {
    field(c, 9) - 1
}

/// A move is legal iff it names a cell and that cell is empty.
pub open spec fn valid_spec(c: u32, m: int) -> bool {
    0 <= m < 9 && field(c, m as u32) == 1
}

/// The mark exchange on a single field: the two marks swap, empty
/// and out-of-range values stay put.
pub open spec fn swap_mark(f: u32) -> u32 {
    if f == 0 {
        2
    } else if f == 2 {
        0
    } else {
        f
    }
}

/// The code after the mover claims cell `m` (to-move field untouched).
pub open spec fn move_code_spec(c: u32, m: u32) -> u32 {
    code_with(c, m, field(c, 9))
}

/// The code after the to-move field passes to the other mark.
pub open spec fn flip_turn_spec(c: u32) -> u32 {
    code_with(c, 9, swap_mark(field(c, 9)))
}

/// The code after a full move: the cell is claimed, then the turn
/// passes.
pub open spec fn next_code_spec(c: u32, m: u32) -> u32 {
    code_with(move_code_spec(c, m), 9, swap_mark(field(c, 9)))
}

/// The first `n` fields exchanged between the two marks.
pub open spec fn flip_upto(c: u32, n: int) -> u32
    decreases n,
{
    if n <= 0 {
        c
    } else {
        code_with(flip_upto(c, n - 1), (n - 1) as u32, swap_mark(field(c, (n - 1) as u32)))
    }
}

/// The color swap: every cell and the to-move field exchanged between
/// the two marks.
pub open spec fn flip_code_spec(c: u32) -> u32 {
    flip_upto(c, 10)
}

pub proof fn lemma_flip_upto_fields(c: u32, n: int)
    requires
        c < CODE_LIMIT,
        0 <= n <= 10,
    ensures
        flip_upto(c, n) < CODE_LIMIT,
        forall|j: u32|
            j <= 9 ==> #[trigger] field(flip_upto(c, n), j) == if j < n {
                swap_mark(field(c, j))
            } else {
                field(c, j)
            },
    decreases n,
{
    if n > 0 {
        lemma_flip_upto_fields(c, n - 1);
        let prev = flip_upto(c, n - 1);
        let k = (n - 1) as u32;
        lemma_field_bound(c, k);
        assert forall|j: u32| j <= 9 implies #[trigger] field(flip_upto(c, n), j) == if j < n {
            swap_mark(field(c, j))
        } else {
            field(c, j)
        } by {
            lemma_code_with(prev, k, swap_mark(field(c, k)), j);
        }
        lemma_code_with(prev, k, swap_mark(field(c, k)), k);
    }
}

/// Exchanging the marks twice restores the code, whatever it held.
pub proof fn lemma_flip_involutive(c: u32)
    requires
        c < CODE_LIMIT,
    ensures
        flip_code_spec(flip_code_spec(c)) == c,
{
    let f1 = flip_code_spec(c);
    lemma_flip_upto_fields(c, 10);
    lemma_flip_upto_fields(f1, 10);
    let f2 = flip_code_spec(f1);
    assert(field(f2, 0) == field(c, 0));
    assert(field(f2, 1) == field(c, 1));
    assert(field(f2, 2) == field(c, 2));
    assert(field(f2, 3) == field(c, 3));
    assert(field(f2, 4) == field(c, 4));
    assert(field(f2, 5) == field(c, 5));
    assert(field(f2, 6) == field(c, 6));
    assert(field(f2, 7) == field(c, 7));
    assert(field(f2, 8) == field(c, 8));
    assert(field(f2, 9) == field(c, 9));
    lemma_code_ext(f2, c);
}

/// The color swap of a well-formed code is well-formed, with the
/// to-move field exchanged.
pub proof fn lemma_flip_wf(c: u32)
    requires
        wf_code(c),
    ensures
        wf_code(flip_code_spec(c)),
        field(flip_code_spec(c), 9) == swap_mark(field(c, 9)),
        forall|j: u32| j < 9 ==> #[trigger] field(flip_code_spec(c), j) == swap_mark(field(c, j)),
{
    lemma_flip_upto_fields(c, 10);
}

// ---------------------------------------------------------------------
// Executable code operations
// ---------------------------------------------------------------------

/// The mark exchange on a single field value.
pub fn swap_mark_x(f: u32) -> (r: u32)
    ensures
        r == swap_mark(f),
{
    if f == 0 {
        2
    } else if f == 2 {
        0
    } else {
        f
    }
}

/// The player to move at `code`: 1 for mark A, -1 for mark B.
pub fn turn(code: i32) -> (r: i8)
    requires
        wf_icode(code),
    ensures
        r as int == turn_spec(code as u32),
        r == 1 || r == -1,
{
    let f = get_field(code as u32, 9);
    (f as i8) - 1
}

/// Whether claiming cell `mov` is legal at `code`.
pub fn valid(code: i32, mov: usize) -> (r: bool)
    requires
        wf_icode(code),
    ensures
        r == valid_spec(code as u32, mov as int),
{
    if mov >= 9 {
        false
    } else {
        get_field(code as u32, mov as u32) == 1
    }
}

/// The code with cell `mov` claimed by the player to move; the turn
/// does not pass yet.
pub fn move_code(code: i32, mov: usize) -> (r: i32)
    requires
        wf_icode(code),
        valid_spec(code as u32, mov as int),
    ensures
        r as u32 == move_code_spec(code as u32, mov as u32),
        r >= 0,
{
    let c = code as u32;
    let r = set_field(c, mov as u32, get_field(c, 9));
    proof {
        assert(r < 0x80000000);
    }
    r as i32
}

/// The code with the to-move field passed to the other mark.
pub fn flip_turn(code: i32) -> (r: i32)
    requires
        wf_icode(code),
    ensures
        r as u32 == flip_turn_spec(code as u32),
        wf_icode(r),
        forall|j: u32|
            j < 9 ==> #[trigger] field(r as u32, j) == field(code as u32, j),
        field(r as u32, 9) == swap_mark(field(code as u32, 9)),
{
    let c = code as u32;
    let r = set_field(c, 9, swap_mark_x(get_field(c, 9)));
    proof {
        assert(r < 0x80000000);
    }
    r as i32
}

/// The code after the player to move claims cell `mov`: the cell takes
/// the mover's mark and the turn passes to the other mark.
pub fn next_code(code: i32, mov: usize) -> (r: i32)
    requires
        wf_icode(code),
        valid_spec(code as u32, mov as int),
    ensures
        r as u32 == next_code_spec(code as u32, mov as u32),
        wf_icode(r),
        field(r as u32, mov as u32) == field(code as u32, 9),
        field(r as u32, 9) == swap_mark(field(code as u32, 9)),
        forall|j: u32|
            j < 9 && j != mov as u32 ==> #[trigger] field(r as u32, j) == field(code as u32, j),
        turn_spec(r as u32) == -turn_spec(code as u32),
{
    let c = code as u32;
    let moved = set_field(c, mov as u32, get_field(c, 9));
    let r = set_field(moved, 9, swap_mark_x(get_field(moved, 9)));
    proof {
        assert(r < 0x80000000);
    }
    r as i32
}

/// Play `mov` at `code` if it is legal; an out-of-range or occupied
/// cell is reported as `InvalidMove` and nothing else can go wrong.
pub fn apply_move(code: i32, mov: usize) -> (r: Result<i32, MoveError>)
    requires
        wf_icode(code),
    ensures
        valid_spec(code as u32, mov as int) ==> r == Result::<i32, MoveError>::Ok(
            next_code_spec(code as u32, mov as u32) as i32,
        ),
        !valid_spec(code as u32, mov as int) ==> r == Result::<i32, MoveError>::Err(
            MoveError::InvalidMove,
        ),
{
    if !valid(code, mov) {
        Err(MoveError::InvalidMove)
    } else {
        Ok(next_code(code, mov))
    }
}

/// The color swap on a full code.
pub fn flip_code(code: i32) -> (r: i32)
    requires
        wf_icode(code),
    ensures
        r as u32 == flip_code_spec(code as u32),
        wf_icode(r),
{
    let c0 = code as u32;
    let mut r: u32 = c0;
    let mut k: u32 = 0;
    while k < 10
        invariant
            k <= 10,
            c0 < CODE_LIMIT,
            r == flip_upto(c0, k as int),
            r < CODE_LIMIT,
        decreases 10 - k,
    {
        proof {
            lemma_flip_upto_fields(c0, k as int);
            lemma_field_bound(c0, k);
        }
        r = set_field(r, k, swap_mark_x(get_field(c0, k)));
        k = k + 1;
    }
    proof {
        lemma_flip_upto_fields(c0, 10);
        assert(wf_code(code as u32));
        assert(r < 0x80000000);
    }
    r as i32
}

// ---------------------------------------------------------------------
// Outcomes
// ---------------------------------------------------------------------

/// The verdict a position holds: one of the marks has a completed
/// line, the full board is drawn, or the game goes on.
#[derive(Clone, Copy, PartialEq, Eq, Structural, Debug)]
pub enum Outcome {
    MarkAWins,
    MarkBWins,
    Draw,
    InProgress,
}

/// The eight winning lines, in the order they are scanned.
pub open spec fn line(i: int) -> (usize, usize, usize) {
    if i == 0 {
        (0, 1, 2)
    } else if i == 1 {
        (3, 4, 5)
    } else if i == 2 {
        (6, 7, 8)
    } else if i == 3 {
        (0, 3, 6)
    } else if i == 4 {
        (1, 4, 7)
    } else if i == 5 {
        (2, 5, 8)
    } else if i == 6 {
        (0, 4, 8)
    } else {
        (2, 4, 6)
    }
}

/// The sum of the three cell fields on line `i`: 6 means three of
/// mark A, 0 means three of mark B.
pub open spec fn line_sum(c: u32, i: int) -> int {
    field(c, line(i).0 as u32) + field(c, line(i).1 as u32) + field(c, line(i).2 as u32)
}

/// Whether some cell is still empty.
pub open spec fn has_empty(c: u32) -> bool {
    exists|k: u32| k < 9 && field(c, k) == 1
}

/// The scan of the lines from index `i` on: the first completed line
/// decides; with none, a full board is a draw and the game goes on
/// otherwise.
pub open spec fn scan_spec(c: u32, i: int) -> Outcome
    decreases 8 - i,
{
    if i >= 8 {
        if has_empty(c) {
            Outcome::InProgress
        } else {
            Outcome::Draw
        }
    } else if line_sum(c, i) == 6 {
        Outcome::MarkAWins
    } else if line_sum(c, i) == 0 {
        Outcome::MarkBWins
    } else {
        scan_spec(c, i + 1)
    }
}

/// The outcome of a position.
pub open spec fn outcome_spec(c: u32) -> Outcome {
    scan_spec(c, 0)
}

/// The outcome with the two marks exchanged.
pub open spec fn swap_outcome(o: Outcome) -> Outcome {
    match o {
        Outcome::MarkAWins => Outcome::MarkBWins,
        Outcome::MarkBWins => Outcome::MarkAWins,
        x => x,
    }
}

/// The numeric value of a terminal outcome from mark A's side, scaled
/// by one value unit.
pub open spec fn outcome_value_spec(o: Outcome) -> int {
    match o {
        Outcome::MarkAWins => crate::VALUE_ONE as int,
        Outcome::MarkBWins => -(crate::VALUE_ONE as int),
        _ => 0,
    }
}

proof fn lemma_scan_skip(c: u32, i: int)
    requires
        0 <= i <= 8,
        forall|j: int| 0 <= j < i ==> #[trigger] line_sum(c, j) != 6 && line_sum(c, j) != 0,
    ensures
        scan_spec(c, 0) == scan_spec(c, i),
    decreases i,
{
    if i > 0 {
        lemma_scan_skip(c, i - 1);
    }
}

/// The outcome of a position.
pub fn winner(code: i32) -> (r: Outcome)
    requires
        wf_icode(code),
    ensures
        r == outcome_spec(code as u32),
{
    let c = code as u32;
    let mut i: usize = 0;
    while i < 8
        invariant
            i <= 8,
            c == code as u32,
            wf_icode(code),
            forall|j: int| 0 <= j < i ==> #[trigger] line_sum(c, j) != 6 && line_sum(c, j) != 0,
        decreases 8 - i,
    {
        let (a, b, d) = line_cells(i);
        let s = get_field(c, a as u32) + get_field(c, b as u32) + get_field(c, d as u32);
        if s == 6 {
            proof {
                lemma_scan_skip(c, i as int);
            }
            return Outcome::MarkAWins;
        }
        if s == 0 {
            proof {
                lemma_scan_skip(c, i as int);
            }
            return Outcome::MarkBWins;
        }
        i = i + 1;
    }
    proof {
        lemma_scan_skip(c, 8);
    }
    let mut k: usize = 0;
    while k < 9
        invariant
            k <= 9,
            c == code as u32,
            scan_spec(c, 0) == scan_spec(c, 8),
            forall|j: u32| j < k ==> #[trigger] field(c, j) != 1,
        decreases 9 - k,
    {
        if get_field(c, k as u32) == 1 {
            proof {
                assert(has_empty(c));
            }
            return Outcome::InProgress;
        }
        k = k + 1;
    }
    proof {
        assert(!has_empty(c));
    }
    Outcome::Draw
}

/// The three cells of winning line `i`.
pub fn line_cells(i: usize) -> (r: (usize, usize, usize))
    requires
        i < 8,
    ensures
        r == line(i as int),
        r.0 < 9 && r.1 < 9 && r.2 < 9,
{
    if i == 0 {
        (0, 1, 2)
    } else if i == 1 {
        (3, 4, 5)
    } else if i == 2 {
        (6, 7, 8)
    } else if i == 3 {
        (0, 3, 6)
    } else if i == 4 {
        (1, 4, 7)
    } else if i == 5 {
        (2, 5, 8)
    } else if i == 6 {
        (0, 4, 8)
    } else {
        (2, 4, 6)
    }
}

proof fn lemma_scan_flip(c: u32, i: int)
    requires
        wf_code(c),
        0 <= i <= 8,
    ensures
        scan_spec(flip_code_spec(c), i) == swap_outcome(scan_spec(c, i)),
    decreases 8 - i,
{
    let f = flip_code_spec(c);
    lemma_flip_wf(c);
    if i >= 8 {
        if has_empty(c) {
            let k = choose|k: u32| k < 9 && field(c, k) == 1;
            assert(field(f, k) == 1);
            assert(has_empty(f));
        }
        if has_empty(f) {
            let k = choose|k: u32| k < 9 && field(f, k) == 1;
            assert(field(c, k) == 1);
            assert(has_empty(c));
        }
    } else {
        assert(line(i).0 < 9 && line(i).1 < 9 && line(i).2 < 9);
        assert(line_sum(f, i) == 6 - line_sum(c, i));
        lemma_scan_flip(c, i + 1);
    }
}

/// The outcome is symmetric under the color swap: a mark-A win becomes
/// a mark-B win and the other way round; draw and in-progress stand.
pub proof fn lemma_outcome_flip(c: u32)
    requires
        wf_code(c),
    ensures
        outcome_spec(flip_code_spec(c)) == swap_outcome(outcome_spec(c)),
{
    lemma_scan_flip(c, 0);
}

// ---------------------------------------------------------------------
// Legal moves and child codes
// ---------------------------------------------------------------------

/// The number of empty cells among the first `upto`.
pub open spec fn empties(c: u32, upto: int) -> nat
    decreases upto,
{
    if upto <= 0 {
        0
    } else {
        empties(c, upto - 1) + if field(c, (upto - 1) as u32) == 1 {
            1nat
        } else {
            0nat
        }
    }
}

/// The legal moves among the first `upto` cells, in ascending order.
pub open spec fn legal_upto(c: u32, upto: int) -> Seq<usize>
    decreases upto,
{
    if upto <= 0 {
        Seq::empty()
    } else if field(c, (upto - 1) as u32) == 1 {
        legal_upto(c, upto - 1).push((upto - 1) as usize)
    } else {
        legal_upto(c, upto - 1)
    }
}

/// All legal moves, in ascending order.
pub open spec fn legal_moves_spec(c: u32) -> Seq<usize> {
    legal_upto(c, 9)
}

/// The codes after each legal move among the first `upto` cells, in
/// move order.
pub open spec fn children_upto(c: u32, upto: int) -> Seq<i32>
    decreases upto,
{
    if upto <= 0 {
        Seq::empty()
    } else if field(c, (upto - 1) as u32) == 1 {
        children_upto(c, upto - 1).push(next_code_spec(c, (upto - 1) as u32) as i32)
    } else {
        children_upto(c, upto - 1)
    }
}

/// The codes after each legal move, in move order.
pub open spec fn child_codes_spec(c: u32) -> Seq<i32> {
    children_upto(c, 9)
}

/// What one move does to the fields of a code, at the spec level.
pub proof fn lemma_next_code_fields(c: u32, m: u32)
    requires
        wf_code(c),
        valid_spec(c, m as int),
    ensures
        wf_code(next_code_spec(c, m)),
        field(next_code_spec(c, m), m) == field(c, 9),
        field(next_code_spec(c, m), 9) == swap_mark(field(c, 9)),
        forall|j: u32|
            j < 9 && j != m ==> #[trigger] field(next_code_spec(c, m), j) == field(c, j),
        turn_spec(next_code_spec(c, m)) == -turn_spec(c),
{
    let moved = move_code_spec(c, m);
    lemma_code_with(c, m, field(c, 9), 9);
    assert forall|j: u32| j <= 9 implies #[trigger] field(moved, j) == if j == m {
        field(c, 9)
    } else {
        field(c, j)
    } by {
        lemma_code_with(c, m, field(c, 9), j);
    }
    let nxt = next_code_spec(c, m);
    assert forall|j: u32| j <= 9 implies #[trigger] field(nxt, j) == if j == 9 {
        swap_mark(field(c, 9))
    } else {
        field(moved, j)
    } by {
        lemma_code_with(moved, 9, swap_mark(field(c, 9)), j);
    }
    lemma_code_with(moved, 9, swap_mark(field(c, 9)), 9);
}

/// Codes that agree on every cell except possibly `k` have empty
/// counts that differ only by the two `k` contributions.
proof fn lemma_empties_agree(c1: u32, c2: u32, k: u32, upto: int)
    requires
        0 <= upto <= 9,
        forall|j: u32| j < 9 && j != k ==> #[trigger] field(c1, j) == field(c2, j),
    ensures
        empties(c1, upto) + (if k < upto && field(c2, k) == 1 {
            1nat
        } else {
            0nat
        }) == empties(c2, upto) + (if k < upto && field(c1, k) == 1 {
            1nat
        } else {
            0nat
        }),
    decreases upto,
{
    if upto > 0 {
        lemma_empties_agree(c1, c2, k, upto - 1);
    }
}

/// One legal move leaves exactly one fewer empty cell and passes the
/// turn to the other mark.
pub proof fn lemma_move_empties(c: u32, m: u32)
    requires
        wf_code(c),
        valid_spec(c, m as int),
    ensures
        empties(next_code_spec(c, m), 9) + 1 == empties(c, 9),
        turn_spec(next_code_spec(c, m)) == -turn_spec(c),
{
    let nxt = next_code_spec(c, m);
    lemma_next_code_fields(c, m);
    lemma_empties_agree(nxt, c, m, 9);
    assert(field(c, m) == 1);
    assert(field(nxt, m) == field(c, 9));
    assert(field(nxt, m) != 1);
}

/// The legal moves and child codes run in step: same length, each
/// child the code after the matching move, each move legal, and a cell
/// is listed iff it is empty.
pub proof fn lemma_legal_children(c: u32, upto: int)
    requires
        wf_code(c),
        0 <= upto <= 9,
    ensures
        legal_upto(c, upto).len() == empties(c, upto),
        children_upto(c, upto).len() == empties(c, upto),
        forall|i: int|
            0 <= i < empties(c, upto) ==> valid_spec(c, #[trigger] legal_upto(c, upto)[i] as int)
                && legal_upto(c, upto)[i] < upto,
        forall|i: int|
            0 <= i < empties(c, upto) ==> #[trigger] children_upto(c, upto)[i] as u32
                == next_code_spec(c, legal_upto(c, upto)[i] as u32) && children_upto(c, upto)[i]
                >= 0,
        forall|m: u32| m < upto && field(c, m) == 1 ==> #[trigger] legal_upto(c, upto).contains(m as usize),
        forall|i: int, j: int|
            0 <= i < j < empties(c, upto) ==> #[trigger] legal_upto(c, upto)[i]
                < #[trigger] legal_upto(c, upto)[j],
    decreases upto,
{
    if upto > 0 {
        lemma_legal_children(c, upto - 1);
        let m = (upto - 1) as u32;
        if field(c, m) == 1 {
            lemma_next_code_fields(c, m);
            assert(next_code_spec(c, m) < CODE_LIMIT);
            assert(next_code_spec(c, m) as i32 >= 0);
            assert(legal_upto(c, upto).last() == m as usize);
        }
        assert forall|mm: u32| mm < upto && field(c, mm) == 1 implies #[trigger] legal_upto(
            c,
            upto,
        ).contains(mm as usize) by {
            if mm < upto - 1 {
                assert(legal_upto(c, upto - 1).contains(mm as usize));
                let i = choose|i: int|
                    0 <= i < legal_upto(c, upto - 1).len() && #[trigger] legal_upto(c, upto - 1)[i]
                        == mm as usize;
                assert(legal_upto(c, upto)[i] == mm as usize);
            } else {
                assert(legal_upto(c, upto).last() == mm as usize);
            }
        }
    }
}

/// The legal moves at `code`, in ascending order.
pub fn legal_moves(code: i32) -> (r: Vec<usize>)
    requires
        wf_icode(code),
    ensures
        r@ == legal_moves_spec(code as u32),
        r@.len() == empties(code as u32, 9),
{
    let c = code as u32;
    let mut r: Vec<usize> = Vec::new();
    let mut k: usize = 0;
    while k < 9
        invariant
            k <= 9,
            c == code as u32,
            wf_icode(code),
            r@ == legal_upto(c, k as int),
        decreases 9 - k,
    {
        if get_field(c, k as u32) == 1 {
            r.push(k);
        }
        k = k + 1;
    }
    proof {
        lemma_legal_children(c, 9);
    }
    r
}

/// The codes after each legal move at `code`, in move order.
pub fn child_codes(code: i32) -> (r: Vec<i32>)
    requires
        wf_icode(code),
    ensures
        r@ == child_codes_spec(code as u32),
        r@.len() == empties(code as u32, 9),
{
    let c = code as u32;
    let mut r: Vec<i32> = Vec::new();
    let mut k: usize = 0;
    while k < 9
        invariant
            k <= 9,
            c == code as u32,
            wf_icode(code),
            r@ == children_upto(c, k as int),
        decreases 9 - k,
    {
        if get_field(c, k as u32) == 1 {
            r.push(next_code(code, k));
        }
        k = k + 1;
    }
    proof {
        lemma_legal_children(c, 9);
    }
    r
}

/// No more cells can be empty than are scanned.
pub proof fn lemma_empties_le(c: u32, upto: int)
    requires
        0 <= upto,
    ensures
        empties(c, upto) <= upto,
    decreases upto,
{
    if upto > 0 {
        lemma_empties_le(c, upto - 1);
    }
}

/// A position still in progress has an empty cell, hence a legal move.
pub proof fn lemma_in_progress_has_move(c: u32)
    requires
        outcome_spec(c) == Outcome::InProgress,
    ensures
        empties(c, 9) >= 1,
{
    lemma_scan_in_progress(c, 0);
    let k = choose|k: u32| k < 9 && field(c, k) == 1;
    lemma_empties_cell(c, k);
}

proof fn lemma_scan_in_progress(c: u32, i: int)
    requires
        0 <= i <= 8,
        scan_spec(c, i) == Outcome::InProgress,
    ensures
        has_empty(c),
    decreases 8 - i,
{
    if i < 8 {
        lemma_scan_in_progress(c, i + 1);
    }
}

/// An empty cell contributes to the empty count.
proof fn lemma_empties_cell(c: u32, k: u32)
    requires
        k < 9,
        field(c, k) == 1,
    ensures
        empties(c, 9) >= 1,
{
    lemma_empties_cell_upto(c, k, 9);
}

proof fn lemma_empties_cell_upto(c: u32, k: u32, upto: int)
    requires
        k < upto <= 9,
        field(c, k) == 1,
    ensures
        empties(c, upto) >= 1,
    decreases upto,
{
    if k < upto - 1 {
        lemma_empties_cell_upto(c, k, upto - 1);
    }
}

// ---------------------------------------------------------------------
// The move between two codes
// ---------------------------------------------------------------------

/// Whether the two codes differ in exactly one cell field.
pub open spec fn unique_cell_diff(a: u32, b: u32, k: u32) -> bool {
    &&& k < 9
    &&& field(a, k) != field(b, k)
    &&& forall|j: u32| j < 9 && j != k ==> #[trigger] field(a, j) == field(b, j)
}

/// The index of the one cell whose field differs between the two
/// codes.  Callers must hand a true parent/child pair: some single
/// differing cell has to exist.
pub fn move_diff(prev: i32, post: i32) -> (r: usize)
    requires
        prev >= 0,
        post >= 0,
        exists|k: u32| #[trigger] unique_cell_diff(prev as u32, post as u32, k),
    ensures
        r < 9,
        unique_cell_diff(prev as u32, post as u32, r as u32),
{
    let a = prev as u32;
    let b = post as u32;
    let ghost kw = choose|k: u32| #[trigger] unique_cell_diff(a, b, k);
    let mut i: usize = 0;
    while i < 9
        invariant
            i <= 9,
            a == prev as u32,
            b == post as u32,
            unique_cell_diff(a, b, kw),
            forall|j: u32| j < i ==> #[trigger] field(a, j) == field(b, j),
        decreases 9 - i,
    {
        if get_field(a, i as u32) != get_field(b, i as u32) {
            proof {
                assert(i as u32 == kw);
            }
            return i;
        }
        i = i + 1;
    }
    proof {
        assert(field(a, kw) == field(b, kw));
        assert(false);
    }
    0
}

/// A code and its successor under a legal move differ in exactly that
/// move's cell, so the move can be read back from the pair.
pub proof fn lemma_move_diff_pair(c: u32, m: u32)
    requires
        wf_code(c),
        valid_spec(c, m as int),
    ensures
        unique_cell_diff(c, next_code_spec(c, m), m),
        forall|k: u32| unique_cell_diff(c, next_code_spec(c, m), k) ==> k == m,
{
    lemma_next_code_fields(c, m);
    let nxt = next_code_spec(c, m);
    assert(field(nxt, m) == field(c, 9));
    assert(field(c, m) == 1);
}

// ---------------------------------------------------------------------
// Reachability
// ---------------------------------------------------------------------

/// Whether playing `moves` in order from `a`, each legal when its
/// turn comes, ends at `b`.
pub open spec fn plays_to(a: u32, moves: Seq<u32>, b: u32) -> bool
    decreases moves.len(),
{
    if moves.len() == 0 {
        a == b
    } else {
        valid_spec(a, moves[0] as int) && plays_to(
            next_code_spec(a, moves[0]),
            moves.skip(1),
            b,
        )
    }
}

/// A play can be extended by one more legal move at its end.
pub proof fn lemma_plays_snoc(a: u32, moves: Seq<u32>, b: u32, m: u32)
    requires
        plays_to(a, moves, b),
        valid_spec(b, m as int),
    ensures
        plays_to(a, moves.push(m), next_code_spec(b, m)),
    decreases moves.len(),
{
    let ext = moves.push(m);
    if moves.len() == 0 {
        assert(ext[0] == m);
        assert(ext.skip(1) =~= Seq::<u32>::empty());
        assert(a == b);
        assert(plays_to(next_code_spec(a, m), ext.skip(1), next_code_spec(b, m)));
        assert(valid_spec(a, ext[0] as int));
        assert(plays_to(next_code_spec(a, ext[0]), ext.skip(1), next_code_spec(b, m)));
    } else {
        lemma_plays_snoc(next_code_spec(a, moves[0]), moves.skip(1), b, m);
        assert(ext[0] == moves[0]);
        assert(ext.skip(1) =~= moves.skip(1).push(m));
        assert(valid_spec(a, ext[0] as int));
        assert(plays_to(next_code_spec(a, ext[0]), ext.skip(1), next_code_spec(b, m)));
    }
    assert(ext.len() != 0);
}

// ---------------------------------------------------------------------
// Board encoding and decoding
// ---------------------------------------------------------------------

/// Every field of the zero code is zero.
proof fn lemma_field_zero(j: u32)
    by (bit_vector)
    ensures
        field(0u32, j) == 0,
{
}

/// The code with the first `upto` board cells packed in.
pub open spec fn zip_cells(b: Seq<i8>, upto: int) -> u32
    decreases upto,
{
    if upto <= 0 {
        0
    } else {
        code_with(zip_cells(b, upto - 1), (upto - 1) as u32, (b[upto - 1] + 1) as u32)
    }
}

/// The code a board and a player to move pack into.
pub open spec fn zip_spec(b: Seq<i8>, t: i8) -> u32 {
    code_with(zip_cells(b, 9), 9, (t + 1) as u32)
}

/// The board a code unpacks to: each cell field minus one.
pub open spec fn board_seq(c: u32) -> Seq<i8> {
    Seq::new(9, |k: int| (field(c, k as u32) - 1) as i8)
}

/// The player to move a code unpacks to.
pub open spec fn turn_i8(c: u32) -> i8 {
    (field(c, 9) - 1) as i8
}

proof fn lemma_zip_cells_fields(b: Seq<i8>, upto: int)
    requires
        b.len() == 9,
        0 <= upto <= 9,
        forall|k: int| 0 <= k < 9 ==> -1 <= #[trigger] b[k] <= 1,
    ensures
        zip_cells(b, upto) < CODE_LIMIT,
        forall|j: u32|
            j <= 9 ==> #[trigger] field(zip_cells(b, upto), j) == if j < upto {
                b[j as int] + 1
            } else {
                0
            },
    decreases upto,
{
    if upto <= 0 {
        assert forall|j: u32| j <= 9 implies #[trigger] field(zip_cells(b, upto), j) == 0 by {
            lemma_field_zero(j);
        }
        assert(0u32 < CODE_LIMIT);
    } else {
        lemma_zip_cells_fields(b, upto - 1);
        let prev = zip_cells(b, upto - 1);
        let k = (upto - 1) as u32;
        let v = (b[upto - 1] + 1) as u32;
        assert forall|j: u32| j <= 9 implies #[trigger] field(zip_cells(b, upto), j) == if j
            < upto {
            b[j as int] + 1
        } else {
            0
        } by {
            lemma_code_with(prev, k, v, j);
        }
        lemma_code_with(prev, k, v, k);
    }
}

/// Packing a board and a turn gives a well-formed code whose fields
/// read the board back.
pub proof fn lemma_zip_fields(b: Seq<i8>, t: i8)
    requires
        b.len() == 9,
        forall|k: int| 0 <= k < 9 ==> -1 <= #[trigger] b[k] <= 1,
        t == 1 || t == -1,
    ensures
        wf_code(zip_spec(b, t)),
        forall|j: u32| j < 9 ==> #[trigger] field(zip_spec(b, t), j) == b[j as int] + 1,
        field(zip_spec(b, t), 9) == t + 1,
{
    lemma_zip_cells_fields(b, 9);
    let prev = zip_cells(b, 9);
    let v = (t + 1) as u32;
    assert forall|j: u32| j < 9 implies #[trigger] field(zip_spec(b, t), j) == b[j as int]
        + 1 by {
        lemma_code_with(prev, 9, v, j);
    }
    lemma_code_with(prev, 9, v, 9);
}

/// Decoding after encoding returns the board and the turn unchanged.
pub proof fn lemma_zip_unzip(b: Seq<i8>, t: i8)
    requires
        b.len() == 9,
        forall|k: int| 0 <= k < 9 ==> -1 <= #[trigger] b[k] <= 1,
        t == 1 || t == -1,
    ensures
        board_seq(zip_spec(b, t)) == b,
        turn_i8(zip_spec(b, t)) == t,
{
    lemma_zip_fields(b, t);
    assert(board_seq(zip_spec(b, t)) =~= b);
}

/// Encoding the board and turn a code decodes to returns the code.
pub proof fn lemma_unzip_zip(c: u32)
    requires
        wf_code(c),
    ensures
        zip_spec(board_seq(c), turn_i8(c)) == c,
{
    let b = board_seq(c);
    let t = turn_i8(c);
    lemma_zip_fields(b, t);
    let z = zip_spec(b, t);
    assert(field(z, 0) == field(c, 0));
    assert(field(z, 1) == field(c, 1));
    assert(field(z, 2) == field(c, 2));
    assert(field(z, 3) == field(c, 3));
    assert(field(z, 4) == field(c, 4));
    assert(field(z, 5) == field(c, 5));
    assert(field(z, 6) == field(c, 6));
    assert(field(z, 7) == field(c, 7));
    assert(field(z, 8) == field(c, 8));
    assert(field(z, 9) == field(c, 9));
    lemma_code_ext(z, c);
}

/// Pack a board (entries -1, 0, 1 in row-major order) and a player to
/// move into a code.
pub fn zip_code(board: &Vec<i8>, to_move: i8) -> (r: i32)
    requires
        board@.len() == 9,
        forall|k: int| 0 <= k < 9 ==> -1 <= #[trigger] board@[k] <= 1,
        to_move == 1 || to_move == -1,
    ensures
        r as u32 == zip_spec(board@, to_move),
        wf_icode(r),
{
    let mut c: u32 = 0;
    let mut k: usize = 0;
    while k < 9
        invariant
            k <= 9,
            board@.len() == 9,
            forall|j: int| 0 <= j < 9 ==> -1 <= #[trigger] board@[j] <= 1,
            c == zip_cells(board@, k as int),
            c < CODE_LIMIT,
        decreases 9 - k,
    {
        proof {
            lemma_zip_cells_fields(board@, k as int);
        }
        c = set_field(c, k as u32, (board[k] + 1) as u32);
        k = k + 1;
    }
    let r = set_field(c, 9, (to_move + 1) as u32);
    proof {
        lemma_zip_fields(board@, to_move);
        assert(r < 0x80000000);
    }
    r as i32
}

/// Unpack a code into its board (entries -1, 0, 1) and its player to
/// move.
pub fn unzip_code(code: i32) -> (r: (Vec<i8>, i8))
    requires
        wf_icode(code),
    ensures
        r.0@ == board_seq(code as u32),
        r.1 == turn_i8(code as u32),
        r.0@.len() == 9,
{
    let c = code as u32;
    let mut b: Vec<i8> = Vec::new();
    let mut k: usize = 0;
    while k < 9
        invariant
            k <= 9,
            c == code as u32,
            wf_icode(code),
            b@.len() == k,
            forall|j: int| 0 <= j < k ==> #[trigger] b@[j] == board_seq(c)[j],
        decreases 9 - k,
    {
        let f = get_field(c, k as u32);
        b.push((f as i8) - 1);
        k = k + 1;
    }
    let t = (get_field(c, 9) as i8) - 1;
    proof {
        assert(b@ =~= board_seq(c));
    }
    (b, t)
}

// ---------------------------------------------------------------------
// The environment wrapper
// ---------------------------------------------------------------------

/// The error a caller-supplied move can raise: the named cell is out
/// of range or already claimed.  Everything else a move could break is
/// ruled out by the callers' obligations.
#[derive(Clone, Copy, PartialEq, Eq, Structural, Debug)]
pub enum MoveError {
    InvalidMove,
}

/// The code of the opening position: every cell empty, mark A to move.
pub open spec fn root_spec() -> u32 {
    0x95555
}

/// The opening position is well-formed, empty and mark A's turn.
pub proof fn lemma_root_fields()
    ensures
        wf_code(root_spec()),
        forall|j: u32| j < 9 ==> #[trigger] field(root_spec(), j) == 1,
        field(root_spec(), 9) == 2,
        turn_spec(root_spec()) == 1,
{
    assert forall|j: u32| j < 9 implies #[trigger] field(root_spec(), j) == 1 by {
        lemma_root_field_bv(j);
    }
    lemma_root_field_bv(9);
}

proof fn lemma_root_field_bv(j: u32)
    by (bit_vector)
    requires
        j <= 9,
    ensures
        j < 9 ==> field(0x95555u32, j) == 1,
        j == 9 ==> field(0x95555u32, j) == 2,
{
}

/// Holds the authoritative code of a live game, and reconciles moves
/// handed in under either color orientation.
pub struct Game {
    pub code: i32,
}

impl Game {
    /// A fresh game at the opening position.
    pub fn new() -> (g: Game)
        ensures
            g.code as u32 == root_spec(),
            wf_icode(g.code),
    {
        proof {
            lemma_root_fields();
        }
        Game { code: 0x95555 }
    }

    /// Reset to the opening position.
    pub fn init(&mut self)
        ensures
            final(self).code as u32 == root_spec(),
            wf_icode(final(self).code),
    {
        proof {
            lemma_root_fields();
        }
        self.code = 0x95555;
    }

    /// Play `mov` on `code`, which must be this game's position in
    /// either color orientation.  On a legal move the stored position
    /// advances (under its own orientation) and the caller gets the
    /// successor of `code` with the outcome of the stored position;
    /// an illegal move changes nothing and reports `InvalidMove`.
    pub fn next(&mut self, code: i32, mov: usize) -> (r: Result<(i32, Outcome), MoveError>)
        requires
            wf_icode(old(self).code),
            wf_icode(code),
            code == old(self).code || code as u32 == flip_code_spec(old(self).code as u32),
        ensures
            wf_icode(final(self).code),
            !valid_spec(code as u32, mov as int) ==> r == Result::<(i32, Outcome), MoveError>::Err(
                MoveError::InvalidMove,
            ) && *final(self) == *old(self),
            valid_spec(code as u32, mov as int) ==> {
                let nxt = next_code_spec(code as u32, mov as u32);
                &&& (code == old(self).code ==> final(self).code as u32 == nxt)
                &&& (code != old(self).code ==> final(self).code as u32 == flip_code_spec(nxt))
                &&& r == Result::<(i32, Outcome), MoveError>::Ok(
                    (nxt as i32, outcome_spec(final(self).code as u32)),
                )
            },
    {
        let flipped = self.code != code;
        proof {
            if flipped {
                lemma_flip_wf(old(self).code as u32);
            }
        }
        if !valid(code, mov) {
            Err(MoveError::InvalidMove)
        } else {
            let nxt = next_code(code, mov);
            if flipped {
                self.code = flip_code(nxt);
            } else {
                self.code = nxt;
            }
            Ok((nxt, winner(self.code)))
        }
    }
}

/// The mark a cell value prints as.
pub fn xo(token: i8) -> (r: &'static str)
    ensures
        token == 1 ==> r@ == "X"@,
        token == -1 ==> r@ == "O"@,
        token != 1 && token != -1 ==> r@ == " "@,
{
    match token {
        -1 => "O",
        1 => "X",
        _ => " ",
    }
}

} // verus!
