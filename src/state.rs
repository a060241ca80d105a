use vstd::prelude::*;
use vstd::set_lib::{lemma_int_range, lemma_len_subset, set_int_range};

use crate::direction::Direction;

verus! {

/// Every cell holds a value in `[0, 9)` and there are nine cells.
pub open spec fn cells_in_range(s: Seq<i8>) -> bool {
    &&& s.len() == 9
    &&& forall|i: int| 0 <= i < 9 ==> 0 <= #[trigger] s[i] < 9
}

/// Some cell holds the blank.
pub open spec fn has_blank(s: Seq<i8>) -> bool {
    exists|i: int| 0 <= i < s.len() && s[i] == 0
}

/// A board: a permutation of `0..9`, hence with exactly one blank.
pub open spec fn is_valid_state(s: Seq<i8>) -> bool {
    &&& cells_in_range(s)
    &&& forall|i: int, j: int| 0 <= i < j < 9 ==> s[i] != s[j]
    &&& has_blank(s)
}

/// The solved board `[0, 1, ..., 8]`.
pub open spec fn goal_state() -> Seq<i8> {
    Seq::new(9, |i: int| i as i8)
}

/// The first cell that holds the blank.
pub open spec fn blank_position(s: Seq<i8>) -> int {
    choose|i: int| 0 <= i < s.len() && s[i] == 0 && forall|j: int| 0 <= j < i ==> s[j] != 0
}

/// The cell that the blank reaches from `pos` in direction `d`, if it stays
/// on the board.
pub open spec fn target(pos: int, d: Direction) -> Option<int> {
    let row = pos / 3;
    let col = pos % 3;
    match d {
        Direction::Left => if col > 0 { Some(pos - 1) } else { Option::None },
        Direction::Right => if col < 2 { Some(pos + 1) } else { Option::None },
        Direction::Up => if row > 0 { Some(pos - 3) } else { Option::None },
        Direction::Down => if row < 2 { Some(pos + 3) } else { Option::None },
        Direction::NoMove => Some(pos),
    }
}

/// `s` with cells `i` and `j` exchanged.
pub open spec fn swap_cells(s: Seq<i8>, i: int, j: int) -> Seq<i8> {
    s.update(i, s[j]).update(j, s[i])
}

/// The board after the blank moves in direction `d`, or `None` where the
/// move would leave the board.
pub open spec fn apply_move(s: Seq<i8>, d: Direction) -> Option<Seq<i8>> {
    let p = blank_position(s);
    match target(p, d) {
        Some(t) => Some(swap_cells(s, p, t)),
        Option::None => Option::None,
    }
}

/// The direction that undoes `d`.
pub open spec fn opposite(d: Direction) -> Direction {
    match d {
        Direction::Left => Direction::Right,
        Direction::Right => Direction::Left,
        Direction::Up => Direction::Down,
        Direction::Down => Direction::Up,
        Direction::NoMove => Direction::NoMove,
    }
}

/// The board after the moves of `ms`, in order, or `None` where one of them
/// would leave the board.
pub open spec fn apply_moves(s: Seq<i8>, ms: Seq<Direction>) -> Option<Seq<i8>>
    decreases ms.len(),
{
    if ms.len() == 0 {
        Some(s)
    } else {
        match apply_move(s, ms[0]) {
            Some(t) => apply_moves(t, ms.drop_first()),
            Option::None => Option::None,
        }
    }
}

pub open spec fn abs_diff(a: int, b: int) -> int {
    if a >= b { a - b } else { b - a }
}

/// What the tile `v` at cell `i` adds to the Manhattan distance: nothing for
/// the blank, else its row and column offsets from cell `v`.
pub open spec fn tile_cost(i: int, v: int) -> int {
    if v == 0 {
        0
    } else {
        abs_diff(i % 3, v % 3) + abs_diff(i / 3, v / 3)
    }
}

/// The Manhattan distance of the first `n` cells of `s`.
pub open spec fn manhattan(s: Seq<i8>, n: int) -> int
    decreases n,
{
    if n <= 0 {
        0
    } else {
        manhattan(s, n - 1) + tile_cost(n - 1, s[n - 1] as int)
    }
}

/// The Manhattan distance of the board `s` from the goal.
pub open spec fn manhattan_of(s: Seq<i8>) -> int {
    manhattan(s, 9)
}

/// How many cells in `[j, len)` hold a tile smaller than the one at `i`.
pub open spec fn inversions_after(s: Seq<i8>, i: int, j: int) -> int
    decreases s.len() - j,
{
    if j >= s.len() {
        0
    } else {
        (if s[j] != 0 && s[i] > s[j] { 1int } else { 0int }) + inversions_after(s, i, j + 1)
    }
}

/// The number of inversions among the tiles of cells `[i, len)`, the blank
/// left out.
pub open spec fn inversions_from(s: Seq<i8>, i: int) -> int
    decreases s.len() - i,
{
    if i >= s.len() {
        0
    } else {
        (if s[i] != 0 { inversions_after(s, i, i + 1) } else { 0int }) + inversions_from(s, i + 1)
    }
}

/// The parity test on a 3x3 board: an even number of inversions.
pub open spec fn is_solvable(s: Seq<i8>) -> bool {
    inversions_from(s, 0) % 2 == 0
}

/// The base-9 number whose digits, lowest first, are the cells of `s`.
pub open spec fn state_code(s: Seq<i8>) -> int
    decreases s.len(),
{
    if s.len() == 0 {
        0
    } else {
        s[0] as int + 9 * state_code(s.drop_first())
    }
}

pub open spec fn pow9(n: nat) -> int
    decreases n,
{
    if n == 0 { 1 } else { 9 * pow9((n - 1) as nat) }
}

/// The number of boards of nine cells with values in `[0, 9)`.
pub const MAX_STATES: usize = 387420489;

/// Some cell holds the blank, so a first such cell exists.
pub proof fn lemma_first_blank(s: Seq<i8>, i: int)
    requires
        0 <= i < s.len(),
        s[i] == 0,
    ensures
        exists|j: int| 0 <= j < s.len() && s[j] == 0 && forall|k: int| 0 <= k < j ==> s[k] != 0,
    decreases i,
{
    if exists|k: int| 0 <= k < i && s[k] == 0 {
        let k = choose|k: int| 0 <= k < i && s[k] == 0;
        lemma_first_blank(s, k);
    } else {
        assert(forall|k: int| 0 <= k < i ==> s[k] != 0);
    }
}

/// The first cell that holds the blank is `blank_position`.
pub proof fn lemma_blank_position(s: Seq<i8>, i: int)
    requires
        0 <= i < s.len(),
        s[i] == 0,
        forall|k: int| 0 <= k < i ==> s[k] != 0,
    ensures
        blank_position(s) == i,
{
    let p = blank_position(s);
    assert(0 <= p < s.len() && s[p] == 0 && forall|k: int| 0 <= k < p ==> s[k] != 0);
    if p < i {
        assert(s[p] != 0);
    } else if p > i {
        assert(s[i] != 0);
    }
}

/// A move that stays on the board turns a permutation into a permutation.
pub proof fn lemma_move_keeps_valid(s: Seq<i8>, d: Direction)
    requires
        is_valid_state(s),
        apply_move(s, d) is Some,
    ensures
        is_valid_state(apply_move(s, d).unwrap()),
{
    let i = choose|i: int| 0 <= i < s.len() && s[i] == 0;
    lemma_first_blank(s, i);
    let p = blank_position(s);
    let t = target(p, d).unwrap();
    let n = swap_cells(s, p, t);
    crate::node::lemma_move_keeps_board(s, d);
    assert(0 <= t < 9);
    assert forall|a: int, b: int| 0 <= a < b < 9 implies n[a] != n[b] by {
        let sa = if a == t { p } else if a == p { t } else { a };
        let sb = if b == t { p } else if b == p { t } else { b };
        assert(n[a] == s[sa]);
        assert(n[b] == s[sb]);
        assert(sa != sb);
        if sa < sb {
            assert(s[sa] != s[sb]);
        } else {
            assert(s[sb] != s[sa]);
        }
    }
}

/// Moving the blank back the way it came restores the board.
pub proof fn lemma_move_back(s: Seq<i8>, d: Direction)
    requires
        is_valid_state(s),
        d != Direction::NoMove,
        apply_move(s, d) is Some,
    ensures
        apply_move(apply_move(s, d).unwrap(), opposite(d)) == Some(s),
{
    let i = choose|i: int| 0 <= i < s.len() && s[i] == 0;
    lemma_first_blank(s, i);
    lemma_move_keeps_valid(s, d);
    let p = blank_position(s);
    let t = target(p, d).unwrap();
    let n = swap_cells(s, p, t);
    assert(n[t] == 0);
    assert forall|k: int| 0 <= k < t implies n[k] != 0 by {
        assert(n[k] != n[t]);
    }
    lemma_blank_position(n, t);
    assert(target(t, opposite(d)) == Some(p));
    assert(swap_cells(n, t, p) =~= s);
}

/// The direction `NoMove` leaves the board as it is.
pub proof fn lemma_no_move(s: Seq<i8>)
    requires
        has_blank(s),
    ensures
        apply_move(s, Direction::NoMove) == Some(s),
{
    let i = choose|i: int| 0 <= i < s.len() && s[i] == 0;
    lemma_first_blank(s, i);
    let p = blank_position(s);
    assert(swap_cells(s, p, p) =~= s);
}

pub proof fn lemma_tile_cost_bound(i: int, v: int)
    requires
        0 <= i < 9,
        0 <= v < 9,
    ensures
        0 <= tile_cost(i, v) <= 4,
{
}

pub proof fn lemma_manhattan_bound(s: Seq<i8>, n: int)
    requires
        cells_in_range(s),
        0 <= n <= 9,
    ensures
        0 <= manhattan(s, n) <= 4 * n,
    decreases n,
{
    if n > 0 {
        lemma_manhattan_bound(s, n - 1);
        lemma_tile_cost_bound(n - 1, s[n - 1] as int);
    }
}

proof fn lemma_code_bound(s: Seq<i8>)
    requires
        forall|i: int| 0 <= i < s.len() ==> 0 <= #[trigger] s[i] < 9,
    ensures
        0 <= state_code(s) < pow9(s.len()),
    decreases s.len(),
{
    if s.len() > 0 {
        let r = s.drop_first();
        assert forall|i: int| 0 <= i < r.len() implies 0 <= #[trigger] r[i] < 9 by {
            assert(r[i] == s[i + 1]);
        }
        lemma_code_bound(r);
        let a = s[0] as int;
        let c = state_code(r);
        let p = pow9(r.len());
        assert(a + 9 * c < 9 * p) by (nonlinear_arith)
            requires
                0 <= a < 9,
                0 <= c < p,
        ;
        assert(0 <= a + 9 * c) by (nonlinear_arith)
            requires
                0 <= a,
                0 <= c,
        ;
    }
}

proof fn lemma_code_injective(a: Seq<i8>, b: Seq<i8>)
    requires
        a.len() == b.len(),
        forall|i: int| 0 <= i < a.len() ==> 0 <= #[trigger] a[i] < 9,
        forall|i: int| 0 <= i < b.len() ==> 0 <= #[trigger] b[i] < 9,
        state_code(a) == state_code(b),
    ensures
        a == b,
    decreases a.len(),
{
    if a.len() > 0 {
        let ra = a.drop_first();
        let rb = b.drop_first();
        assert forall|i: int| 0 <= i < ra.len() implies 0 <= #[trigger] ra[i] < 9 by {
            assert(ra[i] == a[i + 1]);
        }
        assert forall|i: int| 0 <= i < rb.len() implies 0 <= #[trigger] rb[i] < 9 by {
            assert(rb[i] == b[i + 1]);
        }
        lemma_code_bound(ra);
        lemma_code_bound(rb);
        let x = a[0] as int;
        let y = b[0] as int;
        let cx = state_code(ra);
        let cy = state_code(rb);
        assert(x == y && cx == cy) by (nonlinear_arith)
            requires
                0 <= x < 9,
                0 <= y < 9,
                0 <= cx,
                0 <= cy,
                x + 9 * cx == y + 9 * cy,
        ;
        lemma_code_injective(ra, rb);
        assert(a =~= seq![a[0]] + ra);
        assert(b =~= seq![b[0]] + rb);
    }
}

/// Pairwise distinct boards with values in range are at most `MAX_STATES`.
pub proof fn lemma_distinct_states_bound(states: Seq<Seq<i8>>)
    requires
        forall|k: int| 0 <= k < states.len() ==> cells_in_range(#[trigger] states[k]),
        forall|k: int, l: int| 0 <= k < l < states.len() ==> states[k] != states[l],
    ensures
        states.len() <= MAX_STATES,
{
    let codes = states.map_values(|s: Seq<i8>| state_code(s));
    assert forall|k: int, l: int| 0 <= k < codes.len() && 0 <= l < codes.len() && k != l
        implies codes[k] != codes[l] by {
        if codes[k] == codes[l] {
            lemma_code_injective(states[k], states[l]);
            if k < l {
                assert(states[k] != states[l]);
            } else {
                assert(states[l] != states[k]);
            }
        }
    }
    assert(codes.no_duplicates());
    codes.unique_seq_to_set();
    reveal_with_fuel(pow9, 10);
    assert(pow9(9) == 387420489);
    assert forall|c: int| codes.to_set().contains(c) implies set_int_range(0, pow9(9)).contains(c) by {
        let k = choose|k: int| 0 <= k < codes.len() && codes[k] == c;
        lemma_code_bound(states[k]);
    }
    lemma_int_range(0, pow9(9));
    lemma_len_subset(codes.to_set(), set_int_range(0, pow9(9)));
}

} // verus!
