use vstd::prelude::*;

use crate::constants::{MOVABLE_PIECE, PUZZLE_SIZE, TOTAL_PUZZLE_SIZE};
use crate::direction::Direction;
use crate::state::{
    apply_move, blank_position, cells_in_range, goal_state, has_blank, lemma_blank_position,
    lemma_first_blank, lemma_manhattan_bound, manhattan, manhattan_of, opposite, swap_cells, target,
    tile_cost,
};
use crate::utils::is_goal;

verus! {

/// One board reached by the search, with its cost and the link to the node
/// it was generated from (an index into the search's arena).
#[derive(Clone, Copy, Debug)]
pub struct Node {
    pub puzzle_state: [i8; TOTAL_PUZZLE_SIZE],
    /// Moves from the root (the g-cost).
    pub length: i32,
    /// Manhattan distance from the goal (the h-cost).
    pub distance: i32,
    /// `length + distance` (the f-cost).
    pub value: i32,
    pub direction: Direction,
    pub parent_node: Option<usize>,
    /// Whether the move that produced this node stayed on the board.
    pub is_movable: bool,
    pub is_ending_node: bool,
}

/// The directions tried for the children of a node reached by `d`: every
/// direction but the one that undoes `d`.
pub open spec fn tried_directions(d: Direction) -> Seq<Direction> {
    match d {
        Direction::Left => seq![Direction::Left, Direction::Up, Direction::Down],
        Direction::Right => seq![Direction::Right, Direction::Up, Direction::Down],
        Direction::Up => seq![Direction::Left, Direction::Right, Direction::Up],
        Direction::Down => seq![Direction::Left, Direction::Right, Direction::Down],
        Direction::NoMove => seq![Direction::Left, Direction::Right, Direction::Up, Direction::Down],
    }
}

/// The tried directions whose move stays on the board `s`, in order.
pub open spec fn legal_directions(s: Seq<i8>, d: Direction) -> Seq<Direction> {
    tried_directions(d).filter(|x: Direction| apply_move(s, x) is Some)
}

/// A board that a node may hold: cells in range and a blank among them.
pub open spec fn node_board(s: Seq<i8>) -> bool {
    cells_in_range(s) && has_blank(s)
}

/// `c` is the candidate made from `parent` (stored at `index`) by moving the
/// blank in direction `d`.
pub open spec fn is_child(parent: Node, index: usize, d: Direction, c: Node) -> bool {
    &&& c.direction == d
    &&& c.parent_node == Some(index)
    &&& c.length == parent.length + 1
    &&& match apply_move(parent.puzzle_state@, d) {
        Some(t) => {
            &&& c.is_movable
            &&& c.puzzle_state@ == t
            &&& c.distance == manhattan_of(t)
            &&& c.value == c.length + c.distance
        },
        Option::None => {
            &&& !c.is_movable
            &&& c.puzzle_state@ == parent.puzzle_state@
            &&& c.distance == 0
            &&& c.value == 0
        },
    }
    &&& c.is_ending_node == (c.puzzle_state@ == goal_state())
}

/// A move that stays on the board keeps the cells in range and the blank.
pub proof fn lemma_move_keeps_board(s: Seq<i8>, d: Direction)
    requires
        node_board(s),
        apply_move(s, d) is Some,
    ensures
        node_board(apply_move(s, d).unwrap()),
{
    let i = choose|i: int| 0 <= i < s.len() && s[i] == 0;
    lemma_first_blank(s, i);
    let p = blank_position(s);
    let t = target(p, d).unwrap();
    let n = swap_cells(s, p, t);
    assert(0 <= t < 9);
    assert(n[t] == 0);
    assert forall|k: int| 0 <= k < 9 implies 0 <= #[trigger] n[k] < 9 by {
        if k == t {
        } else if k == p {
        } else {
            assert(n[k] == s[k]);
        }
    }
}

/// Manhattan distance over a prefix only depends on the cells of that prefix.
proof fn lemma_manhattan_step(s: Seq<i8>, n: int)
    requires
        0 <= n,
    ensures
        manhattan(s, n + 1) == manhattan(s, n) + tile_cost(n, s[n] as int),
{
}

/// Filtering a sequence that grew by one element.
proof fn lemma_filter_push(s: Seq<Direction>, x: Direction, f: spec_fn(Direction) -> bool)
    ensures
        s.push(x).filter(f) == (if f(x) { s.filter(f).push(x) } else { s.filter(f) }),
{
    reveal(Seq::filter);
    assert(s.push(x).drop_last() =~= s);
}

/// What a filter keeps was in the sequence.
proof fn lemma_filter_subset(s: Seq<Direction>, f: spec_fn(Direction) -> bool)
    ensures
        forall|i: int| 0 <= i < s.filter(f).len() ==> s.contains(#[trigger] s.filter(f)[i]),
    decreases s.len(),
{
    reveal(Seq::filter);
    if s.len() > 0 {
        let r = s.drop_last();
        lemma_filter_subset(r, f);
        assert(s =~= r.push(s.last()));
        lemma_filter_push(r, s.last(), f);
        assert forall|i: int| 0 <= i < s.filter(f).len() implies s.contains(#[trigger] s.filter(f)[i]) by {
            if i < r.filter(f).len() {
                let j = choose|j: int| 0 <= j < r.len() && r[j] == r.filter(f)[i];
                assert(s[j] == r[j]);
            } else {
                assert(s[s.len() - 1] == s.last());
            }
        }
    }
}

/// The children of a node reached by moving in direction `d` never move in
/// the opposite direction, which would undo that move.
pub proof fn lemma_no_immediate_reversal(s: Seq<i8>, d: Direction)
    requires
        d != Direction::NoMove,
    ensures
        forall|k: int|
            0 <= k < legal_directions(s, d).len() ==> #[trigger] legal_directions(s, d)[k]
                != opposite(d),
{
    let f = |x: Direction| apply_move(s, x) is Some;
    lemma_filter_subset(tried_directions(d), f);
    assert forall|k: int| 0 <= k < legal_directions(s, d).len() implies #[trigger] legal_directions(
        s,
        d,
    )[k] != opposite(d) by {
        let x = legal_directions(s, d)[k];
        assert(tried_directions(d).contains(x));
        let j = choose|j: int| 0 <= j < tried_directions(d).len() && tried_directions(d)[j] == x;
        assert(tried_directions(d)[j] != opposite(d));
    }
}

/// Every tried direction whose move stays on the board is among the legal
/// ones, and `NoMove` is never among them.
pub proof fn lemma_legal_directions(s: Seq<i8>, dir: Direction)
    ensures
        forall|d: Direction|
            tried_directions(dir).contains(d) && apply_move(s, d) is Some
                ==> #[trigger] legal_directions(s, dir).contains(d),
        forall|k: int|
            0 <= k < legal_directions(s, dir).len() ==> #[trigger] legal_directions(s, dir)[k]
                != Direction::NoMove,
{
    let f = |x: Direction| apply_move(s, x) is Some;
    let t = tried_directions(dir);
    lemma_filter_subset(t, f);
    assert forall|d: Direction| t.contains(d) && apply_move(s, d) is Some implies #[trigger] legal_directions(
        s,
        dir,
    ).contains(d) by {
        let j = choose|j: int| 0 <= j < t.len() && t[j] == d;
        t.lemma_filter_contains(f, j);
    }
    assert forall|k: int| 0 <= k < legal_directions(s, dir).len() implies #[trigger] legal_directions(
        s,
        dir,
    )[k] != Direction::NoMove by {
        let x = legal_directions(s, dir)[k];
        assert(t.contains(x));
        let j = choose|j: int| 0 <= j < t.len() && t[j] == x;
        assert(t[j] != Direction::NoMove);
    }
}

/// Every direction but `NoMove` and the one that undoes `dir` is tried.
pub proof fn lemma_tried_covers(dir: Direction, d: Direction)
    requires
        d != Direction::NoMove,
        dir == Direction::NoMove || d != opposite(dir),
    ensures
        tried_directions(dir).contains(d),
{
    let t = tried_directions(dir);
    if t[0] == d {
        assert(t.contains(d));
    } else if t[1] == d {
        assert(t.contains(d));
    } else if t[2] == d {
        assert(t.contains(d));
    } else {
        assert(t[3] == d);
        assert(t.contains(d));
    }
}

impl Node {
    /// The root of a search, holding `puzzle_state`.
    pub fn new(puzzle_state: [i8; TOTAL_PUZZLE_SIZE]) -> (r: Node)
        requires
            cells_in_range(puzzle_state@),
        ensures
            r.puzzle_state == puzzle_state,
            r.length == 0,
            r.distance == manhattan_of(puzzle_state@),
            r.value == r.distance,
            r.direction == Direction::NoMove,
            r.parent_node is None,
            !r.is_movable,
            r.is_ending_node == (puzzle_state@ == goal_state()),
    {
        let distance: i32 = Node::manhattan_distance(&puzzle_state);
        let is_ending_node = is_goal(&puzzle_state);
        Node {
            puzzle_state,
            length: 0,
            distance,
            value: distance,
            direction: Direction::NoMove,
            parent_node: None,
            is_movable: false,
            is_ending_node,
        }
    }

    /// A candidate child of `node` (stored at `index`) for direction
    /// `direction`, still holding the parent's board and not yet scored.
    pub fn new_with_parent(node: &Node, index: usize, direction: Direction) -> (r: Node)
        requires
            node.length < i32::MAX,
        ensures
            r.puzzle_state == node.puzzle_state,
            r.length == node.length + 1,
            r.distance == 0,
            r.value == 0,
            r.direction == direction,
            r.parent_node == Some(index),
            !r.is_movable,
            !r.is_ending_node,
    {
        Node {
            puzzle_state: node.puzzle_state,
            length: node.length + 1,
            distance: 0,
            value: 0,
            direction,
            parent_node: Some(index),
            is_movable: false,
            is_ending_node: false,
        }
    }

    /// The sum, over the tiles (the blank left out), of the row and column
    /// offsets between a tile's cell and its cell on the solved board.
    pub fn manhattan_distance(puzzle_state: &[i8; TOTAL_PUZZLE_SIZE]) -> (r: i32)
        requires
            cells_in_range(puzzle_state@),
        ensures
            r == manhattan_of(puzzle_state@),
            0 <= r <= 36,
    {
        let s = puzzle_state;
        let mut distance: i32 = 0;
        let mut num: usize = 0;
        while num < TOTAL_PUZZLE_SIZE
            invariant
                num <= TOTAL_PUZZLE_SIZE,
                s == puzzle_state,
                cells_in_range(s@),
                distance == manhattan(s@, num as int),
            decreases TOTAL_PUZZLE_SIZE - num,
        {
            proof {
                lemma_manhattan_bound(s@, num as int);
                lemma_manhattan_step(s@, num as int);
            }
            let current_num: i8 = s[num];
            let current_num_in_arr: i8 = num as i8;
            if current_num != MOVABLE_PIECE {
                let a: i8 = current_num_in_arr % PUZZLE_SIZE - current_num % PUZZLE_SIZE;
                let b: i8 = current_num_in_arr / PUZZLE_SIZE - current_num / PUZZLE_SIZE;
                let a_abs: i32 = if a < 0 { -(a as i32) } else { a as i32 };
                let b_abs: i32 = if b < 0 { -(b as i32) } else { b as i32 };
                distance = distance + a_abs;
                distance = distance + b_abs;
            }
            num = num + 1;
        }
        proof {
            lemma_manhattan_bound(s@, 9);
        }
        distance
    }

    /// Scores a candidate whose move stayed on the board.
    fn update(&mut self)
        requires
            cells_in_range(old(self).puzzle_state@),
            0 <= old(self).length <= i32::MAX - 36,
        ensures
            final(self).puzzle_state == old(self).puzzle_state,
            final(self).length == old(self).length,
            final(self).direction == old(self).direction,
            final(self).parent_node == old(self).parent_node,
            final(self).is_ending_node == old(self).is_ending_node,
            final(self).distance == manhattan_of(old(self).puzzle_state@),
            final(self).value == final(self).length + final(self).distance,
            final(self).is_movable,
    {
        self.distance = Node::manhattan_distance(&self.puzzle_state);
        self.value = self.distance + self.length;
        self.is_movable = true;
    }

    /// Whether moving the blank at `current_position` in `direction` would
    /// leave the board.
    pub fn is_out_of_bounds(current_position: usize, direction: Direction) -> (r: bool)
        requires
            current_position < TOTAL_PUZZLE_SIZE,
        ensures
            r == (target(current_position as int, direction) is None),
    {
        let mut column: i8 = current_position as i8 % PUZZLE_SIZE;
        let mut row: i8 = current_position as i8 / PUZZLE_SIZE;
        match direction {
            Direction::Left => {
                column = column - 1;
            },
            Direction::Right => {
                column = column + 1;
            },
            Direction::Up => {
                row = row - 1;
            },
            Direction::Down => {
                row = row + 1;
            },
            Direction::NoMove => {},
        }
        column < 0 || column >= PUZZLE_SIZE || row < 0 || row >= PUZZLE_SIZE
    }

    /// The first cell that holds the blank.
    pub fn blank_index(puzzle_state: &[i8; TOTAL_PUZZLE_SIZE]) -> (r: usize)
        requires
            has_blank(puzzle_state@),
        ensures
            r < TOTAL_PUZZLE_SIZE,
            r == blank_position(puzzle_state@),
    {
        let s = puzzle_state;
        let mut i: usize = 0;
        while i < TOTAL_PUZZLE_SIZE
            invariant
                i <= TOTAL_PUZZLE_SIZE,
                s == puzzle_state,
                has_blank(s@),
                forall|k: int| 0 <= k < i ==> s@[k] != 0,
            decreases TOTAL_PUZZLE_SIZE - i,
        {
            if s[i] == MOVABLE_PIECE {
                proof {
                    lemma_blank_position(s@, i as int);
                }
                return i;
            }
            i = i + 1;
        }
        assert(false);
        0
    }

    /// The candidate made by moving the blank of this node (stored at
    /// `index`) in direction `direction`.
    pub fn child(&self, index: usize, direction: Direction) -> (r: Node)
        requires
            node_board(self.puzzle_state@),
            0 <= self.length <= i32::MAX - 37,
        ensures
            is_child(*self, index, direction, r),
    {
        let mut node = Node::new_with_parent(self, index, direction);
        let pos = Node::blank_index(&node.puzzle_state);
        if !Node::is_out_of_bounds(pos, direction) {
            let t: usize = match direction {
                Direction::Left => pos - 1,
                Direction::Right => pos + 1,
                Direction::Up => pos - 3,
                Direction::Down => pos + 3,
                Direction::NoMove => pos,
            };
            let v = node.puzzle_state[t];
            node.puzzle_state[pos] = v;
            node.puzzle_state[t] = MOVABLE_PIECE;
            proof {
                assert(node.puzzle_state@ =~= swap_cells(self.puzzle_state@, pos as int, t as int));
                lemma_move_keeps_board(self.puzzle_state@, direction);
            }
            node.update();
        }
        node.is_ending_node = is_goal(&node.puzzle_state);
        node
    }

    /// The candidate for a move of the blank to the left.
    pub fn left(&self, index: usize) -> (r: Node)
        requires
            node_board(self.puzzle_state@),
            0 <= self.length <= i32::MAX - 37,
        ensures
            is_child(*self, index, Direction::Left, r),
    {
        self.child(index, Direction::Left)
    }

    /// The candidate for a move of the blank to the right.
    pub fn right(&self, index: usize) -> (r: Node)
        requires
            node_board(self.puzzle_state@),
            0 <= self.length <= i32::MAX - 37,
        ensures
            is_child(*self, index, Direction::Right, r),
    {
        self.child(index, Direction::Right)
    }

    /// The candidate for a move of the blank up.
    pub fn up(&self, index: usize) -> (r: Node)
        requires
            node_board(self.puzzle_state@),
            0 <= self.length <= i32::MAX - 37,
        ensures
            is_child(*self, index, Direction::Up, r),
    {
        self.child(index, Direction::Up)
    }

    /// The candidate for a move of the blank down.
    pub fn down(&self, index: usize) -> (r: Node)
        requires
            node_board(self.puzzle_state@),
            0 <= self.length <= i32::MAX - 37,
        ensures
            is_child(*self, index, Direction::Down, r),
    {
        self.child(index, Direction::Down)
    }

    /// The directions tried for the children of this node, in order.
    fn tried(&self) -> (r: Vec<Direction>)
        ensures
            r@ == tried_directions(self.direction),
    {
        let mut r: Vec<Direction> = Vec::new();
        match self.direction {
            Direction::Left => {
                r.push(Direction::Left);
                r.push(Direction::Up);
                r.push(Direction::Down);
            },
            Direction::Right => {
                r.push(Direction::Right);
                r.push(Direction::Up);
                r.push(Direction::Down);
            },
            Direction::Up => {
                r.push(Direction::Left);
                r.push(Direction::Right);
                r.push(Direction::Up);
            },
            Direction::Down => {
                r.push(Direction::Left);
                r.push(Direction::Right);
                r.push(Direction::Down);
            },
            Direction::NoMove => {
                r.push(Direction::Left);
                r.push(Direction::Right);
                r.push(Direction::Up);
                r.push(Direction::Down);
            },
        }
        assert(r@ =~= tried_directions(self.direction));
        r
    }

    /// The children of this node (stored at `index`): one for each tried
    /// direction whose move stays on the board, in the order tried.
    pub fn get_possible_nodes(&self, index: usize) -> (r: Vec<Node>)
        requires
            node_board(self.puzzle_state@),
            0 <= self.length <= i32::MAX - 37,
        ensures
            r@.map_values(|c: Node| c.direction) == legal_directions(
                self.puzzle_state@,
                self.direction,
            ),
            forall|k: int|
                0 <= k < r@.len() ==> is_child(*self, index, r@[k].direction, #[trigger] r@[k])
                    && r@[k].is_movable,
    {
        let ghost f = |x: Direction| apply_move(self.puzzle_state@, x) is Some;
        let dirs = self.tried();
        let mut r: Vec<Node> = Vec::new();
        let mut k: usize = 0;
        while k < dirs.len()
            invariant
                k <= dirs@.len(),
                dirs@ == tried_directions(self.direction),
                node_board(self.puzzle_state@),
                0 <= self.length <= i32::MAX - 37,
                f == (|x: Direction| apply_move(self.puzzle_state@, x) is Some),
                r@.map_values(|c: Node| c.direction) == dirs@.subrange(0, k as int).filter(f),
                forall|j: int|
                    0 <= j < r@.len() ==> is_child(*self, index, r@[j].direction, #[trigger] r@[j])
                        && r@[j].is_movable,
            decreases dirs@.len() - k,
        {
            let d = dirs[k];
            let c = self.child(index, d);
            proof {
                assert(dirs@.subrange(0, k + 1) =~= dirs@.subrange(0, k as int).push(d));
                lemma_filter_push(dirs@.subrange(0, k as int), d, f);
            }
            if c.is_movable {
                let ghost before = r@;
                r.push(c);
                proof {
                    assert(r@.map_values(|c: Node| c.direction) =~= before.map_values(
                        |c: Node| c.direction,
                    ).push(d));
                }
            }
            k = k + 1;
        }
        assert(dirs@.subrange(0, dirs@.len() as int) =~= dirs@);
        r
    }

    /// Whether the node holds the solved board.
    pub fn check_completion(node: &Node) -> (r: bool)
        ensures
            r == (node.puzzle_state@ == goal_state()),
    {
        is_goal(&node.puzzle_state)
    }
}

} // verus!
