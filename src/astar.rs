use vstd::prelude::*;

use crate::constants::TOTAL_PUZZLE_SIZE;
use crate::direction::Direction;
use crate::node::{
    is_child, lemma_legal_directions, lemma_no_immediate_reversal, lemma_tried_covers,
    legal_directions, Node,
};
use crate::solver::{Solve, SolvedState};
use crate::state::{
    apply_move, apply_moves, goal_state, is_valid_state, lemma_distinct_states_bound, lemma_move_back,
    lemma_move_keeps_valid, lemma_no_move, opposite, MAX_STATES,
};
use crate::utils::same_state;

verus! {

/// Best-first (A*) search over an arena of nodes. A node's parent is an
/// index into `nodes`; `open_list` and `closed_list` hold indices too.
pub struct AStar {
    pub nodes: Vec<Node>,
    pub open_list: Vec<usize>,
    pub closed_list: Vec<usize>,
    pub ending_node: Option<Node>,
    pub is_ending_node_reached: bool,
}

/// Some node of `nodes` holds the board `b`.
pub open spec fn holds_board(nodes: Seq<Node>, b: Seq<i8>) -> bool {
    exists|j: int| 0 <= j < nodes.len() && #[trigger] nodes[j].puzzle_state@ == b
}

/// Every board one legal move away from node `i` is held by some node.
pub open spec fn expanded(nodes: Seq<Node>, i: int) -> bool {
    forall|d: Direction|
        #[trigger] apply_move(nodes[i].puzzle_state@, d) is Some ==> holds_board(
            nodes,
            apply_move(nodes[i].puzzle_state@, d).unwrap(),
        )
}

proof fn lemma_holds_grow(old_nodes: Seq<Node>, nodes: Seq<Node>, b: Seq<i8>)
    requires
        old_nodes.len() <= nodes.len(),
        nodes.subrange(0, old_nodes.len() as int) == old_nodes,
        holds_board(old_nodes, b),
    ensures
        holds_board(nodes, b),
{
    let j = choose|j: int| 0 <= j < old_nodes.len() && #[trigger] old_nodes[j].puzzle_state@ == b;
    assert(nodes[j] == nodes.subrange(0, old_nodes.len() as int)[j]);
}

/// `new` is `old` after expanding the open node at position `k` of the open
/// list: the first open node of least score. It moved to the closed list; the
/// nodes appended to the arena are legal, non-goal children of it, each
/// pushed onto the open list in arena order; and a recorded solution is a
/// child of it that holds the solved board.
pub open spec fn expansion_of(old: AStar, new: AStar, k: int) -> bool {
    let o = old.open_list@;
    let x = o[k];
    let parent = old.nodes@[x as int];
    let ol = old.nodes@.len();
    let fl = new.nodes@.len();
    &&& new.closed_list@ == old.closed_list@.push(x)
    &&& forall|j: int| 0 <= j < o.len() ==> parent.value <= old.nodes@[#[trigger] o[j] as int].value
    &&& forall|j: int| 0 <= j < k ==> parent.value < old.nodes@[#[trigger] o[j] as int].value
    &&& ol <= fl
    &&& new.nodes@.subrange(0, ol as int) == old.nodes@
    &&& new.open_list@ == o.update(k, o.last()).drop_last() + Seq::new(
        (fl - ol) as nat,
        |j: int| (ol + j) as usize,
    )
    &&& forall|i: int|
        ol <= i < fl ==> is_child(parent, x, new.nodes@[i].direction, #[trigger] new.nodes@[i])
            && new.nodes@[i].is_movable && !new.nodes@[i].is_ending_node
    &&& new.is_ending_node_reached ==> (new.ending_node matches Some(e) && is_child(
        parent,
        x,
        e.direction,
        e,
    ) && e.is_movable && e.is_ending_node)
    &&& forall|m: int|
        0 <= m < legal_directions(parent.puzzle_state@, parent.direction).len() ==> holds_board(
            new.nodes@,
            apply_move(
                parent.puzzle_state@,
                #[trigger] legal_directions(parent.puzzle_state@, parent.direction)[m],
            ).unwrap(),
        ) || (new.ending_node matches Some(e) && exists|g: int|
            0 <= g <= m && #[trigger] legal_directions(parent.puzzle_state@, parent.direction)[g]
                == e.direction)
}

/// Once the children of `parent` have been gone through up to `c`, every
/// legal candidate is held by a node, unless a solution at or before it was
/// recorded.
proof fn lemma_candidates_handled(
    nodes: Seq<Node>,
    ending: Option<Node>,
    parent: Node,
    idx: usize,
    children: Seq<Node>,
    c: int,
)
    requires
        0 <= c <= children.len(),
        children.map_values(|x: Node| x.direction) == legal_directions(
            parent.puzzle_state@,
            parent.direction,
        ),
        forall|j: int|
            0 <= j < children.len() ==> is_child(
                parent,
                idx,
                children[j].direction,
                #[trigger] children[j],
            ) && children[j].is_movable,
        forall|m: int|
            0 <= m < c ==> holds_board(nodes, #[trigger] children[m].puzzle_state@) || ending
                == Some(children[m]),
        ending is Some ==> c > 0 && ending == Some(children[c - 1]),
        ending is None ==> c == children.len(),
    ensures
        forall|m: int|
            0 <= m < legal_directions(parent.puzzle_state@, parent.direction).len() ==> holds_board(
                nodes,
                apply_move(
                    parent.puzzle_state@,
                    #[trigger] legal_directions(parent.puzzle_state@, parent.direction)[m],
                ).unwrap(),
            ) || (ending matches Some(e) && exists|g: int|
                0 <= g <= m && #[trigger] legal_directions(parent.puzzle_state@, parent.direction)[g]
                    == e.direction),
{
    let legal = legal_directions(parent.puzzle_state@, parent.direction);
    assert forall|m: int| 0 <= m < legal.len() implies holds_board(
        nodes,
        apply_move(parent.puzzle_state@, #[trigger] legal[m]).unwrap(),
    ) || (ending matches Some(e) && exists|g: int| 0 <= g <= m && #[trigger] legal[g] == e.direction) by {
        assert(children.map_values(|x: Node| x.direction)[m] == children[m].direction);
        assert(is_child(parent, idx, children[m].direction, children[m]));
        if m < c {
            if ending == Some(children[m]) {
                assert(legal[m] == ending.unwrap().direction);
            }
        } else {
            let g = c - 1;
            assert(children.map_values(|x: Node| x.direction)[g] == children[g].direction);
            assert(legal[g] == ending.unwrap().direction);
        }
    }
}

impl AStar {
    /// The boards of the arena, in the order the nodes were added.
    pub open spec fn boards(&self) -> Seq<Seq<i8>> {
        self.nodes@.map_values(|n: Node| n.puzzle_state@)
    }

    /// The board the search started from.
    pub open spec fn start_state(&self) -> Seq<i8> {
        self.nodes@[0].puzzle_state@
    }

    /// The arena is a tree rooted at index 0 whose edges are legal moves, and
    /// no board occurs in it twice.
    pub open spec fn arena_ok(&self) -> bool {
        let n = self.nodes@;
        &&& n.len() > 0
        &&& n[0].parent_node is None
        &&& n[0].direction == Direction::NoMove
        &&& forall|i: int|
            0 <= i < n.len() ==> is_valid_state(#[trigger] n[i].puzzle_state@) && 0 <= n[i].length <= i
        &&& forall|i: int| 0 < i < n.len() ==> #[trigger] n[i].direction != Direction::NoMove
        &&& forall|i: int|
            0 < i < n.len() ==> (#[trigger] n[i].parent_node matches Some(p) && p < i
                && apply_move(n[p as int].puzzle_state@, n[i].direction) == Some(n[i].puzzle_state@)
                && n[i].direction != opposite(n[p as int].direction))
        &&& forall|i: int, j: int|
            0 <= i < j < n.len() ==> n[i].puzzle_state@ != n[j].puzzle_state@
    }

    /// Every node of the arena is either open or closed, and only once.
    pub open spec fn lists_ok(&self) -> bool {
        let o = self.open_list@;
        let c = self.closed_list@;
        let len = self.nodes@.len();
        &&& o.len() + c.len() == len
        &&& forall|k: int| 0 <= k < o.len() ==> #[trigger] o[k] < len
        &&& forall|k: int| 0 <= k < c.len() ==> #[trigger] c[k] < len
        &&& forall|a: int, b: int| 0 <= a < b < o.len() ==> o[a] != o[b]
        &&& forall|a: int, b: int| 0 <= a < b < c.len() ==> c[a] != c[b]
        &&& forall|a: int, b: int| 0 <= a < o.len() && 0 <= b < c.len() ==> o[a] != c[b]
        &&& forall|i: usize|
            #![trigger o.contains(i)]
            #![trigger c.contains(i)]
            i < len ==> o.contains(i) || c.contains(i)
    }

    /// The recorded solution, if any, holds the solved board and hangs off
    /// the arena by a legal move (or is the root itself).
    pub open spec fn ending_ok(&self) -> bool {
        &&& self.is_ending_node_reached == self.ending_node is Some
        &&& self.ending_node matches Some(e) ==> {
            &&& e.puzzle_state@ == goal_state()
            &&& match e.parent_node {
                Some(p) => p < self.nodes@.len() && apply_move(
                    self.nodes@[p as int].puzzle_state@,
                    e.direction,
                ) == Some(e.puzzle_state@) && e.direction != Direction::NoMove && e.direction
                    != opposite(self.nodes@[p as int].direction),
                Option::None => e.puzzle_state@ == self.start_state(),
            }
        }
    }

    /// While no solution is recorded, no node holds the solved board.
    pub open spec fn no_goal_ok(&self) -> bool {
        !self.is_ending_node_reached ==> forall|j: int|
            0 <= j < self.nodes@.len() ==> #[trigger] self.nodes@[j].puzzle_state@ != goal_state()
    }

    /// While no solution is recorded, every board one legal move away from a
    /// closed node is held by some node.
    pub open spec fn closure_ok(&self) -> bool {
        !self.is_ending_node_reached ==> forall|a: int|
            0 <= a < self.closed_list@.len() ==> expanded(
                self.nodes@,
                #[trigger] self.closed_list@[a] as int,
            )
    }

    pub open spec fn wf(&self) -> bool {
        self.arena_ok() && self.lists_ok() && self.ending_ok() && self.no_goal_ok() && self.closure_ok()
    }

    /// No board is both open and closed, and no board has been closed
    /// (expanded) twice.
    pub open spec fn no_duplicate_expansion(&self) -> bool {
        let o = self.open_list@;
        let c = self.closed_list@;
        let n = self.nodes@;
        &&& forall|a: int, b: int|
            0 <= a < o.len() && 0 <= b < c.len() ==> n[o[a] as int].puzzle_state@ != n[c[b] as int].puzzle_state@
        &&& forall|a: int, b: int|
            0 <= a < b < c.len() ==> n[c[a] as int].puzzle_state@ != n[c[b] as int].puzzle_state@
    }

    /// In every well-formed search state no board is both open and closed,
    /// and none has been expanded more than once.
    pub proof fn lemma_no_duplicate_expansion(&self)
        requires
            self.wf(),
        ensures
            self.no_duplicate_expansion(),
    {
        let o = self.open_list@;
        let c = self.closed_list@;
        let n = self.nodes@;
        assert forall|a: int, b: int| 0 <= a < o.len() && 0 <= b < c.len() implies n[o[a] as int].puzzle_state@
            != n[c[b] as int].puzzle_state@ by {
            assert(o[a] < n.len() && c[b] < n.len());
            if o[a] < c[b] {
            } else {
                assert(o[a] != c[b]);
            }
        }
        assert forall|a: int, b: int| 0 <= a < b < c.len() implies n[c[a] as int].puzzle_state@
            != n[c[b] as int].puzzle_state@ by {
            assert(c[a] < n.len() && c[b] < n.len());
            assert(c[a] != c[b]);
        }
    }

    /// The arena never holds more nodes than there are boards.
    pub proof fn lemma_arena_bound(&self)
        requires
            self.arena_ok(),
        ensures
            self.nodes@.len() <= MAX_STATES,
    {
        let b = self.boards();
        assert forall|k: int| 0 <= k < b.len() implies crate::state::cells_in_range(#[trigger] b[k]) by {
            assert(is_valid_state(self.nodes@[k].puzzle_state@));
        }
        assert forall|k: int, l: int| 0 <= k < l < b.len() implies b[k] != b[l] by {
            assert(self.nodes@[k].puzzle_state@ != self.nodes@[l].puzzle_state@);
        }
        lemma_distinct_states_bound(b);
    }

    /// When the open list has run out with no solution recorded, no sequence
    /// of moves leads from a board held by a node to the solved board.
    pub proof fn lemma_unreachable(&self, b: Seq<i8>, ms: Seq<Direction>)
        requires
            self.wf(),
            !self.is_ending_node_reached,
            self.open_list@.len() == 0,
            holds_board(self.nodes@, b),
        ensures
            apply_moves(b, ms) != Some(goal_state()),
        decreases ms.len(),
    {
        let n = self.nodes@;
        let j = choose|j: int| 0 <= j < n.len() && #[trigger] n[j].puzzle_state@ == b;
        self.lemma_arena_bound();
        if ms.len() > 0 {
            match apply_move(b, ms[0]) {
                Some(t) => {
                    assert(self.closed_list@.contains(j as usize) || self.open_list@.contains(
                        j as usize,
                    ));
                    assert(!self.open_list@.contains(j as usize));
                    let a = choose|a: int|
                        0 <= a < self.closed_list@.len() && self.closed_list@[a] == j as usize;
                    assert(self.closed_list@[a] as int == j);
                    assert(expanded(n, j));
                    assert(apply_move(n[j].puzzle_state@, ms[0]) is Some);
                    assert(holds_board(n, t));
                    self.lemma_unreachable(t, ms.drop_first());
                },
                Option::None => {},
            }
        }
    }

    /// A search that has not started.
    pub fn new() -> (r: AStar)
        ensures
            r.nodes@.len() == 0,
            r.open_list@.len() == 0,
            r.closed_list@.len() == 0,
            r.ending_node is None,
            !r.is_ending_node_reached,
    {
        AStar {
            nodes: Vec::new(),
            open_list: Vec::new(),
            closed_list: Vec::new(),
            ending_node: None,
            is_ending_node_reached: false,
        }
    }

    /// Resets the search to a single open root holding `puzzle_state`; the
    /// root is the solution at once when it is the solved board.
    pub fn start(&mut self, puzzle_state: [i8; TOTAL_PUZZLE_SIZE])
        requires
            is_valid_state(puzzle_state@),
        ensures
            final(self).wf(),
            final(self).start_state() == puzzle_state@,
            final(self).nodes@.len() == 1,
            final(self).closed_list@.len() == 0,
            final(self).is_ending_node_reached == (puzzle_state@ == goal_state()),
            final(self).ending_node matches Some(e) ==> e.parent_node is None,
    {
        let root = Node::new(puzzle_state);
        self.nodes = Vec::new();
        self.nodes.push(root);
        self.open_list = Vec::new();
        self.open_list.push(0);
        self.closed_list = Vec::new();
        if root.is_ending_node {
            self.ending_node = Some(root);
            self.is_ending_node_reached = true;
        } else {
            self.ending_node = None;
            self.is_ending_node_reached = false;
        }
        assert(self.open_list@[0] == 0usize);
    }

    /// The position in `open_list` of the first open node of least score.
    pub fn min_index(&self) -> (r: usize)
        requires
            self.open_list@.len() > 0,
            self.lists_ok(),
        ensures
            r < self.open_list@.len(),
            forall|k: int|
                0 <= k < self.open_list@.len() ==> self.nodes@[self.open_list@[r as int] as int].value
                    <= self.nodes@[#[trigger] self.open_list@[k] as int].value,
            forall|k: int|
                0 <= k < r ==> self.nodes@[self.open_list@[r as int] as int].value
                    < self.nodes@[#[trigger] self.open_list@[k] as int].value,
    {
        let mut best: usize = 0;
        let mut k: usize = 1;
        while k < self.open_list.len()
            invariant
                self.lists_ok(),
                1 <= k <= self.open_list@.len(),
                best < k,
                forall|j: int|
                    0 <= j < k ==> self.nodes@[self.open_list@[best as int] as int].value
                        <= self.nodes@[#[trigger] self.open_list@[j] as int].value,
                forall|j: int|
                    0 <= j < best ==> self.nodes@[self.open_list@[best as int] as int].value
                        < self.nodes@[#[trigger] self.open_list@[j] as int].value,
            decreases self.open_list@.len() - k,
        {
            if self.nodes[self.open_list[k]].value < self.nodes[self.open_list[best]].value {
                best = k;
            }
            k = k + 1;
        }
        best
    }

    /// Whether an open or a closed node holds the board `s`.
    pub fn contains_state(&self, s: &[i8; TOTAL_PUZZLE_SIZE]) -> (r: bool)
        requires
            self.lists_ok(),
        ensures
            r == ((exists|k: int|
                0 <= k < self.open_list@.len() && self.nodes@[#[trigger] self.open_list@[k] as int].puzzle_state@
                    == s@) || (exists|k: int|
                0 <= k < self.closed_list@.len() && self.nodes@[#[trigger] self.closed_list@[k] as int].puzzle_state@
                    == s@)),
    {
        let mut k: usize = 0;
        while k < self.open_list.len()
            invariant
                self.lists_ok(),
                k <= self.open_list@.len(),
                forall|j: int|
                    0 <= j < k ==> self.nodes@[#[trigger] self.open_list@[j] as int].puzzle_state@ != s@,
            decreases self.open_list@.len() - k,
        {
            if same_state(&self.nodes[self.open_list[k]].puzzle_state, s) {
                return true;
            }
            k = k + 1;
        }
        let mut k: usize = 0;
        while k < self.closed_list.len()
            invariant
                self.lists_ok(),
                k <= self.closed_list@.len(),
                forall|j: int|
                    0 <= j < self.open_list@.len() ==> self.nodes@[#[trigger] self.open_list@[j] as int].puzzle_state@
                        != s@,
                forall|j: int|
                    0 <= j < k ==> self.nodes@[#[trigger] self.closed_list@[j] as int].puzzle_state@ != s@,
            decreases self.closed_list@.len() - k,
        {
            if same_state(&self.nodes[self.closed_list[k]].puzzle_state, s) {
                return true;
            }
            k = k + 1;
        }
        false
    }
    /// Expands the first open node of least score: it moves to the closed
    /// list, and each of its children in turn either ends the search (it
    /// holds the solved board) or, when no open or closed node holds its
    /// board, joins the open list. Children after a solution are dropped.
    #[verifier::spinoff_prover]
    pub fn step(&mut self)
        requires
            old(self).wf(),
            !old(self).is_ending_node_reached,
            old(self).open_list@.len() > 0,
        ensures
            final(self).wf(),
            final(self).start_state() == old(self).start_state(),
            final(self).nodes@.len() >= old(self).nodes@.len(),
            final(self).nodes@.subrange(0, old(self).nodes@.len() as int) == old(self).nodes@,
            exists|k: int|
                0 <= k < old(self).open_list@.len() && #[trigger] expansion_of(
                    *old(self),
                    *final(self),
                    k,
                ),
    {
        let ghost o = self.open_list@;
        let ghost cl = self.closed_list@;
        let ghost n0 = self.nodes@;
        proof {
            self.lemma_arena_bound();
        }
        let k = self.min_index();
        let idx = self.open_list.swap_remove(k);
        self.closed_list.push(idx);
        let ghost o2 = self.open_list@;
        proof {
            let o2 = self.open_list@;
            let len = n0.len();
            assert(o2.len() == o.len() - 1);
            assert forall|a: int| 0 <= a < o2.len() implies #[trigger] o2[a] != idx && (a == k
                ==> o2[a] == o[o.len() - 1]) && (a != k ==> o2[a] == o[a]) by {
                if a == k {
                    assert(o2[a] == o[o.len() - 1]);
                } else {
                    assert(o2[a] == o[a]);
                }
            }
            assert forall|i: usize| i < len implies #[trigger] o2.contains(i) || self.closed_list@.contains(i) by {
                if cl.contains(i) {
                    let b = choose|b: int| 0 <= b < cl.len() && cl[b] == i;
                    assert(self.closed_list@[b] == i);
                } else {
                    assert(o.contains(i));
                    let j = choose|j: int| 0 <= j < o.len() && o[j] == i;
                    if j == k {
                        assert(self.closed_list@[cl.len() as int] == i);
                    } else if j == o.len() - 1 {
                        assert(o2[k as int] == i);
                    } else {
                        assert(o2[j] == i);
                    }
                }
            }
            assert forall|a: int, b: int| 0 <= a < b < o2.len() implies o2[a] != o2[b] by {
                if a == k {
                    assert(o[o.len() - 1] != o[b]);
                } else if b == k {
                    assert(o[a] != o[o.len() - 1]);
                } else {
                    assert(o[a] != o[b]);
                }
            }
            assert forall|a: int, b: int|
                0 <= a < o2.len() && 0 <= b < self.closed_list@.len() implies o2[a]
                != self.closed_list@[b] by {
                if b < cl.len() {
                    if a == k {
                        assert(o[o.len() - 1] != cl[b]);
                    } else {
                        assert(o[a] != cl[b]);
                    }
                }
            }
            assert forall|a: int, b: int|
                0 <= a < b < self.closed_list@.len() implies self.closed_list@[a]
                != self.closed_list@[b] by {
                if b < cl.len() {
                    assert(cl[a] != cl[b]);
                } else {
                    assert(o[k as int] != cl[a]);
                }
            }
            assert forall|b: int| 0 <= b < self.closed_list@.len() implies #[trigger] self.closed_list@[b] < len by {
                if b < cl.len() {
                    assert(cl[b] < len);
                }
            }
            assert(self.lists_ok());
        }
        let parent = self.nodes[idx];
        let children = parent.get_possible_nodes(idx);
        let ghost closed_after = self.closed_list@;
        proof {
            assert forall|a: int| 0 <= a < cl.len() implies expanded(n0, #[trigger] cl[a] as int) by {
                assert(old(self).closed_list@[a] == cl[a]);
            }
        }
        let mut c: usize = 0;
        while c < children.len() && !self.is_ending_node_reached
            invariant
                self.arena_ok(),
                self.lists_ok(),
                self.ending_ok(),
                self.no_goal_ok(),
                forall|a: int| 0 <= a < cl.len() ==> expanded(n0, #[trigger] cl[a] as int),
                forall|m: int|
                    0 <= m < c ==> holds_board(self.nodes@, #[trigger] children@[m].puzzle_state@)
                        || self.ending_node == Some(children@[m]),
                self.is_ending_node_reached ==> c > 0 && self.ending_node == Some(children@[c - 1]),
                children@.map_values(|x: Node| x.direction) == legal_directions(
                    parent.puzzle_state@,
                    parent.direction,
                ),
                c <= children@.len(),
                o2 == o.update(k as int, o.last()).drop_last(),
                self.open_list@ == o2 + Seq::new(
                    (self.nodes@.len() - n0.len()) as nat,
                    |j: int| (n0.len() + j) as usize,
                ),
                forall|i: int|
                    n0.len() <= i < self.nodes@.len() ==> is_child(
                        parent,
                        idx,
                        self.nodes@[i].direction,
                        #[trigger] self.nodes@[i],
                    ) && self.nodes@[i].is_movable && !self.nodes@[i].is_ending_node,
                self.is_ending_node_reached ==> (self.ending_node matches Some(e) && is_child(
                    parent,
                    idx,
                    e.direction,
                    e,
                ) && e.is_movable && e.is_ending_node),
                idx < n0.len(),
                self.nodes@.len() >= n0.len(),
                self.nodes@.subrange(0, n0.len() as int) == n0,
                self.closed_list@ == closed_after,
                closed_after == cl.push(idx),
                idx == o[k as int],
                parent == n0[idx as int],
                forall|j: int|
                    0 <= j < children@.len() ==> is_child(
                        parent,
                        idx,
                        children@[j].direction,
                        #[trigger] children@[j],
                    ) && children@[j].is_movable,
            decreases children@.len() - c,
        {
            let child = children[c];
            let ghost len = self.nodes@.len();
            proof {
                assert(self.nodes@[idx as int] == n0[idx as int]);
                assert(is_child(parent, idx, child.direction, child) && child.is_movable);
                assert(is_valid_state(parent.puzzle_state@));
                lemma_move_keeps_valid(parent.puzzle_state@, child.direction);
                lemma_legal_directions(parent.puzzle_state@, parent.direction);
                assert(children@.map_values(|x: Node| x.direction)[c as int] == child.direction);
                assert(child.direction != Direction::NoMove);
                if parent.direction != Direction::NoMove {
                    lemma_no_immediate_reversal(parent.puzzle_state@, parent.direction);
                    assert(legal_directions(parent.puzzle_state@, parent.direction)[c as int]
                        == child.direction);
                }
                assert(child.direction != opposite(parent.direction));
            }
            if child.is_ending_node {
                self.ending_node = Some(child);
                self.is_ending_node_reached = true;
            } else if self.contains_state(&child.puzzle_state) {
                proof {
                    let nn = self.nodes@;
                    if exists|a: int|
                        0 <= a < self.open_list@.len() && nn[#[trigger] self.open_list@[a] as int].puzzle_state@
                            == child.puzzle_state@ {
                        let a = choose|a: int|
                            0 <= a < self.open_list@.len() && nn[#[trigger] self.open_list@[a] as int].puzzle_state@
                                == child.puzzle_state@;
                        assert(self.open_list@[a] < nn.len());
                        assert(holds_board(nn, nn[self.open_list@[a] as int].puzzle_state@));
                    } else {
                        let a = choose|a: int|
                            0 <= a < self.closed_list@.len() && nn[#[trigger] self.closed_list@[a] as int].puzzle_state@
                                == child.puzzle_state@;
                        assert(self.closed_list@[a] < nn.len());
                        assert(holds_board(nn, nn[self.closed_list@[a] as int].puzzle_state@));
                    }
                    assert(children@[c as int] == child);
                }
            } else {
                let ghost before = *self;
                self.nodes.push(child);
                self.open_list.push(self.nodes.len() - 1);
                proof {
                    assert(self.open_list@ =~= o2 + Seq::new(
                        (self.nodes@.len() - n0.len()) as nat,
                        |j: int| (n0.len() + j) as usize,
                    ));
                }
                proof {
                    let nn = self.nodes@;
                    assert(nn[len as int] == child);
                    assert forall|i: int| 0 <= i < len implies nn[i] == before.nodes@[i] by {}
                    assert forall|i: int| 0 <= i < len implies #[trigger] nn[i].puzzle_state@
                        != child.puzzle_state@ by {
                        assert(before.open_list@.contains(i as usize) || before.closed_list@.contains(
                            i as usize,
                        ));
                        if before.open_list@.contains(i as usize) {
                            let a = choose|a: int| 0 <= a < before.open_list@.len() && before.open_list@[a] == i as usize;
                            assert(before.nodes@[before.open_list@[a] as int].puzzle_state@ != child.puzzle_state@);
                        } else {
                            let a = choose|a: int| 0 <= a < before.closed_list@.len() && before.closed_list@[a] == i as usize;
                            assert(before.nodes@[before.closed_list@[a] as int].puzzle_state@ != child.puzzle_state@);
                        }
                    }
                    assert(nn.subrange(0, n0.len() as int) =~= n0) by {
                        assert(before.nodes@.subrange(0, n0.len() as int) == n0);
                    }
                    let on = self.open_list@;
                    assert forall|i: usize| i < nn.len() implies #[trigger] on.contains(i)
                        || self.closed_list@.contains(i) by {
                        if i == len {
                            assert(on[on.len() - 1] == i);
                        } else if before.open_list@.contains(i) {
                            let a = choose|a: int| 0 <= a < before.open_list@.len() && before.open_list@[a] == i;
                            assert(on[a] == i);
                        }
                    }
                    assert forall|a: int| 0 <= a < on.len() implies #[trigger] on[a] < nn.len() by {
                        if a < before.open_list@.len() {
                            assert(on[a] == before.open_list@[a]);
                        }
                    }
                    assert forall|a: int, b: int| 0 <= a < b < on.len() implies on[a] != on[b] by {
                        if b < before.open_list@.len() {
                            assert(before.open_list@[a] != before.open_list@[b]);
                        } else {
                            assert(before.open_list@[a] < len);
                        }
                    }
                    assert forall|a: int, b: int|
                        0 <= a < on.len() && 0 <= b < self.closed_list@.len() implies on[a]
                        != self.closed_list@[b] by {
                        if a < before.open_list@.len() {
                            assert(before.open_list@[a] != before.closed_list@[b]);
                        } else {
                            assert(before.closed_list@[b] < len);
                        }
                    }
                    assert(self.lists_ok());
                    assert forall|i: int| 0 < i < nn.len() implies (#[trigger] nn[i].parent_node matches Some(
                        p,
                    ) && p < i && apply_move(nn[p as int].puzzle_state@, nn[i].direction) == Some(
                        nn[i].puzzle_state@,
                    ) && nn[i].direction != opposite(nn[p as int].direction)) by {
                        if i < len {
                            assert(before.nodes@[i] == nn[i]);
                            let p = nn[i].parent_node.unwrap();
                            assert(before.nodes@[p as int] == nn[p as int]);
                        } else {
                            assert(nn[idx as int] == parent);
                        }
                    }
                    assert forall|i: int, j: int| 0 <= i < j < nn.len() implies nn[i].puzzle_state@
                        != nn[j].puzzle_state@ by {
                        if j < len {
                            assert(before.nodes@[i].puzzle_state@ != before.nodes@[j].puzzle_state@);
                        }
                    }
                    assert(self.arena_ok());
                    assert forall|m: int| 0 <= m <= c implies holds_board(
                        nn,
                        #[trigger] children@[m].puzzle_state@,
                    ) by {
                        if m < c {
                            assert(nn.subrange(0, len as int) =~= before.nodes@);
                            lemma_holds_grow(before.nodes@, nn, children@[m].puzzle_state@);
                        } else {
                            assert(nn[len as int].puzzle_state@ == children@[m].puzzle_state@);
                        }
                    }
                }
            }
            c = c + 1;
        }
        proof {
            if !self.is_ending_node_reached {
                let nn = self.nodes@;
                let ps = parent.puzzle_state@;
                let legal = legal_directions(ps, parent.direction);
                assert(nn[idx as int] == parent);
                lemma_legal_directions(ps, parent.direction);
                assert forall|a: int| 0 <= a < self.closed_list@.len() implies expanded(
                    nn,
                    #[trigger] self.closed_list@[a] as int,
                ) by {
                    if a < cl.len() {
                        let i = cl[a] as int;
                        assert(nn[i] == n0[i]);
                        assert(expanded(n0, i));
                        assert forall|d: Direction| #[trigger] apply_move(nn[i].puzzle_state@, d) is Some implies holds_board(
                            nn,
                            apply_move(nn[i].puzzle_state@, d).unwrap(),
                        ) by {
                            lemma_holds_grow(n0, nn, apply_move(n0[i].puzzle_state@, d).unwrap());
                        }
                    } else {
                        assert(self.closed_list@[a] == idx);
                        assert forall|d: Direction| #[trigger] apply_move(nn[idx as int].puzzle_state@, d) is Some implies holds_board(
                            nn,
                            apply_move(nn[idx as int].puzzle_state@, d).unwrap(),
                        ) by {
                            let b = apply_move(ps, d).unwrap();
                            if d == Direction::NoMove {
                                lemma_no_move(ps);
                                assert(nn[idx as int].puzzle_state@ == b);
                            } else if parent.direction != Direction::NoMove && d == opposite(parent.direction) {
                                assert(idx > 0);
                                let q = nn[idx as int].parent_node.unwrap();
                                lemma_move_back(nn[q as int].puzzle_state@, parent.direction);
                                assert(nn[q as int].puzzle_state@ == b);
                            } else {
                                lemma_tried_covers(parent.direction, d);
                                assert(legal.contains(d));
                                let m = choose|m: int| 0 <= m < legal.len() && legal[m] == d;
                                assert(children@.map_values(|x: Node| x.direction)[m] == children@[m].direction);
                                assert(is_child(parent, idx, d, children@[m]) && children@[m].is_movable);
                                assert(holds_board(nn, children@[m].puzzle_state@));
                            }
                        }
                    }
                }
            }
        }
        proof {
            assert(o[k as int] == idx);
            lemma_candidates_handled(self.nodes@, self.ending_node, parent, idx, children@, c as int);
            assert(expansion_of(*old(self), *self, k as int));
        }
    }

    /// The moves from the root to the recorded solution, in order.
    pub fn reconstruct_path(&self) -> (r: Vec<Direction>)
        requires
            self.wf(),
            self.ending_node is Some,
        ensures
            apply_moves(self.start_state(), r@) == Some(self.ending_node.unwrap().puzzle_state@),
            self.ending_node.unwrap().parent_node is None ==> r@.len() == 0,
            forall|k: int| 0 <= k < r@.len() ==> #[trigger] r@[k] != Direction::NoMove,
            forall|k: int| 0 <= k < r@.len() - 1 ==> #[trigger] r@[k + 1] != opposite(r@[k]),
    {
        let e = self.ending_node.unwrap();
        let mut rev: Vec<Direction> = Vec::new();
        let ghost mut path: Seq<Direction> = Seq::empty();
        let mut cur: usize = 0;
        match e.parent_node {
            Some(p) => {
                rev.push(e.direction);
                proof {
                    path = seq![e.direction];
                    assert(path.drop_first() =~= Seq::<Direction>::empty());
                    assert(apply_moves(e.puzzle_state@, Seq::<Direction>::empty()) == Some(
                        e.puzzle_state@,
                    ));
                    assert(apply_moves(self.nodes@[p as int].puzzle_state@, path) == Some(
                        e.puzzle_state@,
                    ));
                }
                cur = p;
            },
            None => {},
        }
        while cur > 0
            invariant
                self.wf(),
                e == self.ending_node.unwrap(),
                cur < self.nodes@.len(),
                apply_moves(self.nodes@[cur as int].puzzle_state@, path) == Some(e.puzzle_state@),
                path.len() == rev@.len(),
                forall|j: int| 0 <= j < rev@.len() ==> #[trigger] rev@[j] == path[path.len() - 1 - j],
                e.parent_node is None ==> rev@.len() == 0 && cur == 0,
                forall|k: int| 0 <= k < path.len() ==> #[trigger] path[k] != Direction::NoMove,
                forall|k: int| 0 <= k < path.len() - 1 ==> #[trigger] path[k + 1] != opposite(path[k]),
                path.len() > 0 ==> path[0] != opposite(self.nodes@[cur as int].direction),
            decreases cur,
        {
            let q: usize = match self.nodes[cur].parent_node {
                Some(q) => q,
                None => 0,
            };
            let d = self.nodes[cur].direction;
            rev.push(d);
            proof {
                assert(self.nodes@[cur as int].parent_node is Some);
                let np = seq![d] + path;
                assert(np.drop_first() =~= path);
                assert(np[0] == d);
                assert(d != Direction::NoMove);
                assert forall|k: int| 0 <= k < np.len() implies #[trigger] np[k] != Direction::NoMove by {
                    if k > 0 {
                        assert(np[k] == path[k - 1]);
                    }
                }
                assert forall|k: int| 0 <= k < np.len() - 1 implies #[trigger] np[k + 1] != opposite(np[k]) by {
                    if k > 0 {
                        assert(np[k] == path[k - 1]);
                        assert(np[k + 1] == path[k]);
                    } else {
                        assert(np[1] == path[0]);
                    }
                }
                assert forall|j: int| 0 <= j < rev@.len() implies #[trigger] rev@[j] == np[np.len() - 1 - j] by {
                    if j < rev@.len() - 1 {
                        assert(rev@[j] == path[path.len() - 1 - j]);
                    }
                }
                path = np;
            }
            cur = q;
        }
        let n = rev.len();
        let mut moves: Vec<Direction> = Vec::new();
        let mut j: usize = 0;
        while j < n
            invariant
                n == rev@.len(),
                path.len() == n,
                j <= n,
                forall|k: int| 0 <= k < rev@.len() ==> #[trigger] rev@[k] == path[path.len() - 1 - k],
                moves@ =~= path.subrange(0, j as int),
                forall|k: int| 0 <= k < path.len() ==> #[trigger] path[k] != Direction::NoMove,
                forall|k: int| 0 <= k < path.len() - 1 ==> #[trigger] path[k + 1] != opposite(path[k]),
            decreases n - j,
        {
            moves.push(rev[n - 1 - j]);
            proof {
                assert(rev@[n - 1 - j] == path[j as int]);
            }
            j = j + 1;
        }
        assert(moves@ =~= path);
        moves
    }
}

impl Default for AStar {
    fn default() -> (r: AStar)
        ensures
            r.nodes@.len() == 0,
            r.open_list@.len() == 0,
            r.closed_list@.len() == 0,
            r.ending_node is None,
            !r.is_ending_node_reached,
    {
        AStar::new()
    }
}

impl Solve for AStar {
    fn solve(&mut self, puzzle_state: &mut [i8; TOTAL_PUZZLE_SIZE]) -> (r: Option<SolvedState>)
        ensures
            final(self).wf(),
            final(self).start_state() == old(puzzle_state)@,
            old(puzzle_state)@ == goal_state() ==> final(self).closed_list@.len() == 0,
            r matches Some(s) ==> forall|k: int|
                0 <= k < s.moves@.len() ==> #[trigger] s.moves@[k] != Direction::NoMove,
            r matches Some(s) ==> forall|k: int|
                0 <= k < s.moves@.len() - 1 ==> #[trigger] s.moves@[k + 1] != opposite(s.moves@[k]),
    {
        let input: [i8; TOTAL_PUZZLE_SIZE] = *puzzle_state;
        self.start(input);
        while !self.is_ending_node_reached && self.open_list.len() > 0
            invariant
                self.wf(),
                self.start_state() == input@,
                input@ == goal_state() ==> (self.ending_node matches Some(e) && e.parent_node is None),
                input@ == goal_state() ==> self.closed_list@.len() == 0,
            decreases MAX_STATES - self.closed_list@.len(),
        {
            proof {
                self.lemma_arena_bound();
            }
            self.step();
            proof {
                self.lemma_arena_bound();
            }
        }
        match self.ending_node {
            Some(e) => {
                let moves = self.reconstruct_path();
                Some(SolvedState::new(e.puzzle_state, moves))
            },
            None => {
                proof {
                    assert(self.open_list@.len() == 0);
                    assert(self.nodes@[0].puzzle_state@ == input@);
                    assert(holds_board(self.nodes@, input@));
                    assert(input@ == old(puzzle_state)@);
                    assert forall|ms: Seq<Direction>| #[trigger] apply_moves(old(puzzle_state)@, ms)
                        != Some(goal_state()) by {
                        self.lemma_unreachable(input@, ms);
                    }
                }
                None
            },
        }
    }
}

} // verus!
