//! The search engine: a score-ordered frontier with lazy deduplication, a
//! breadth-first strategy and the primary best-first strategy. Both return
//! move sequences that provably replay, step by legal step, from the initial
//! board to the returned solved board.

use vstd::prelude::*;
use vstd::pervasive::VecAdditionalExecFns;
use std::collections::HashSet;
use crate::cards::{Board, Card, ColModel, Column, spec_is_solved};
use crate::moves::{
    Move, lemma_replay_snoc, lemma_solved_board_has_no_moves, move_legal, spec_apply,
    spec_prefixes_unsolved, spec_replay,
};

verus! {

broadcast use
    vstd::seq_lib::group_to_multiset_ensures,
    vstd::multiset::group_multiset_axioms;

/// A frontier entry: a reachable board, the move sequence that produced it,
/// and its cached heuristic score.
pub struct Entry {
    pub score: i64,
    pub board: Board,
    pub moves: Vec<Move>,
}

/// The best-first frontier: a binary min-heap of entries, ordered by score
/// with deterministic tie-breaks (fewer moves first, then the boards' and
/// move sequences' own total orders).
pub struct Frontier {
    items: Vec<Entry>,
}

impl View for Frontier {
    type V = Seq<Entry>;

    closed spec fn view(&self) -> Seq<Entry> {
        self.items@
    }
}

/// Three-way comparison of ranks by their position in the total order.
fn cmp_card(a: Card, b: Card) -> i8 {
    let x = a.rank_index();
    let y = b.rank_index();
    if x < y {
        -1
    } else if x == y {
        0
    } else {
        1
    }
}

/// Three-way comparison of optional ranks; an empty slot orders first.
fn cmp_opt_card(a: &Option<Card>, b: &Option<Card>) -> i8 {
    match (a, b) {
        (None, None) => 0,
        (None, Some(_)) => -1,
        (Some(_), None) => 1,
        (Some(x), Some(y)) => cmp_card(*x, *y),
    }
}

/// Lexicographic three-way comparison of card stacks; a strict prefix orders
/// first.
fn cmp_card_vec(a: &Vec<Card>, b: &Vec<Card>) -> i8 {
    let mut i: usize = 0;
    while i < a.len() && i < b.len()
        invariant
            i <= a.len(),
            i <= b.len(),
        decreases a.len() - i,
    {
        let c = cmp_card(a[i], b[i]);
        if c != 0 {
            return c;
        }
        i += 1;
    }
    if a.len() < b.len() {
        -1
    } else if a.len() == b.len() {
        0
    } else {
        1
    }
}

/// Three-way comparison of columns: solved columns order first, unsolved
/// ones by their stacks and then their cheat slots.
fn cmp_column(a: &Column, b: &Column) -> i8 {
    match (a, b) {
        (Column::Solved, Column::Solved) => 0,
        (Column::Solved, Column::Unsolved { .. }) => -1,
        (Column::Unsolved { .. }, Column::Solved) => 1,
        (
            Column::Unsolved { cards: ac, cheat: ah },
            Column::Unsolved { cards: bc, cheat: bh },
        ) => {
            let c = cmp_card_vec(ac, bc);
            if c != 0 {
                c
            } else {
                cmp_opt_card(ah, bh)
            }
        },
    }
}

/// The total order on boards used for deterministic tie-breaking.
fn cmp_board(a: &Board, b: &Board) -> i8 {
    let mut i: usize = 0;
    while i < a.columns.len() && i < b.columns.len()
        invariant
            i <= a.columns.len(),
            i <= b.columns.len(),
        decreases a.columns.len() - i,
    {
        let c = cmp_column(&a.columns[i], &b.columns[i]);
        if c != 0 {
            return c;
        }
        i += 1;
    }
    if a.columns.len() < b.columns.len() {
        -1
    } else if a.columns.len() == b.columns.len() {
        0
    } else {
        1
    }
}

/// Three-way comparison of moves: variant order first (`Normal`, `Cheat`,
/// `UnCheat`), then the column indices and the card count.
fn cmp_move(a: &Move, b: &Move) -> i8 {
    let ka = match a {
        Move::Normal { .. } => 0u8,
        Move::Cheat { .. } => 1u8,
        Move::UnCheat { .. } => 2u8,
    };
    let kb = match b {
        Move::Normal { .. } => 0u8,
        Move::Cheat { .. } => 1u8,
        Move::UnCheat { .. } => 2u8,
    };
    if ka < kb {
        return -1;
    }
    if ka > kb {
        return 1;
    }
    let (af, at, ac) = match a {
        Move::Normal { from, to, count } => (*from, *to, *count),
        Move::Cheat { from, to } => (*from, *to, 0),
        Move::UnCheat { from, to } => (*from, *to, 0),
    };
    let (bf, bt, bc) = match b {
        Move::Normal { from, to, count } => (*from, *to, *count),
        Move::Cheat { from, to } => (*from, *to, 0),
        Move::UnCheat { from, to } => (*from, *to, 0),
    };
    if af < bf {
        -1
    } else if af > bf {
        1
    } else if at < bt {
        -1
    } else if at > bt {
        1
    } else if ac < bc {
        -1
    } else if ac > bc {
        1
    } else {
        0
    }
}

/// Lexicographic three-way comparison of move sequences.
fn cmp_move_vec(a: &Vec<Move>, b: &Vec<Move>) -> i8 {
    let mut i: usize = 0;
    while i < a.len() && i < b.len()
        invariant
            i <= a.len(),
            i <= b.len(),
        decreases a.len() - i,
    {
        let c = cmp_move(&a[i], &b[i]);
        if c != 0 {
            return c;
        }
        i += 1;
    }
    if a.len() < b.len() {
        -1
    } else if a.len() == b.len() {
        0
    } else {
        1
    }
}

/// The heap shape: every entry's score is at least its parent's, so the
/// lowest score sits at the root.
spec fn heap_wf(s: Seq<Entry>) -> bool {
    forall|j: int| 0 < j < s.len() ==> (#[trigger] s[j]).score >= s[(j - 1) / 2].score
}

/// The root of a well-formed heap carries the minimal score.
proof fn lemma_heap_root_min(s: Seq<Entry>, j: int)
    requires
        heap_wf(s),
        0 <= j < s.len(),
    ensures
        s[0].score <= s[j].score,
    decreases j,
{
    if j > 0 {
        lemma_heap_root_min(s, (j - 1) / 2);
    }
}

/// The frontier's removal order: lowest score first; ties broken by fewer
/// moves, then by the larger board and the larger move sequence in their own
/// total orders.
fn entry_before(a: &Entry, b: &Entry) -> (r: bool)
    ensures
        r ==> a.score <= b.score,
        !r ==> b.score <= a.score,
{
    if a.score != b.score {
        return a.score < b.score;
    }
    if a.moves.len() != b.moves.len() {
        return a.moves.len() < b.moves.len();
    }
    let c = cmp_board(&a.board, &b.board);
    if c != 0 {
        return c > 0;
    }
    cmp_move_vec(&a.moves, &b.moves) > 0
}

/// A throwaway entry used as scratch space when swapping heap slots.
fn scratch_entry() -> Entry {
    Entry { score: 0, board: Board { columns: Vec::new() }, moves: Vec::new() }
}

/// Exchanging two slots of a sequence keeps its multiset of elements.
proof fn lemma_swap_preserves_multiset(s: Seq<Entry>, i: int, j: int)
    requires
        0 <= i < s.len(),
        0 <= j < s.len(),
        i != j,
    ensures
        s.update(i, s[j]).update(j, s[i]).to_multiset() == s.to_multiset(),
{
    let s1 = s.update(i, s[j]);
    assert(s1.to_multiset() == s.to_multiset().insert(s[j]).remove(s[i]));
    assert(s1[j] == s[j]);
    assert(s1.update(j, s[i]).to_multiset() == s1.to_multiset().insert(s[i]).remove(s[j]));
    assert(s.contains(s[i]));
    assert(s.contains(s[j]));
    assert(s1.update(j, s[i]).to_multiset() =~= s.to_multiset());
}

/// Swaps two distinct heap slots.
fn swap_items(v: &mut Vec<Entry>, i: usize, j: usize)
    requires
        i < old(v)@.len(),
        j < old(v)@.len(),
        i != j,
    ensures
        final(v)@ == old(v)@.update(i as int, old(v)@[j as int]).update(
            j as int,
            old(v)@[i as int],
        ),
        final(v)@.to_multiset() == old(v)@.to_multiset(),
{
    let mut tmp = scratch_entry();
    v.set_and_swap(i, &mut tmp);
    v.set_and_swap(j, &mut tmp);
    v.set_and_swap(i, &mut tmp);
    proof {
        assert(v@ =~= old(v)@.update(i as int, old(v)@[j as int]).update(
            j as int,
            old(v)@[i as int],
        ));
        lemma_swap_preserves_multiset(old(v)@, i as int, j as int);
    }
}

/// Restores the heap shape upward from a freshly appended last slot; the
/// slots afterwards hold exactly the elements they held before, rearranged.
fn sift_up(v: &mut Vec<Entry>, start: usize)
    requires
        start < old(v)@.len(),
        2 * start + 1 >= old(v)@.len(),
        forall|j: int|
            0 < j < old(v)@.len() && j != start ==> (#[trigger] old(v)@[j]).score >= old(
                v,
            )@[(j - 1) / 2].score,
    ensures
        final(v)@.len() == old(v)@.len(),
        final(v)@.to_multiset() == old(v)@.to_multiset(),
        forall|j: int| 0 <= j < final(v)@.len() ==> old(v)@.contains(#[trigger] final(v)@[j]),
        heap_wf(final(v)@),
{
    let mut i = start;
    while i > 0
        invariant_except_break
            i < v@.len(),
            v@.len() == old(v)@.len(),
            v@.to_multiset() == old(v)@.to_multiset(),
            forall|j: int| 0 <= j < v@.len() ==> old(v)@.contains(#[trigger] v@[j]),
            forall|j: int|
                0 < j < v@.len() && j != i ==> (#[trigger] v@[j]).score >= v@[(j - 1) / 2].score,
            i > 0 ==> forall|j: int|
                0 < j < v@.len() && (j - 1) / 2 == i ==> (#[trigger] v@[j]).score >= v@[(i - 1)
                    / 2].score,
        ensures
            v@.len() == old(v)@.len(),
            v@.to_multiset() == old(v)@.to_multiset(),
            forall|j: int| 0 <= j < v@.len() ==> old(v)@.contains(#[trigger] v@[j]),
            heap_wf(v@),
        decreases i,
    {
        let parent = (i - 1) / 2;
        if entry_before(&v[i], &v[parent]) {
            swap_items(v, i, parent);
            i = parent;
        } else {
            proof {
                assert(heap_wf(v@));
            }
            break;
        }
    }
}

/// Restores the heap shape downward from a freshly replaced root; the slots
/// afterwards hold exactly the elements they held before, rearranged.
fn sift_down(v: &mut Vec<Entry>)
    requires
        forall|j: int|
            0 < j < old(v)@.len() && (j - 1) / 2 != 0 ==> (#[trigger] old(v)@[j]).score >= old(
                v,
            )@[(j - 1) / 2].score,
    ensures
        final(v)@.len() == old(v)@.len(),
        final(v)@.to_multiset() == old(v)@.to_multiset(),
        forall|j: int| 0 <= j < final(v)@.len() ==> old(v)@.contains(#[trigger] final(v)@[j]),
        heap_wf(final(v)@),
{
    let mut i: usize = 0;
    while i < v.len() / 2
        invariant_except_break
            i < v@.len() || v@.len() == 0,
            v@.len() == old(v)@.len(),
            v@.to_multiset() == old(v)@.to_multiset(),
            forall|j: int| 0 <= j < v@.len() ==> old(v)@.contains(#[trigger] v@[j]),
            forall|j: int|
                0 < j < v@.len() && (j - 1) / 2 != i ==> (#[trigger] v@[j]).score >= v@[(j - 1)
                    / 2].score,
            i > 0 ==> forall|j: int|
                0 < j < v@.len() && (j - 1) / 2 == i ==> (#[trigger] v@[j]).score >= v@[(i - 1)
                    / 2].score,
        ensures
            v@.len() == old(v)@.len(),
            v@.to_multiset() == old(v)@.to_multiset(),
            forall|j: int| 0 <= j < v@.len() ==> old(v)@.contains(#[trigger] v@[j]),
            heap_wf(v@),
        decreases v@.len() - i,
    {
        let l = 2 * i + 1;
        let r = l + 1;
        let mut best = l;
        if r < v.len() && entry_before(&v[r], &v[l]) {
            best = r;
        }
        if entry_before(&v[best], &v[i]) {
            swap_items(v, best, i);
            i = best;
        } else {
            proof {
                assert(heap_wf(v@));
            }
            break;
        }
    }
}

impl Frontier {
    /// The frontier's representation invariant: its entries form a score
    /// heap. `new` establishes it and `push` and `pop` preserve it.
    pub closed spec fn wf(&self) -> bool {
        heap_wf(self.items@)
    }

    /// An empty frontier.
    pub fn new() -> (r: Self)
        ensures
            r@.len() == 0,
            r.wf(),
    {
        Frontier { items: Vec::new() }
    }

    /// How many entries are pending.
    pub fn len(&self) -> (r: usize)
        ensures
            r == self@.len(),
    {
        self.items.len()
    }

    /// Adds an entry; afterwards the frontier holds exactly the old entries
    /// plus the new one.
    pub fn push(&mut self, e: Entry)
        requires
            old(self).wf(),
        ensures
            final(self).wf(),
            final(self)@.len() == old(self)@.len() + 1,
            final(self)@.to_multiset() == old(self)@.to_multiset().insert(e),
            forall|j: int|
                0 <= j < final(self)@.len() ==> old(self)@.contains(#[trigger] final(self)@[j])
                    || final(self)@[j] == e,
    {
        let ghost before = self.items@;
        self.items.push(e);
        proof {
            assert(forall|j: int|
                0 <= j < self.items@.len() ==> before.contains(#[trigger] self.items@[j])
                    || self.items@[j] == e);
        }
        let last = self.items.len() - 1;
        sift_up(&mut self.items, last);
    }

    /// Removes one entry of minimal score: `None` exactly on an empty
    /// frontier, otherwise an entry whose score is lowest among all pending
    /// entries, exactly the rest staying put.
    pub fn pop(&mut self) -> (r: Option<Entry>)
        requires
            old(self).wf(),
        ensures
            final(self).wf(),
            old(self)@.len() == 0 ==> r is None && final(self)@ == old(self)@,
            old(self)@.len() > 0 ==> r is Some && final(self)@.len() == old(self)@.len() - 1,
            r matches Some(e) ==> {
                &&& old(self)@.contains(e)
                &&& old(self)@.to_multiset() == final(self)@.to_multiset().insert(e)
                &&& forall|j: int|
                    0 <= j < old(self)@.len() ==> e.score <= (#[trigger] old(self)@[j]).score
            },
            forall|j: int|
                0 <= j < final(self)@.len() ==> old(self)@.contains(#[trigger] final(self)@[j]),
    {
        if self.items.len() == 0 {
            return None;
        }
        let e = self.items.swap_remove(0);
        proof {
            let s = old(self)@;
            assert(s[0] == e);
            assert(s.contains(e));
            assert forall|j: int| 0 <= j < s.len() implies e.score <= (
            #[trigger] s[j]).score by {
                lemma_heap_root_min(s, j);
            }
            // The slots now hold everything but one instance of the root.
            let u = s.update(0, s.last());
            assert(self.items@ =~= u.drop_last());
            assert(u.drop_last() =~= u.remove(u.len() - 1));
            assert(u.to_multiset() == s.to_multiset().insert(s.last()).remove(s[0]));
            assert(self.items@.to_multiset() == u.to_multiset().remove(u[u.len() - 1]));
            assert(s.contains(s.last()));
            assert(self.items@.to_multiset().insert(e) =~= s.to_multiset());
        }
        sift_down(&mut self.items);
        Some(e)
    }
}

/// Copies a move sequence.
fn clone_moves(v: &Vec<Move>) -> (r: Vec<Move>)
    ensures
        r@ == v@,
{
    let mut r: Vec<Move> = Vec::new();
    let mut i: usize = 0;
    while i < v.len()
        invariant
            i <= v.len(),
            r@ == v@.take(i as int),
        decreases v.len() - i,
    {
        r.push(v[i]);
        proof {
            assert(r@ =~= v@.take(i + 1));
        }
        i += 1;
    }
    proof {
        assert(r@ =~= v@);
    }
    r
}

/// A pending path is coherent with the initial board: its move sequence
/// replays, legally at every step, to exactly its board, and no board along
/// the way was already solved.
spec fn path_ok(init: Seq<ColModel>, ms: Seq<Move>, bv: Seq<ColModel>) -> bool {
    spec_replay(init, ms) == Some(bv) && spec_prefixes_unsolved(init, ms)
}

/// A frontier entry carries a coherent pending path.
spec fn entry_ok(init: Seq<ColModel>, e: Entry) -> bool {
    path_ok(init, e.moves@, e.board@)
}

/// Applying one more legal move to a coherent path keeps it coherent: the
/// board it left could not have been solved, since it still admitted a move.
proof fn lemma_extend_path(
    init: Seq<ColModel>,
    ms: Seq<Move>,
    bv: Seq<ColModel>,
    m: Move,
    child: Seq<ColModel>,
)
    requires
        path_ok(init, ms, bv),
        move_legal(m, bv),
        child == spec_apply(m, bv),
    ensures
        path_ok(init, ms.push(m), child),
{
    lemma_replay_snoc(init, ms, m);
    assert forall|k: int|
        0 <= k < ms.push(m).len() implies (match spec_replay(
        init,
        #[trigger] ms.push(m).take(k),
    ) {
        Some(bk) => !spec_is_solved(bk),
        None => false,
    }) by {
        if k < ms.len() {
            assert(ms.push(m).take(k) =~= ms.take(k));
            assert((match spec_replay(init, ms.take(k)) {
                Some(bk) => !spec_is_solved(bk),
                None => false,
            }));
        } else {
            assert(ms.push(m).take(k) =~= ms);
            if spec_is_solved(bv) {
                lemma_solved_board_has_no_moves(m, bv);
            }
        }
    }
}

/// A coherent path of at least one move starts from an unsolved board.
proof fn lemma_path_start_unsolved(init: Seq<ColModel>, ms: Seq<Move>, bv: Seq<ColModel>)
    requires
        path_ok(init, ms, bv),
        ms.len() >= 1,
    ensures
        !spec_is_solved(init),
{
    assert(ms.take(0) =~= Seq::<Move>::empty());
    assert(spec_replay(init, ms.take(0)) == Some(init));
    assert((match spec_replay(init, ms.take(0)) {
        Some(bk) => !spec_is_solved(bk),
        None => false,
    }));
}

impl Board {
    /// Breadth-first search. On success the returned move sequence is
    /// nonempty, legal at every step when replayed from `self`, ends in the
    /// returned solved board, and reaches no solved board earlier: the
    /// search stops at the first solved child, and an already-solved board
    /// (which admits no move) never returns itself. `None` means the search
    /// space was exhausted (or the step budget ran out) without reaching a
    /// solved board. The FIFO expansion order makes a returned solution one
    /// of minimum length; that property, and exhaustiveness of a `None`
    /// answer, lie outside the verified contract.
    pub fn solve_naive(self) -> (r: Option<(Board, Vec<Move>)>)
        ensures
            r matches Some((b, ms)) ==> {
                &&& spec_replay(self@, ms@) == Some(b@)
                &&& spec_is_solved(b@)
                &&& ms@.len() >= 1
                &&& spec_prefixes_unsolved(self@, ms@)
            },
            spec_is_solved(self@) ==> r is None,
    {
        let ghost init = self@;
        let all = Move::all_moves();
        let mut queue: Vec<(Board, Vec<Move>)> = Vec::new();
        let mut head: usize = 0;
        let mut seen: HashSet<Board> = HashSet::new();
        queue.push((self, Vec::new()));
        let mut fuel: u64 = u64::MAX;
        while fuel > 0
            invariant
                init == self@,
                head <= queue@.len(),
                forall|j: int|
                    0 <= j < queue@.len() ==> path_ok(
                        init,
                        (#[trigger] queue@[j]).1@,
                        queue@[j].0@,
                    ),
            decreases fuel,
        {
            fuel -= 1;
            if head >= queue.len() {
                return None;
            }
            let b = queue[head].0.clone();
            let ms = clone_moves(&queue[head].1);
            proof {
                assert(path_ok(init, ms@, b@));
            }
            head += 1;
            if seen.contains(&b) {
                continue;
            }
            seen.insert(b.clone());
            let mut k: usize = 0;
            while k < all.len()
                invariant
                    init == self@,
                    head <= queue@.len(),
                    path_ok(init, ms@, b@),
                    forall|j: int|
                        0 <= j < queue@.len() ==> path_ok(
                            init,
                            (#[trigger] queue@[j]).1@,
                            queue@[j].0@,
                        ),
                decreases all.len() - k,
            {
                let m = all[k];
                match m.apply(&b) {
                    Some(child) => {
                        let mut child_moves = clone_moves(&ms);
                        child_moves.push(m);
                        proof {
                            lemma_extend_path(init, ms@, b@, m, child@);
                            assert(child_moves@ == ms@.push(m));
                            assert(path_ok(init, child_moves@, child@));
                        }
                        if child.is_solved() {
                            proof {
                                lemma_path_start_unsolved(init, child_moves@, child@);
                            }
                            return Some((child, child_moves));
                        }
                        queue.push((child, child_moves));
                    },
                    None => {},
                }
                k += 1;
            }
        }
        None
    }

    /// Best-first search, the primary strategy: expands the frontier entry
    /// with the lowest heuristic score first, deduplicating expanded boards
    /// lazily and generating children with the narrowed enumeration (which
    /// provably emits every legal move). On success the returned move
    /// sequence is nonempty, legal at every step when replayed from `self`,
    /// ends in the returned solved board, and reaches no solved board
    /// earlier: the search stops at the first solved child, and an
    /// already-solved board (which admits no move) never returns itself.
    /// `None` means the search space was exhausted (or the step budget ran
    /// out) without reaching a solved board.
    pub fn solve(self) -> (r: Option<(Board, Vec<Move>)>)
        ensures
            r matches Some((b, ms)) ==> {
                &&& spec_replay(self@, ms@) == Some(b@)
                &&& spec_is_solved(b@)
                &&& ms@.len() >= 1
                &&& spec_prefixes_unsolved(self@, ms@)
            },
            spec_is_solved(self@) ==> r is None,
    {
        let ghost init = self@;
        let mut frontier = Frontier::new();
        let mut seen: HashSet<Board> = HashSet::new();
        let first_score = if self.dims_ok() {
            self.score()
        } else {
            i64::MAX
        };
        frontier.push(Entry { score: first_score, board: self, moves: Vec::new() });
        let mut fuel: u64 = u64::MAX;
        while fuel > 0
            invariant
                init == self@,
                frontier.wf(),
                forall|j: int| 0 <= j < frontier@.len() ==> entry_ok(init, #[trigger] frontier@[j]),
            decreases fuel,
        {
            fuel -= 1;
            let e = match frontier.pop() {
                Some(e) => e,
                None => {
                    return None;
                },
            };
            if seen.contains(&e.board) {
                continue;
            }
            seen.insert(e.board.clone());
            let moves_list = e.board.possible_moves();
            let mut k: usize = 0;
            while k < moves_list.len()
                invariant
                    init == self@,
                    frontier.wf(),
                    entry_ok(init, e),
                    forall|j: int|
                        0 <= j < frontier@.len() ==> entry_ok(init, #[trigger] frontier@[j]),
                decreases moves_list.len() - k,
            {
                let m = moves_list[k];
                match m.apply(&e.board) {
                    Some(child) => {
                        let mut child_moves = clone_moves(&e.moves);
                        child_moves.push(m);
                        proof {
                            lemma_extend_path(init, e.moves@, e.board@, m, child@);
                            assert(child_moves@ == e.moves@.push(m));
                            assert(path_ok(init, child_moves@, child@));
                        }
                        if child.is_solved() {
                            proof {
                                lemma_path_start_unsolved(init, child_moves@, child@);
                            }
                            return Some((child, child_moves));
                        }
                        let child_score = if child.dims_ok() {
                            child.score()
                        } else {
                            i64::MAX
                        };
                        frontier.push(Entry {
                            score: child_score,
                            board: child,
                            moves: child_moves,
                        });
                    },
                    None => {},
                }
                k += 1;
            }
        }
        None
    }
}

} // verus!
