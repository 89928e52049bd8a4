//! Moves between columns: legality, application, and the solved-column
//! collapsing step that runs after every successful move.

use vstd::prelude::*;
use vstd::pervasive::VecAdditionalExecFns;
use vstd::multiset::Multiset;
use crate::cards::{
    Card, ColModel, Column, Board, clone_cards, spec_goes_on, spec_is_solved, col_cleared,
    spec_rank_index,
};

verus! {

broadcast use
    vstd::seq_lib::lemma_seq_contains_after_push,
    vstd::seq_lib::group_to_multiset_ensures,
    vstd::multiset::group_multiset_axioms;

/// A candidate transition between two distinct columns, referenced by index.
#[derive(Debug, Clone, Copy, PartialEq, Eq, Hash, Structural)]
pub enum Move {
    /// Relocate the top `count` cards of `from` onto `to`.
    Normal { from: usize, to: usize, count: usize },
    /// Pop the top card of `from` into `to`'s cheat slot.
    Cheat { from: usize, to: usize },
    /// Push the card in `from`'s cheat slot onto `to`'s stack.
    UnCheat { from: usize, to: usize },
}

/// The canonical fully ordered stack, maximal rank at the bottom, that
/// collapses a column to `Solved`.
pub open spec fn full_run() -> Seq<Card> {
    seq![Card::T, Card::K, Card::D, Card::V, Card::Ten, Card::Nine, Card::Eight, Card::Seven, Card::Six]
}

/// A stack segment is a run when each card may be placed on the card below it.
pub open spec fn is_run(s: Seq<Card>) -> bool {
    forall|i: int| 1 <= i < s.len() ==> #[trigger] spec_goes_on(s[i]) == Some(s[i - 1])
}

/// A card may be placed on a stack: any card on an empty stack, otherwise the
/// stack's top must be the card's successor.
pub open spec fn can_place(c: Card, on: Seq<Card>) -> bool {
    on.len() == 0 || spec_goes_on(c) == Some(on.last())
}

/// Legality of `Normal { from, to, count }` on a board.
pub open spec fn normal_legal(bv: Seq<ColModel>, from: int, to: int, count: int) -> bool {
    &&& 0 <= from < bv.len()
    &&& 0 <= to < bv.len()
    &&& from != to
    &&& bv[from] matches ColModel::Unsolved { cards: fc, cheat: None }
    &&& bv[to] matches ColModel::Unsolved { cards: tc, cheat: None }
    &&& 1 <= count <= fc.len()
    &&& is_run(fc.skip(fc.len() - count))
    &&& can_place(fc[fc.len() - count], tc)
}

/// Legality of `Cheat { from, to }`: the popped card must *not* be an
/// ordinary placement on `to` (cheating exists only for stuck cards), and
/// `to` must be a nonempty column with a free cheat slot.
pub open spec fn cheat_legal(bv: Seq<ColModel>, from: int, to: int) -> bool {
    &&& 0 <= from < bv.len()
    &&& 0 <= to < bv.len()
    &&& from != to
    &&& bv[from] matches ColModel::Unsolved { cards: fc, cheat: None }
    &&& bv[to] matches ColModel::Unsolved { cards: tc, cheat: None }
    &&& fc.len() > 0
    &&& tc.len() > 0
    &&& spec_goes_on(fc.last()) != Some(tc.last())
}

/// Legality of `UnCheat { from, to }`: the cheated card must be an ordinary
/// placement on `to`.
pub open spec fn uncheat_legal(bv: Seq<ColModel>, from: int, to: int) -> bool {
    &&& 0 <= from < bv.len()
    &&& 0 <= to < bv.len()
    &&& from != to
    &&& bv[from] matches ColModel::Unsolved { cards: fc, cheat: Some(c) }
    &&& bv[to] matches ColModel::Unsolved { cards: tc, cheat: None }
    &&& can_place(c, tc)
}

/// Legality of any move.
pub open spec fn move_legal(m: Move, bv: Seq<ColModel>) -> bool {
    match m {
        Move::Normal { from, to, count } => normal_legal(bv, from as int, to as int, count as int),
        Move::Cheat { from, to } => cheat_legal(bv, from as int, to as int),
        Move::UnCheat { from, to } => uncheat_legal(bv, from as int, to as int),
    }
}

/// The transformation a legal move performs, before solved-collapsing.
pub open spec fn spec_apply_raw(m: Move, bv: Seq<ColModel>) -> Seq<ColModel>
    recommends
        move_legal(m, bv),
{
    match m {
        Move::Normal { from, to, count } => {
            let fc = bv[from as int]->cards;
            let tc = bv[to as int]->cards;
            let cut = fc.len() - count;
            bv.update(from as int, ColModel::Unsolved { cards: fc.take(cut), cheat: None })
                .update(to as int, ColModel::Unsolved { cards: tc + fc.skip(cut), cheat: None })
        },
        Move::Cheat { from, to } => {
            let fc = bv[from as int]->cards;
            let tc = bv[to as int]->cards;
            bv.update(from as int, ColModel::Unsolved { cards: fc.drop_last(), cheat: None })
                .update(to as int, ColModel::Unsolved { cards: tc, cheat: Some(fc.last()) })
        },
        Move::UnCheat { from, to } => {
            let fc = bv[from as int]->cards;
            let c = bv[from as int]->cheat->0;
            let tc = bv[to as int]->cards;
            bv.update(from as int, ColModel::Unsolved { cards: fc, cheat: None })
                .update(to as int, ColModel::Unsolved { cards: tc.push(c), cheat: None })
        },
    }
}

/// A column collapses to `Solved` exactly when its stack is the canonical
/// full run and its cheat slot is free.
pub open spec fn spec_collapse_col(c: ColModel) -> ColModel {
    match c {
        ColModel::Solved => ColModel::Solved,
        ColModel::Unsolved { cards, cheat } => {
            if cheat is None && cards == full_run() {
                ColModel::Solved
            } else {
                c
            }
        },
    }
}

/// The solved-collapsing step over a whole board.
pub open spec fn spec_collapse(bv: Seq<ColModel>) -> Seq<ColModel> {
    bv.map_values(|c: ColModel| spec_collapse_col(c))
}

/// What a legal move produces: the raw transformation followed by collapsing.
pub open spec fn spec_apply(m: Move, bv: Seq<ColModel>) -> Seq<ColModel>
    recommends
        move_legal(m, bv),
{
    spec_collapse(spec_apply_raw(m, bv))
}

/// Equality of two optional cards.
fn opt_card_eq(a: Option<Card>, b: Option<Card>) -> (r: bool)
    ensures
        r == (a == b),
{
    match (a, b) {
        (None, None) => true,
        (Some(x), Some(y)) => x == y,
        _ => false,
    }
}

/// Copies the bottom `k` cards of a stack.
fn clone_prefix(v: &Vec<Card>, k: usize) -> (r: Vec<Card>)
    requires
        k <= v.len(),
    ensures
        r@ == v@.take(k as int),
{
    let mut r: Vec<Card> = Vec::new();
    let mut i: usize = 0;
    while i < k
        invariant
            i <= k <= v.len(),
            r@ == v@.take(i as int),
        decreases k - i,
    {
        r.push(v[i]);
        proof {
            assert(r@ =~= v@.take(i + 1));
        }
        i += 1;
    }
    r
}

/// Appends the cards of `src` from position `start` upward onto `dst`.
fn append_from(dst: &mut Vec<Card>, src: &Vec<Card>, start: usize)
    requires
        start <= src.len(),
    ensures
        final(dst)@ == old(dst)@ + src@.skip(start as int),
{
    let mut i: usize = start;
    while i < src.len()
        invariant
            start <= i <= src.len(),
            dst@ == old(dst)@ + src@.subrange(start as int, i as int),
        decreases src.len() - i,
    {
        dst.push(src[i]);
        proof {
            assert(dst@ =~= old(dst)@ + src@.subrange(start as int, i + 1));
        }
        i += 1;
    }
    proof {
        assert(src@.subrange(start as int, src@.len() as int) =~= src@.skip(start as int));
    }
}

/// True iff the cards from position `start` upward form a run.
fn check_run_from(cards: &Vec<Card>, start: usize) -> (r: bool)
    requires
        start <= cards.len(),
    ensures
        r == is_run(cards@.skip(start as int)),
{
    if start == cards.len() {
        return true;
    }
    let mut i: usize = start + 1;
    while i < cards.len()
        invariant
            start + 1 <= i <= cards.len() + 1,
            i <= cards.len() ==> i >= start + 1,
            forall|j: int| start + 1 <= j < i ==> #[trigger] spec_goes_on(cards@[j]) == Some(cards@[j - 1]),
        decreases cards.len() - i,
    {
        if !opt_card_eq(cards[i].goes_on(), Some(cards[i - 1])) {
            proof {
                let s = cards@.skip(start as int);
                assert(s[i - start] == cards@[i as int]);
                assert(s[i - start - 1] == cards@[i - 1]);
                assert(!is_run(s));
            }
            return false;
        }
        i += 1;
    }
    proof {
        let s = cards@.skip(start as int);
        assert forall|k: int| 1 <= k < s.len() implies #[trigger] spec_goes_on(s[k]) == Some(s[k - 1]) by {
            assert(s[k] == cards@[k + start]);
            assert(s[k - 1] == cards@[k + start - 1]);
            assert(spec_goes_on(cards@[k + start]) == Some(cards@[k + start - 1]));
        }
    }
    true
}

/// True iff `c` may be placed on the stack `cards`.
fn can_place_on(c: Card, cards: &Vec<Card>) -> (r: bool)
    ensures
        r == can_place(c, cards@),
{
    if cards.len() == 0 {
        true
    } else {
        opt_card_eq(c.goes_on(), Some(cards[cards.len() - 1]))
    }
}

/// The card at position `i` of the canonical full run.
fn full_run_card(i: usize) -> (c: Card)
    requires
        i < 9,
    ensures
        c == full_run()[i as int],
{
    match i {
        0 => Card::T,
        1 => Card::K,
        2 => Card::D,
        3 => Card::V,
        4 => Card::Ten,
        5 => Card::Nine,
        6 => Card::Eight,
        7 => Card::Seven,
        _ => Card::Six,
    }
}

/// True iff the stack is exactly the canonical full run.
fn is_full_run(cards: &Vec<Card>) -> (r: bool)
    ensures
        r == (cards@ == full_run()),
{
    if cards.len() != 9 {
        return false;
    }
    let mut i: usize = 0;
    while i < 9
        invariant
            i <= 9,
            cards@.len() == 9,
            forall|j: int| 0 <= j < i ==> cards@[j] == full_run()[j],
        decreases 9 - i,
    {
        if !(cards[i] == full_run_card(i)) {
            proof {
                assert(cards@[i as int] != full_run()[i as int]);
            }
            return false;
        }
        i += 1;
    }
    proof {
        assert(cards@ =~= full_run());
    }
    true
}

/// Replaces every column holding the canonical full run (with a free cheat
/// slot) by a `Solved` marker.
fn collapse_columns(cols: &mut Vec<Column>)
    ensures
        final(cols)@.len() == old(cols)@.len(),
        forall|j: int|
            0 <= j < old(cols)@.len() ==> final(cols)@[j]@ == spec_collapse_col(old(cols)@[j]@),
{
    let n = cols.len();
    let mut i: usize = 0;
    while i < n
        invariant
            i <= n,
            cols@.len() == n == old(cols)@.len(),
            forall|j: int| 0 <= j < i ==> cols@[j]@ == spec_collapse_col(old(cols)@[j]@),
            forall|j: int| i <= j < n ==> cols@[j] == old(cols)@[j],
        decreases n - i,
    {
        let full = match &cols[i] {
            Column::Solved => false,
            Column::Unsolved { cards, cheat } => cheat.is_none() && is_full_run(cards),
        };
        if full {
            cols.set(i, Column::Solved);
        }
        i += 1;
    }
}

impl Move {
    /// Applies the move to a board: `Some` with the transformed (and
    /// solved-collapsed) board exactly when the move is legal, `None`
    /// otherwise; the given board is never changed.
    pub fn apply(&self, board: &Board) -> (r: Option<Board>)
        ensures
            r is Some <==> move_legal(*self, board@),
            r matches Some(nb) ==> nb@ == spec_apply(*self, board@),
    {
        match *self {
            Move::Normal { from, to, count } => apply_normal(board, from, to, count),
            Move::Cheat { from, to } => apply_cheat(board, from, to),
            Move::UnCheat { from, to } => apply_uncheat(board, from, to),
        }
    }
}

/// The `Normal` case of move application.
fn apply_normal(board: &Board, from: usize, to: usize, count: usize) -> (r: Option<Board>)
    ensures
        r is Some <==> normal_legal(board@, from as int, to as int, count as int),
        r matches Some(nb) ==> nb@ == spec_apply((Move::Normal { from, to, count }), board@),
{
    let n = board.columns.len();
    if from >= n || to >= n || from == to {
        return None;
    }
    let fc = match &board.columns[from] {
        Column::Unsolved { cards, cheat: None } => cards,
        _ => { return None; },
    };
    let tc = match &board.columns[to] {
        Column::Unsolved { cards, cheat: None } => cards,
        _ => { return None; },
    };
    if count < 1 || count > fc.len() {
        return None;
    }
    let cut = fc.len() - count;
    if !check_run_from(fc, cut) {
        return None;
    }
    if !can_place_on(fc[cut], tc) {
        return None;
    }
    let new_from = clone_prefix(fc, cut);
    let mut new_to = clone_cards(tc);
    append_from(&mut new_to, fc, cut);
    let mut nb = board.clone();
    proof {
        assert(nb@.len() == board@.len());
        assert(nb.columns@.len() == board.columns@.len());
    }
    nb.columns.set(from, Column::Unsolved { cards: new_from, cheat: None });
    nb.columns.set(to, Column::Unsolved { cards: new_to, cheat: None });
    proof {
        let raw = spec_apply_raw((Move::Normal { from, to, count }), board@);
        assert(nb@ =~= raw);
    }
    collapse_columns(&mut nb.columns);
    proof {
        assert(nb@ =~= spec_apply((Move::Normal { from, to, count }), board@));
    }
    Some(nb)
}

/// The `Cheat` case of move application.
fn apply_cheat(board: &Board, from: usize, to: usize) -> (r: Option<Board>)
    ensures
        r is Some <==> cheat_legal(board@, from as int, to as int),
        r matches Some(nb) ==> nb@ == spec_apply((Move::Cheat { from, to }), board@),
{
    let n = board.columns.len();
    if from >= n || to >= n || from == to {
        return None;
    }
    let fc = match &board.columns[from] {
        Column::Unsolved { cards, cheat: None } => cards,
        _ => { return None; },
    };
    let tc = match &board.columns[to] {
        Column::Unsolved { cards, cheat: None } => cards,
        _ => { return None; },
    };
    if fc.len() == 0 || tc.len() == 0 {
        return None;
    }
    let card = fc[fc.len() - 1];
    if opt_card_eq(card.goes_on(), Some(tc[tc.len() - 1])) {
        return None;
    }
    let new_from = clone_prefix(fc, fc.len() - 1);
    let new_to = clone_cards(tc);
    let mut nb = board.clone();
    proof {
        assert(nb@.len() == board@.len());
        assert(nb.columns@.len() == board.columns@.len());
    }
    nb.columns.set(from, Column::Unsolved { cards: new_from, cheat: None });
    nb.columns.set(to, Column::Unsolved { cards: new_to, cheat: Some(card) });
    proof {
        let raw = spec_apply_raw((Move::Cheat { from, to }), board@);
        assert(fc@.take(fc@.len() - 1) =~= fc@.drop_last());
        assert(nb@ =~= raw);
    }
    collapse_columns(&mut nb.columns);
    proof {
        assert(nb@ =~= spec_apply((Move::Cheat { from, to }), board@));
    }
    Some(nb)
}

/// The `UnCheat` case of move application.
fn apply_uncheat(board: &Board, from: usize, to: usize) -> (r: Option<Board>)
    ensures
        r is Some <==> uncheat_legal(board@, from as int, to as int),
        r matches Some(nb) ==> nb@ == spec_apply((Move::UnCheat { from, to }), board@),
{
    let n = board.columns.len();
    if from >= n || to >= n || from == to {
        return None;
    }
    let (fc, card) = match &board.columns[from] {
        Column::Unsolved { cards, cheat: Some(c) } => (cards, *c),
        _ => { return None; },
    };
    let tc = match &board.columns[to] {
        Column::Unsolved { cards, cheat: None } => cards,
        _ => { return None; },
    };
    if !can_place_on(card, tc) {
        return None;
    }
    let new_from = clone_cards(fc);
    let mut new_to = clone_cards(tc);
    new_to.push(card);
    let mut nb = board.clone();
    proof {
        assert(nb@.len() == board@.len());
        assert(nb.columns@.len() == board.columns@.len());
    }
    nb.columns.set(from, Column::Unsolved { cards: new_from, cheat: None });
    nb.columns.set(to, Column::Unsolved { cards: new_to, cheat: None });
    proof {
        let raw = spec_apply_raw((Move::UnCheat { from, to }), board@);
        assert(nb@ =~= raw);
    }
    collapse_columns(&mut nb.columns);
    proof {
        assert(nb@ =~= spec_apply((Move::UnCheat { from, to }), board@));
    }
    Some(nb)
}

/// Replays a move sequence from a board: `Some` of the resulting board when
/// every move is legal in turn, `None` as soon as one is not.
pub open spec fn spec_replay(bv: Seq<ColModel>, ms: Seq<Move>) -> Option<Seq<ColModel>>
    decreases ms.len(),
{
    if ms.len() == 0 {
        Some(bv)
    } else if move_legal(ms[0], bv) {
        spec_replay(spec_apply(ms[0], bv), ms.drop_first())
    } else {
        None
    }
}

/// Every proper prefix of `ms`, replayed from `bv`, reaches a board that is
/// not yet solved: the sequence stops at the first solved board.
pub open spec fn spec_prefixes_unsolved(bv: Seq<ColModel>, ms: Seq<Move>) -> bool {
    forall|k: int|
        0 <= k < ms.len() ==> (match spec_replay(bv, #[trigger] ms.take(k)) {
            Some(bk) => !spec_is_solved(bk),
            None => false,
        })
}

/// A solved board admits no legal move at all: every column is either solved
/// or empty with a free cheat slot, so nothing can be popped, parked or
/// placed.
pub proof fn lemma_solved_board_has_no_moves(m: Move, bv: Seq<ColModel>)
    requires
        spec_is_solved(bv),
    ensures
        !move_legal(m, bv),
{
    if move_legal(m, bv) {
        match m {
            Move::Normal { from, .. } => {
                assert(col_cleared(bv[from as int]));
            },
            Move::Cheat { from, .. } => {
                assert(col_cleared(bv[from as int]));
            },
            Move::UnCheat { from, .. } => {
                assert(col_cleared(bv[from as int]));
            },
        }
    }
}

/// Extending a replayed sequence by one move applies that move to the
/// replayed board.
pub proof fn lemma_replay_snoc(bv: Seq<ColModel>, ms: Seq<Move>, m: Move)
    ensures
        spec_replay(bv, ms.push(m)) == (match spec_replay(bv, ms) {
            Some(b2) => if move_legal(m, b2) {
                Some(spec_apply(m, b2))
            } else {
                None
            },
            None => None,
        }),
    decreases ms.len(),
{
    let ext = ms.push(m);
    if ms.len() == 0 {
        assert(ext[0] == m);
        assert(ext.drop_first() =~= Seq::<Move>::empty());
        if move_legal(m, bv) {
            assert(spec_replay(spec_apply(m, bv), ext.drop_first()) == Some(spec_apply(m, bv)));
        }
    } else {
        assert(ext[0] == ms[0]);
        assert(ext.drop_first() =~= ms.drop_first().push(m));
        if move_legal(ms[0], bv) {
            lemma_replay_snoc(spec_apply(ms[0], bv), ms.drop_first(), m);
        }
    }
    assert(spec_replay(bv, ms.push(m)) =~~= (match spec_replay(bv, ms) {
        Some(b2) => if move_legal(m, b2) {
            Some(spec_apply(m, b2))
        } else {
            None
        },
        None => None,
    }));
}

/// The cards a column accounts for: its stack plus its cheat slot; a solved
/// column stands for the complete run that collapsed into it.
pub open spec fn spec_col_mset(c: ColModel) -> Multiset<Card> {
    match c {
        ColModel::Solved => full_run().to_multiset(),
        ColModel::Unsolved { cards, cheat: None } => cards.to_multiset(),
        ColModel::Unsolved { cards, cheat: Some(x) } => cards.to_multiset().insert(x),
    }
}

/// The multiset of all cards on the board.
pub open spec fn spec_board_mset(bv: Seq<ColModel>) -> Multiset<Card>
    decreases bv.len(),
{
    if bv.len() == 0 {
        Multiset::empty()
    } else {
        spec_board_mset(bv.drop_last()).add(spec_col_mset(bv.last()))
    }
}

/// Replacing one column exchanges exactly that column's cards in the board
/// multiset.
proof fn lemma_board_mset_update(bv: Seq<ColModel>, i: int, c: ColModel)
    requires
        0 <= i < bv.len(),
    ensures
        spec_board_mset(bv.update(i, c)).add(spec_col_mset(bv[i])) == spec_board_mset(bv).add(
            spec_col_mset(c),
        ),
    decreases bv.len(),
{
    let u = bv.update(i, c);
    if i == bv.len() - 1 {
        assert(u.drop_last() =~= bv.drop_last());
        assert(u.last() == c);
        assert(bv[i] == bv.last());
        assert(spec_board_mset(u) == spec_board_mset(bv.drop_last()).add(spec_col_mset(c)));
        assert(spec_board_mset(bv) == spec_board_mset(bv.drop_last()).add(spec_col_mset(bv[i])));
        assert(spec_board_mset(u).add(spec_col_mset(bv[i])) =~= spec_board_mset(bv).add(
            spec_col_mset(c),
        ));
    } else {
        let dl = bv.drop_last();
        lemma_board_mset_update(dl, i, c);
        assert(u.drop_last() =~= dl.update(i, c));
        assert(u.last() == bv.last());
        assert(dl[i] == bv[i]);
        assert(spec_board_mset(u) == spec_board_mset(dl.update(i, c)).add(
            spec_col_mset(bv.last()),
        ));
        assert(spec_board_mset(bv) == spec_board_mset(dl).add(spec_col_mset(bv.last())));
        assert forall|x: Card|
            spec_board_mset(u).add(spec_col_mset(bv[i])).count(x) == spec_board_mset(bv).add(
                spec_col_mset(c),
            ).count(x) by {
            assert(spec_board_mset(dl.update(i, c)).add(spec_col_mset(dl[i])).count(x)
                == spec_board_mset(dl).add(spec_col_mset(c)).count(x));
        }
        assert(spec_board_mset(u).add(spec_col_mset(bv[i])) =~= spec_board_mset(bv).add(
            spec_col_mset(c),
        ));
    }
}

/// The cancellation step shared by the conservation proofs: if replacing the
/// source column exchanged `a` for `b`, replacing the destination column
/// exchanged `c` for `d`, and the two exchanges moved the same cards
/// (`b + d == a + c` countwise), the board multiset is unchanged.
proof fn lemma_mset_cancel(
    raw: Multiset<Card>,
    mid: Multiset<Card>,
    base: Multiset<Card>,
    a: Multiset<Card>,
    b: Multiset<Card>,
    c: Multiset<Card>,
    d: Multiset<Card>,
)
    requires
        mid.add(a) == base.add(b),
        raw.add(c) == mid.add(d),
        forall|x: Card| b.count(x) + d.count(x) == a.count(x) + #[trigger] c.count(x),
    ensures
        raw == base,
{
    assert forall|x: Card| raw.count(x) == base.count(x) by {
        assert(mid.add(a).count(x) == mid.count(x) + a.count(x));
        assert(base.add(b).count(x) == base.count(x) + b.count(x));
        assert(raw.add(c).count(x) == raw.count(x) + c.count(x));
        assert(mid.add(d).count(x) == mid.count(x) + d.count(x));
        assert(b.count(x) + d.count(x) == a.count(x) + c.count(x));
    }
    assert(raw =~= base);
}

/// Boards whose columns account for the same cards columnwise have the same
/// board multiset.
proof fn lemma_board_mset_pointwise(a: Seq<ColModel>, b: Seq<ColModel>)
    requires
        a.len() == b.len(),
        forall|i: int| 0 <= i < a.len() ==> spec_col_mset(#[trigger] a[i]) == spec_col_mset(b[i]),
    ensures
        spec_board_mset(a) == spec_board_mset(b),
    decreases a.len(),
{
    if a.len() > 0 {
        lemma_board_mset_pointwise(a.drop_last(), b.drop_last());
        assert(spec_col_mset(a[a.len() - 1]) == spec_col_mset(b[b.len() - 1]));
        assert(spec_board_mset(a) =~= spec_board_mset(b));
    } else {
        assert(spec_board_mset(a) =~= spec_board_mset(b));
    }
}

/// Collapsing a column does not change the cards it accounts for.
proof fn lemma_collapse_col_mset(c: ColModel)
    ensures
        spec_col_mset(spec_collapse_col(c)) == spec_col_mset(c),
{
}

/// The solved-collapsing step does not change the board multiset.
proof fn lemma_collapse_preserves_mset(bv: Seq<ColModel>)
    ensures
        spec_board_mset(spec_collapse(bv)) == spec_board_mset(bv),
{
    assert forall|i: int| 0 <= i < spec_collapse(bv).len() implies spec_col_mset(
        #[trigger] spec_collapse(bv)[i],
    ) == spec_col_mset(bv[i]) by {
        lemma_collapse_col_mset(bv[i]);
    }
    lemma_board_mset_pointwise(spec_collapse(bv), bv);
}

/// Card conservation: a legal move neither creates nor destroys cards — the
/// multiset of ranks across all columns (stacks, cheat slots, and collapsed
/// runs) is exactly preserved by `apply`.
pub proof fn lemma_apply_conserves_cards(m: Move, bv: Seq<ColModel>)
    requires
        move_legal(m, bv),
    ensures
        spec_board_mset(spec_apply(m, bv)) == spec_board_mset(bv),
{
    let raw = spec_apply_raw(m, bv);
    lemma_collapse_preserves_mset(raw);
    match m {
        Move::Normal { from, to, count } => {
            let f = from as int;
            let t = to as int;
            let fc = bv[f]->cards;
            let tc = bv[t]->cards;
            let cut = fc.len() - count;
            let newf = ColModel::Unsolved { cards: fc.take(cut), cheat: None };
            let newt = ColModel::Unsolved { cards: tc + fc.skip(cut), cheat: None };
            let mid = bv.update(f, newf);
            lemma_board_mset_update(bv, f, newf);
            lemma_board_mset_update(mid, t, newt);
            assert(mid[t] == bv[t]);
            assert(fc =~= fc.take(cut) + fc.skip(cut));
            vstd::seq_lib::lemma_multiset_commutative(fc.take(cut), fc.skip(cut));
            vstd::seq_lib::lemma_multiset_commutative(tc, fc.skip(cut));
            assert forall|x: Card|
                spec_col_mset(newf).count(x) + spec_col_mset(newt).count(x) == spec_col_mset(
                    bv[f],
                ).count(x) + #[trigger] spec_col_mset(bv[t]).count(x) by {
                assert(fc.to_multiset().count(x) == fc.take(cut).to_multiset().add(
                    fc.skip(cut).to_multiset(),
                ).count(x));
                assert((tc + fc.skip(cut)).to_multiset().count(x) == tc.to_multiset().add(
                    fc.skip(cut).to_multiset(),
                ).count(x));
                assert(fc.take(cut).to_multiset().add(fc.skip(cut).to_multiset()).count(x)
                    == fc.take(cut).to_multiset().count(x) + fc.skip(cut).to_multiset().count(x));
                assert(tc.to_multiset().add(fc.skip(cut).to_multiset()).count(x)
                    == tc.to_multiset().count(x) + fc.skip(cut).to_multiset().count(x));
            }
            lemma_mset_cancel(
                spec_board_mset(raw),
                spec_board_mset(mid),
                spec_board_mset(bv),
                spec_col_mset(bv[f]),
                spec_col_mset(newf),
                spec_col_mset(bv[t]),
                spec_col_mset(newt),
            );
        },
        Move::Cheat { from, to } => {
            let f = from as int;
            let t = to as int;
            let fc = bv[f]->cards;
            let tc = bv[t]->cards;
            let newf = ColModel::Unsolved { cards: fc.drop_last(), cheat: None };
            let newt = ColModel::Unsolved { cards: tc, cheat: Some(fc.last()) };
            let mid = bv.update(f, newf);
            lemma_board_mset_update(bv, f, newf);
            lemma_board_mset_update(mid, t, newt);
            assert(mid[t] == bv[t]);
            assert(fc =~= fc.drop_last().push(fc.last()));
            assert(fc.to_multiset() == fc.drop_last().to_multiset().insert(fc.last()));
            assert forall|x: Card|
                spec_col_mset(newf).count(x) + spec_col_mset(newt).count(x) == spec_col_mset(
                    bv[f],
                ).count(x) + #[trigger] spec_col_mset(bv[t]).count(x) by {
                assert(fc.drop_last().to_multiset().insert(fc.last()).count(x)
                    == fc.drop_last().to_multiset().add(
                    Multiset::singleton(fc.last()),
                ).count(x));
                assert(tc.to_multiset().insert(fc.last()).count(x) == tc.to_multiset().add(
                    Multiset::singleton(fc.last()),
                ).count(x));
            }
            lemma_mset_cancel(
                spec_board_mset(raw),
                spec_board_mset(mid),
                spec_board_mset(bv),
                spec_col_mset(bv[f]),
                spec_col_mset(newf),
                spec_col_mset(bv[t]),
                spec_col_mset(newt),
            );
        },
        Move::UnCheat { from, to } => {
            let f = from as int;
            let t = to as int;
            let fc = bv[f]->cards;
            let c = bv[f]->cheat.unwrap();
            let tc = bv[t]->cards;
            let newf = ColModel::Unsolved { cards: fc, cheat: None };
            let newt = ColModel::Unsolved { cards: tc.push(c), cheat: None };
            let mid = bv.update(f, newf);
            lemma_board_mset_update(bv, f, newf);
            lemma_board_mset_update(mid, t, newt);
            assert(mid[t] == bv[t]);
            assert(tc.push(c).to_multiset() == tc.to_multiset().insert(c));
            assert forall|x: Card|
                spec_col_mset(newf).count(x) + spec_col_mset(newt).count(x) == spec_col_mset(
                    bv[f],
                ).count(x) + #[trigger] spec_col_mset(bv[t]).count(x) by {
                assert(fc.to_multiset().insert(c).count(x) == fc.to_multiset().add(
                    Multiset::singleton(c),
                ).count(x));
                assert(tc.to_multiset().insert(c).count(x) == tc.to_multiset().add(
                    Multiset::singleton(c),
                ).count(x));
            }
            lemma_mset_cancel(
                spec_board_mset(raw),
                spec_board_mset(mid),
                spec_board_mset(bv),
                spec_col_mset(bv[f]),
                spec_col_mset(newf),
                spec_col_mset(bv[t]),
                spec_col_mset(newt),
            );
        },
    }
}

/// Idempotent solved detection: collapsing is a no-op on a board that is
/// already fully collapsed — in particular on the result of any `apply` —
/// and a solved board is already fully collapsed.
pub proof fn lemma_collapse_idempotent(bv: Seq<ColModel>)
    ensures
        spec_collapse(spec_collapse(bv)) == spec_collapse(bv),
        spec_is_solved(bv) ==> spec_collapse(bv) == bv,
{
    assert(spec_collapse(spec_collapse(bv)) =~= spec_collapse(bv));
    if spec_is_solved(bv) {
        assert forall|i: int| 0 <= i < bv.len() implies #[trigger] spec_collapse(bv)[i] == bv[i] by {
            assert(col_cleared(bv[i]));
            assert(full_run().len() == 9);
        }
        assert(spec_collapse(bv) =~= bv);
    }
}

/// Move legality symmetry: on a fully collapsed board, a `Cheat` followed
/// immediately by the inverse `UnCheat` over the same pair of columns (when
/// both are legal) restores the original board exactly.
pub proof fn lemma_cheat_uncheat_round_trip(bv: Seq<ColModel>, from: usize, to: usize)
    requires
        spec_collapse(bv) == bv,
        move_legal((Move::Cheat { from, to }), bv),
        move_legal(
            (Move::UnCheat { from: to, to: from }),
            spec_apply((Move::Cheat { from, to }), bv),
        ),
    ensures
        spec_apply(
            (Move::UnCheat { from: to, to: from }),
            spec_apply((Move::Cheat { from, to }), bv),
        ) == bv,
{
    let f = from as int;
    let t = to as int;
    let fc = bv[f]->cards;
    let tc = bv[t]->cards;
    let card = fc.last();
    assert(bv[f] == ColModel::Unsolved { cards: fc, cheat: None });
    assert(bv[t] == ColModel::Unsolved { cards: tc, cheat: None });
    let raw1 = spec_apply_raw((Move::Cheat { from, to }), bv);
    let b1 = spec_apply((Move::Cheat { from, to }), bv);
    // The intermediate board is already collapsed: the destination holds a
    // cheated card, the source must still be unsolved for the UnCheat to be
    // legal, and every other column was collapsed already.
    assert forall|i: int| 0 <= i < raw1.len() implies #[trigger] b1[i] == raw1[i] by {
        if i == f {
            assert(b1[f] matches ColModel::Unsolved { .. });
        } else if i != t {
            assert(spec_collapse(bv)[i] == bv[i]);
        }
    }
    assert(b1 =~= raw1);
    let raw2 = spec_apply_raw((Move::UnCheat { from: to, to: from }), b1);
    assert(b1[t] == ColModel::Unsolved { cards: tc, cheat: Some(card) });
    assert(b1[f] == ColModel::Unsolved { cards: fc.drop_last(), cheat: None });
    assert(fc.drop_last().push(card) =~= fc);
    assert forall|i: int| 0 <= i < raw2.len() implies #[trigger] raw2[i] == bv[i] by {}
    assert(raw2 =~= bv);
    assert forall|i: int|
        0 <= i < raw2.len() implies #[trigger] spec_collapse(raw2)[i] == bv[i] by {
        assert(spec_collapse(bv)[i] == bv[i]);
    }
    assert(spec_apply((Move::UnCheat { from: to, to: from }), b1) =~= bv);
}

/// The column a move takes its card from.
pub open spec fn move_from(m: Move) -> int {
    match m {
        Move::Normal { from, .. } => from as int,
        Move::Cheat { from, .. } => from as int,
        Move::UnCheat { from, .. } => from as int,
    }
}

/// The column a move delivers its card to.
pub open spec fn move_to(m: Move) -> int {
    match m {
        Move::Normal { to, .. } => to as int,
        Move::Cheat { to, .. } => to as int,
        Move::UnCheat { to, .. } => to as int,
    }
}

/// The ordered pair of distinct column indices with position `p` in the
/// lexicographic enumeration of all thirty such pairs over six columns.
pub open spec fn spec_pair_at(p: int) -> (int, int) {
    let f = p / 5;
    let t0 = p % 5;
    (f, if t0 < f { t0 } else { t0 + 1 })
}

/// The move the exhaustive enumeration emits at position `i`: first, for
/// every ordered pair in lexicographic order, the nine `Normal` counts in
/// ascending order; then one `Cheat` per pair; then one `UnCheat` per pair.
pub open spec fn spec_exhaustive_at(i: int) -> Move
    recommends
        0 <= i < 330,
{
    if i < 270 {
        let (f, t) = spec_pair_at(i / 9);
        Move::Normal { from: f as usize, to: t as usize, count: (i % 9 + 1) as usize }
    } else if i < 300 {
        let (f, t) = spec_pair_at(i - 270);
        Move::Cheat { from: f as usize, to: t as usize }
    } else {
        let (f, t) = spec_pair_at(i - 300);
        Move::UnCheat { from: f as usize, to: t as usize }
    }
}

/// The moves the exhaustive enumeration produces: every move shape over six
/// columns, with distinct indices and card counts from 1 to 9.
pub open spec fn exhaustive_shape(m: Move) -> bool {
    match m {
        Move::Normal { from, to, count } => from < 6 && to < 6 && from != to && 1 <= count <= 9,
        Move::Cheat { from, to } => from < 6 && to < 6 && from != to,
        Move::UnCheat { from, to } => from < 6 && to < 6 && from != to,
    }
}

/// The moves the narrowed enumeration produces for a given board: only the
/// shapes whose column states make the move plausibly legal.
pub open spec fn narrowed_emits(bv: Seq<ColModel>, m: Move) -> bool {
    match m {
        Move::Normal { from, to, count } => {
            &&& (from as int) < bv.len()
            &&& (to as int) < bv.len()
            &&& bv[from as int] matches ColModel::Unsolved { cheat: None, .. }
            &&& bv[to as int] matches ColModel::Unsolved { cheat: None, .. }
            &&& 1 <= count <= 9
        },
        Move::Cheat { from, to } => {
            &&& (from as int) < bv.len()
            &&& (to as int) < bv.len()
            &&& bv[from as int] matches ColModel::Unsolved { cheat: None, .. }
            &&& bv[to as int] matches ColModel::Unsolved { cheat: None, .. }
        },
        Move::UnCheat { from, to } => {
            &&& (from as int) < bv.len()
            &&& (to as int) < bv.len()
            &&& bv[from as int] matches ColModel::Unsolved { cheat: Some(c), .. }
            &&& bv[to as int] matches ColModel::Unsolved { cards: tc, cheat: None }
            &&& can_place(c, tc)
        },
    }
}

/// Within a run, ranks descend one step per card from the bottom card up.
proof fn lemma_run_rank(s: Seq<Card>, j: int)
    requires
        is_run(s),
        0 <= j < s.len(),
    ensures
        spec_rank_index(s[j]) == spec_rank_index(s[0]) - j,
    decreases j,
{
    if j > 0 {
        lemma_run_rank(s, j - 1);
        assert(spec_goes_on(s[j]) == Some(s[j - 1]));
    }
}

/// A run can never hold more cards than there are ranks.
pub proof fn lemma_run_len_le_9(s: Seq<Card>)
    requires
        is_run(s),
    ensures
        s.len() <= 9,
{
    if s.len() > 9 {
        lemma_run_rank(s, s.len() - 1);
        assert(spec_rank_index(s[0]) <= 8);
        assert(spec_rank_index(s[s.len() - 1]) >= 0);
    }
}

/// Completeness of the narrowed enumeration: every legal move is among the
/// moves it emits, so filtering either enumeration through `apply` succeeds
/// on exactly the legal moves — the two strategies are interchangeable.
pub proof fn lemma_narrowed_enumeration_complete(m: Move, bv: Seq<ColModel>)
    requires
        move_legal(m, bv),
    ensures
        narrowed_emits(bv, m),
{
    match m {
        Move::Normal { from, to, count } => {
            let fc = bv[from as int]->cards;
            let cut = fc.len() - count;
            lemma_run_len_le_9(fc.skip(cut));
            assert(fc.skip(cut).len() == count);
        },
        Move::Cheat { from, to } => {},
        Move::UnCheat { from, to } => {},
    }
}

impl Move {
    /// Every syntactically plausible move on a six-column board: for each
    /// ordered pair of distinct columns, the nine `Normal` counts, one
    /// `Cheat` and one `UnCheat`. Illegal instances are filtered out later by
    /// `apply`.
    pub fn all_moves() -> (r: Vec<Move>)
        ensures
            r@.len() == 330,
            forall|i: int| 0 <= i < 330 ==> r@[i] == spec_exhaustive_at(i),
            forall|m: Move| r@.contains(m) <==> exhaustive_shape(m),
    {
        let mut r: Vec<Move> = Vec::new();
        let mut f: usize = 0;
        while f < 6
            invariant
                f <= 6,
                r@.len() == 45 * f,
                forall|i: int| 0 <= i < r@.len() ==> r@[i] == spec_exhaustive_at(i),
                forall|j: int| 0 <= j < r@.len() ==> exhaustive_shape(#[trigger] r@[j]),
                forall|m: Move|
                    exhaustive_shape(m) && m is Normal && move_from(m) < f ==> r@.contains(m),
            decreases 6 - f,
        {
            let mut t: usize = 0;
            while t < 6
                invariant
                    f < 6,
                    t <= 6,
                    r@.len() == 45 * f + 9 * (if t <= f { t as int } else { t - 1 }),
                    forall|i: int| 0 <= i < r@.len() ==> r@[i] == spec_exhaustive_at(i),
                    forall|j: int| 0 <= j < r@.len() ==> exhaustive_shape(#[trigger] r@[j]),
                    forall|m: Move|
                        exhaustive_shape(m) && m is Normal && move_from(m) < f ==> r@.contains(m),
                    forall|m: Move|
                        exhaustive_shape(m) && m is Normal && move_from(m) == f && move_to(m) < t
                            ==> r@.contains(m),
                decreases 6 - t,
            {
                if t != f {
                    let mut c: usize = 1;
                    while c <= 9
                        invariant
                            f < 6,
                            t < 6,
                            t != f,
                            1 <= c <= 10,
                            r@.len() == 45 * f + 9 * (if t < f { t as int } else { t - 1 }) + (c
                                - 1),
                            forall|i: int| 0 <= i < r@.len() ==> r@[i] == spec_exhaustive_at(i),
                            forall|j: int| 0 <= j < r@.len() ==> exhaustive_shape(#[trigger] r@[j]),
                            forall|m: Move|
                                exhaustive_shape(m) && m is Normal && move_from(m) < f
                                    ==> r@.contains(m),
                            forall|m: Move|
                                exhaustive_shape(m) && m is Normal && move_from(m) == f
                                    && move_to(m) < t ==> r@.contains(m),
                            forall|c0: usize|
                                1 <= c0 < c ==> r@.contains((Move::Normal { from: f, to: t, count: c0 })),
                        decreases 10 - c,
                    {
                        let ghost idx = r@.len() as int;
                        r.push(Move::Normal { from: f, to: t, count: c });
                        proof {
                            let tp = if (t as int) < f { t as int } else { t - 1 };
                            let p = 5 * (f as int) + tp;
                            vstd::arithmetic::div_mod::lemma_fundamental_div_mod_converse_div(
                                idx, 9, p, c - 1);
                            vstd::arithmetic::div_mod::lemma_fundamental_div_mod_converse_mod(
                                idx, 9, p, c - 1);
                            vstd::arithmetic::div_mod::lemma_fundamental_div_mod_converse_div(
                                p, 5, f as int, tp);
                            vstd::arithmetic::div_mod::lemma_fundamental_div_mod_converse_mod(
                                p, 5, f as int, tp);
                            assert(r@[idx] == spec_exhaustive_at(idx));
                        }
                        c += 1;
                    }
                    proof {
                        assert forall|m: Move|
                            exhaustive_shape(m) && m is Normal && move_from(m) == f
                                && move_to(m) == t implies r@.contains(m) by {
                            match m {
                                Move::Normal { from, to, count } => {
                                    assert(r@.contains((Move::Normal { from: f, to: t, count })));
                                },
                                _ => {},
                            }
                        }
                    }
                }
                t += 1;
            }
            f += 1;
        }
        let mut f: usize = 0;
        while f < 6
            invariant
                f <= 6,
                r@.len() == 270 + 5 * f,
                forall|i: int| 0 <= i < r@.len() ==> r@[i] == spec_exhaustive_at(i),
                forall|j: int| 0 <= j < r@.len() ==> exhaustive_shape(#[trigger] r@[j]),
                forall|m: Move| exhaustive_shape(m) && m is Normal ==> r@.contains(m),
                forall|m: Move|
                    exhaustive_shape(m) && m is Cheat && move_from(m) < f ==> r@.contains(m),
            decreases 6 - f,
        {
            let mut t: usize = 0;
            while t < 6
                invariant
                    f < 6,
                    t <= 6,
                    r@.len() == 270 + 5 * f + (if t <= f { t as int } else { t - 1 }),
                    forall|i: int| 0 <= i < r@.len() ==> r@[i] == spec_exhaustive_at(i),
                    forall|j: int| 0 <= j < r@.len() ==> exhaustive_shape(#[trigger] r@[j]),
                    forall|m: Move| exhaustive_shape(m) && m is Normal ==> r@.contains(m),
                    forall|m: Move|
                        exhaustive_shape(m) && m is Cheat && move_from(m) < f ==> r@.contains(m),
                    forall|m: Move|
                        exhaustive_shape(m) && m is Cheat && move_from(m) == f && move_to(m) < t
                            ==> r@.contains(m),
                decreases 6 - t,
            {
                if t != f {
                    let ghost idx = r@.len() as int;
                    r.push(Move::Cheat { from: f, to: t });
                    proof {
                        let tp = if (t as int) < f { t as int } else { t - 1 };
                        let p = 5 * (f as int) + tp;
                        vstd::arithmetic::div_mod::lemma_fundamental_div_mod_converse_div(
                            p, 5, f as int, tp);
                        vstd::arithmetic::div_mod::lemma_fundamental_div_mod_converse_mod(
                            p, 5, f as int, tp);
                        assert(r@[idx] == spec_exhaustive_at(idx));
                    }
                }
                t += 1;
            }
            f += 1;
        }
        let mut f: usize = 0;
        while f < 6
            invariant
                f <= 6,
                r@.len() == 300 + 5 * f,
                forall|i: int| 0 <= i < r@.len() ==> r@[i] == spec_exhaustive_at(i),
                forall|j: int| 0 <= j < r@.len() ==> exhaustive_shape(#[trigger] r@[j]),
                forall|m: Move| exhaustive_shape(m) && m is Normal ==> r@.contains(m),
                forall|m: Move| exhaustive_shape(m) && m is Cheat ==> r@.contains(m),
                forall|m: Move|
                    exhaustive_shape(m) && m is UnCheat && move_from(m) < f ==> r@.contains(m),
            decreases 6 - f,
        {
            let mut t: usize = 0;
            while t < 6
                invariant
                    f < 6,
                    t <= 6,
                    r@.len() == 300 + 5 * f + (if t <= f { t as int } else { t - 1 }),
                    forall|i: int| 0 <= i < r@.len() ==> r@[i] == spec_exhaustive_at(i),
                    forall|j: int| 0 <= j < r@.len() ==> exhaustive_shape(#[trigger] r@[j]),
                    forall|m: Move| exhaustive_shape(m) && m is Normal ==> r@.contains(m),
                    forall|m: Move| exhaustive_shape(m) && m is Cheat ==> r@.contains(m),
                    forall|m: Move|
                        exhaustive_shape(m) && m is UnCheat && move_from(m) < f ==> r@.contains(m),
                    forall|m: Move|
                        exhaustive_shape(m) && m is UnCheat && move_from(m) == f && move_to(m) < t
                            ==> r@.contains(m),
                decreases 6 - t,
            {
                if t != f {
                    let ghost idx = r@.len() as int;
                    r.push(Move::UnCheat { from: f, to: t });
                    proof {
                        let tp = if (t as int) < f { t as int } else { t - 1 };
                        let p = 5 * (f as int) + tp;
                        vstd::arithmetic::div_mod::lemma_fundamental_div_mod_converse_div(
                            p, 5, f as int, tp);
                        vstd::arithmetic::div_mod::lemma_fundamental_div_mod_converse_mod(
                            p, 5, f as int, tp);
                        assert(r@[idx] == spec_exhaustive_at(idx));
                    }
                }
                t += 1;
            }
            f += 1;
        }
        r
    }
}

impl Board {
    /// The narrowed move enumeration: for each pair of columns, emits only
    /// the move shapes whose column states make them plausibly legal.
    /// `apply` still rejects the illegal remainder, and every legal move is
    /// emitted (`lemma_narrowed_enumeration_complete`).
    pub fn possible_moves(&self) -> (r: Vec<Move>)
        ensures
            forall|m: Move| r@.contains(m) <==> narrowed_emits(self@, m),
    {
        let n = self.columns.len();
        let mut r: Vec<Move> = Vec::new();
        let mut from: usize = 0;
        while from < n
            invariant
                from <= n,
                n == self@.len(),
                forall|j: int| 0 <= j < r@.len() ==> narrowed_emits(self@, #[trigger] r@[j]),
                forall|m: Move| narrowed_emits(self@, m) && move_from(m) < from ==> r@.contains(m),
            decreases n - from,
        {
            match &self.columns[from] {
                Column::Solved => {
                    proof {
                        assert(self@[from as int] == ColModel::Solved);
                    }
                },
                Column::Unsolved { cards, cheat: Some(cheat_card) } => {
                    let cc = *cheat_card;
                    proof {
                        assert(self@[from as int] == ColModel::Unsolved {
                            cards: cards@,
                            cheat: Some(cc),
                        });
                    }
                    let mut to: usize = 0;
                    while to < n
                        invariant
                            from < n,
                            to <= n,
                            n == self@.len(),
                            self@[from as int] matches ColModel::Unsolved { cheat: Some(c2), .. }
                                && c2 == cc,
                            forall|j: int|
                                0 <= j < r@.len() ==> narrowed_emits(self@, #[trigger] r@[j]),
                            forall|m: Move|
                                narrowed_emits(self@, m) && move_from(m) < from ==> r@.contains(m),
                            forall|m: Move|
                                narrowed_emits(self@, m) && move_from(m) == from
                                    && move_to(m) < to ==> r@.contains(m),
                        decreases n - to,
                    {
                        match &self.columns[to] {
                            Column::Unsolved { cards: tcards, cheat: None } => {
                                proof {
                                    assert(self@[to as int] == ColModel::Unsolved {
                                        cards: tcards@,
                                        cheat: None,
                                    });
                                }
                                if can_place_on(cc, tcards) {
                                    r.push(Move::UnCheat { from, to });
                                }
                            },
                            Column::Solved => {
                                proof {
                                    assert(self@[to as int] == ColModel::Solved);
                                }
                            },
                            Column::Unsolved { cards: tcards, cheat: Some(tcheat) } => {
                                proof {
                                    assert(self@[to as int] == ColModel::Unsolved {
                                        cards: tcards@,
                                        cheat: Some(*tcheat),
                                    });
                                }
                            },
                        }
                        proof {
                            assert forall|m: Move|
                                narrowed_emits(self@, m) && move_from(m) == from
                                    && move_to(m) == to implies r@.contains(m) by {
                                match m {
                                    Move::UnCheat { from: f2, to: t2 } => {
                                        assert(r@.contains((Move::UnCheat { from, to })));
                                    },
                                    _ => {},
                                }
                            }
                        }
                        to += 1;
                    }
                },
                Column::Unsolved { cards, cheat: None } => {
                    proof {
                        assert(self@[from as int] == ColModel::Unsolved {
                            cards: cards@,
                            cheat: None,
                        });
                    }
                    let mut to: usize = 0;
                    while to < n
                        invariant
                            from < n,
                            to <= n,
                            n == self@.len(),
                            self@[from as int] matches ColModel::Unsolved { cheat: None, .. },
                            forall|j: int|
                                0 <= j < r@.len() ==> narrowed_emits(self@, #[trigger] r@[j]),
                            forall|m: Move|
                                narrowed_emits(self@, m) && move_from(m) < from ==> r@.contains(m),
                            forall|m: Move|
                                narrowed_emits(self@, m) && move_from(m) == from
                                    && move_to(m) < to ==> r@.contains(m),
                        decreases n - to,
                    {
                        match &self.columns[to] {
                            Column::Unsolved { cards: tcards, cheat: None } => {
                                proof {
                                    assert(self@[to as int] == ColModel::Unsolved {
                                        cards: tcards@,
                                        cheat: None,
                                    });
                                }
                                r.push(Move::Cheat { from, to });
                                let mut c: usize = 1;
                                while c <= 9
                                    invariant
                                        from < n,
                                        to < n,
                                        1 <= c <= 10,
                                        n == self@.len(),
                                        self@[from as int] matches ColModel::Unsolved {
                                            cheat: None,
                                            ..
                                        },
                                        self@[to as int] matches ColModel::Unsolved {
                                            cheat: None,
                                            ..
                                        },
                                        forall|j: int|
                                            0 <= j < r@.len() ==> narrowed_emits(
                                                self@,
                                                #[trigger] r@[j],
                                            ),
                                        forall|m: Move|
                                            narrowed_emits(self@, m) && move_from(m) < from
                                                ==> r@.contains(m),
                                        forall|m: Move|
                                            narrowed_emits(self@, m) && move_from(m) == from
                                                && move_to(m) < to ==> r@.contains(m),
                                        r@.contains((Move::Cheat { from, to })),
                                        forall|c0: usize|
                                            1 <= c0 < c ==> r@.contains(
                                                (Move::Normal { from, to, count: c0 }),
                                            ),
                                    decreases 10 - c,
                                {
                                    r.push(Move::Normal { from, to, count: c });
                                    c += 1;
                                }
                            },
                            Column::Solved => {
                                proof {
                                    assert(self@[to as int] == ColModel::Solved);
                                }
                            },
                            Column::Unsolved { cards: tcards, cheat: Some(tcheat) } => {
                                proof {
                                    assert(self@[to as int] == ColModel::Unsolved {
                                        cards: tcards@,
                                        cheat: Some(*tcheat),
                                    });
                                }
                            },
                        }
                        proof {
                            assert forall|m: Move|
                                narrowed_emits(self@, m) && move_from(m) == from
                                    && move_to(m) == to implies r@.contains(m) by {
                                match m {
                                    Move::Normal { from: f2, to: t2, count } => {
                                        assert(r@.contains((Move::Normal { from, to, count })));
                                    },
                                    Move::Cheat { from: f2, to: t2 } => {
                                        assert(r@.contains((Move::Cheat { from, to })));
                                    },
                                    _ => {},
                                }
                            }
                        }
                        to += 1;
                    }
                },
            }
            from += 1;
        }
        r
    }
}

} // verus!

