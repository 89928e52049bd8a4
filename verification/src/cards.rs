//! The board model: card ranks, columns with cheat slots, whole boards, the
//! solved predicate and the scoring heuristic that guides best-first search.

use vstd::prelude::*;
use vstd::string::StringExecFns;

verus! {

/// One of the nine totally ordered card ranks, from `Six` at the bottom of
/// the order up to `T` at the top.
#[derive(Debug, Clone, Copy, PartialEq, Eq, Hash, Structural)]
pub enum Card {
    Six,
    Seven,
    Eight,
    Nine,
    Ten,
    V,
    D,
    K,
    T,
}

/// The successor relation: the rank that `c` may be stacked onto, or `None`
/// for the maximal rank.
pub open spec fn spec_goes_on(c: Card) -> Option<Card> {
    match c {
        Card::Six => Some(Card::Seven),
        Card::Seven => Some(Card::Eight),
        Card::Eight => Some(Card::Nine),
        Card::Nine => Some(Card::Ten),
        Card::Ten => Some(Card::V),
        Card::V => Some(Card::D),
        Card::D => Some(Card::K),
        Card::K => Some(Card::T),
        Card::T => None,
    }
}

/// The position of a rank in the total order: `Six` is 0, `T` is 8.
pub open spec fn spec_rank_index(c: Card) -> int {
    match c {
        Card::Six => 0,
        Card::Seven => 1,
        Card::Eight => 2,
        Card::Nine => 3,
        Card::Ten => 4,
        Card::V => 5,
        Card::D => 6,
        Card::K => 7,
        Card::T => 8,
    }
}

impl Card {
    /// The rank this card may be placed on, or `None` for the maximal rank.
    pub fn goes_on(&self) -> (r: Option<Card>)
        ensures
            r == spec_goes_on(*self),
    {
        match self {
            Card::Six => Some(Card::Seven),
            Card::Seven => Some(Card::Eight),
            Card::Eight => Some(Card::Nine),
            Card::Nine => Some(Card::Ten),
            Card::Ten => Some(Card::V),
            Card::V => Some(Card::D),
            Card::D => Some(Card::K),
            Card::K => Some(Card::T),
            Card::T => None,
        }
    }

    /// The one-character token that renders this rank.
    pub fn to_str(&self) -> (r: &'static str)
        ensures
            r@ == seq![spec_card_char(*self)],
    {
        match self {
            Card::Six => {
                proof { reveal_strlit("6"); assert("6"@ =~= seq!['6']); }
                "6"
            },
            Card::Seven => {
                proof { reveal_strlit("7"); assert("7"@ =~= seq!['7']); }
                "7"
            },
            Card::Eight => {
                proof { reveal_strlit("8"); assert("8"@ =~= seq!['8']); }
                "8"
            },
            Card::Nine => {
                proof { reveal_strlit("9"); assert("9"@ =~= seq!['9']); }
                "9"
            },
            Card::Ten => {
                proof { reveal_strlit("X"); assert("X"@ =~= seq!['X']); }
                "X"
            },
            Card::V => {
                proof { reveal_strlit("V"); assert("V"@ =~= seq!['V']); }
                "V"
            },
            Card::D => {
                proof { reveal_strlit("D"); assert("D"@ =~= seq!['D']); }
                "D"
            },
            Card::K => {
                proof { reveal_strlit("K"); assert("K"@ =~= seq!['K']); }
                "K"
            },
            Card::T => {
                proof { reveal_strlit("T"); assert("T"@ =~= seq!['T']); }
                "T"
            },
        }
    }

    /// The token that renders this rank when it rests in a cheat slot: the
    /// same character wrapped in inverted-video escapes.
    pub fn to_str_cheat(&self) -> (r: &'static str)
        ensures
            r@ == spec_card_cheat_str(*self),
    {
        match self {
            Card::Six => {
                proof {
                    reveal_strlit("\x1b[30;107m6\x1b[0m");
                    assert("\x1b[30;107m6\x1b[0m"@ =~= spec_card_cheat_str(Card::Six));
                }
                "\x1b[30;107m6\x1b[0m"
            },
            Card::Seven => {
                proof {
                    reveal_strlit("\x1b[30;107m7\x1b[0m");
                    assert("\x1b[30;107m7\x1b[0m"@ =~= spec_card_cheat_str(Card::Seven));
                }
                "\x1b[30;107m7\x1b[0m"
            },
            Card::Eight => {
                proof {
                    reveal_strlit("\x1b[30;107m8\x1b[0m");
                    assert("\x1b[30;107m8\x1b[0m"@ =~= spec_card_cheat_str(Card::Eight));
                }
                "\x1b[30;107m8\x1b[0m"
            },
            Card::Nine => {
                proof {
                    reveal_strlit("\x1b[30;107m9\x1b[0m");
                    assert("\x1b[30;107m9\x1b[0m"@ =~= spec_card_cheat_str(Card::Nine));
                }
                "\x1b[30;107m9\x1b[0m"
            },
            Card::Ten => {
                proof {
                    reveal_strlit("\x1b[30;107mX\x1b[0m");
                    assert("\x1b[30;107mX\x1b[0m"@ =~= spec_card_cheat_str(Card::Ten));
                }
                "\x1b[30;107mX\x1b[0m"
            },
            Card::V => {
                proof {
                    reveal_strlit("\x1b[30;107mV\x1b[0m");
                    assert("\x1b[30;107mV\x1b[0m"@ =~= spec_card_cheat_str(Card::V));
                }
                "\x1b[30;107mV\x1b[0m"
            },
            Card::D => {
                proof {
                    reveal_strlit("\x1b[30;107mD\x1b[0m");
                    assert("\x1b[30;107mD\x1b[0m"@ =~= spec_card_cheat_str(Card::D));
                }
                "\x1b[30;107mD\x1b[0m"
            },
            Card::K => {
                proof {
                    reveal_strlit("\x1b[30;107mK\x1b[0m");
                    assert("\x1b[30;107mK\x1b[0m"@ =~= spec_card_cheat_str(Card::K));
                }
                "\x1b[30;107mK\x1b[0m"
            },
            Card::T => {
                proof {
                    reveal_strlit("\x1b[30;107mT\x1b[0m");
                    assert("\x1b[30;107mT\x1b[0m"@ =~= spec_card_cheat_str(Card::T));
                }
                "\x1b[30;107mT\x1b[0m"
            },
        }
    }

    /// The rank's position in the total order, `Six` first.
    pub fn rank_index(&self) -> (r: u8)
        ensures
            r as int == spec_rank_index(*self),
    {
        match self {
            Card::Six => 0,
            Card::Seven => 1,
            Card::Eight => 2,
            Card::Nine => 3,
            Card::Ten => 4,
            Card::V => 5,
            Card::D => 6,
            Card::K => 7,
            Card::T => 8,
        }
    }
}

/// The single character that renders a rank.
pub open spec fn spec_card_char(c: Card) -> char {
    match c {
        Card::Six => '6',
        Card::Seven => '7',
        Card::Eight => '8',
        Card::Nine => '9',
        Card::Ten => 'X',
        Card::V => 'V',
        Card::D => 'D',
        Card::K => 'K',
        Card::T => 'T',
    }
}

/// The escape sequence that switches on the inverted-video cheat marker.
pub open spec fn spec_cheat_prefix() -> Seq<char> {
    seq!['\x1b', '[', '3', '0', ';', '1', '0', '7', 'm']
}

/// The escape sequence that switches the cheat marker off again.
pub open spec fn spec_cheat_suffix() -> Seq<char> {
    seq!['\x1b', '[', '0', 'm']
}

/// How a card resting in a cheat slot renders: its character wrapped in the
/// marker escapes.
pub open spec fn spec_card_cheat_str(c: Card) -> Seq<char> {
    spec_cheat_prefix() + seq![spec_card_char(c)] + spec_cheat_suffix()
}

/// A column of the board: either terminally solved, or a stack of cards
/// (bottom to top) together with an optional single cheat-slot card.
#[derive(Debug, PartialEq, Eq, Hash)]
pub enum Column {
    Solved,
    Unsolved { cards: Vec<Card>, cheat: Option<Card> },
}

/// The mathematical value of a `Column`.
#[verifier::ext_equal]
pub enum ColModel {
    Solved,
    Unsolved { cards: Seq<Card>, cheat: Option<Card> },
}

impl View for Column {
    type V = ColModel;

    open spec fn view(&self) -> ColModel {
        match self {
            Column::Solved => ColModel::Solved,
            Column::Unsolved { cards, cheat } => ColModel::Unsolved {
                cards: cards@,
                cheat: *cheat,
            },
        }
    }
}

/// The whole puzzle state: an ordered row of columns.
#[derive(Debug, PartialEq, Eq, Hash)]
pub struct Board {
    pub columns: Vec<Column>,
}

impl View for Board {
    type V = Seq<ColModel>;

    open spec fn view(&self) -> Seq<ColModel> {
        self.columns@.map_values(|c: Column| c@)
    }
}

/// Copies a stack of cards.
pub(crate) fn clone_cards(v: &Vec<Card>) -> (r: Vec<Card>)
    ensures
        r@ == v@,
{
    let mut r: Vec<Card> = Vec::new();
    let mut i: usize = 0;
    while i < v.len()
        invariant
            i <= v.len(),
            r@ == v@.take(i as int),
        decreases v.len() - i,
    {
        r.push(v[i]);
        proof {
            assert(r@ =~= v@.take(i + 1));
        }
        i += 1;
    }
    proof {
        assert(r@ =~= v@);
    }
    r
}

impl Clone for Column {
    /// A copy with the same model.
    fn clone(&self) -> (r: Self)
        ensures
            r@ == self@,
    {
        match self {
            Column::Solved => Column::Solved,
            Column::Unsolved { cards, cheat } => Column::Unsolved {
                cards: clone_cards(cards),
                cheat: *cheat,
            },
        }
    }
}

impl Clone for Board {
    /// A copy with the same model.
    fn clone(&self) -> (r: Self)
        ensures
            r@ == self@,
    {
        let mut columns: Vec<Column> = Vec::new();
        let mut i: usize = 0;
        while i < self.columns.len()
            invariant
                i <= self.columns.len(),
                columns@.len() == i,
                forall|j: int| 0 <= j < i ==> columns@[j]@ == self.columns@[j]@,
            decreases self.columns.len() - i,
        {
            columns.push(self.columns[i].clone());
            i += 1;
        }
        let r = Board { columns };
        proof {
            assert(r@ =~= self@);
        }
        r
    }
}

/// A column that no longer needs work: solved, or an empty stack with a free
/// cheat slot.
pub open spec fn col_cleared(c: ColModel) -> bool {
    match c {
        ColModel::Solved => true,
        ColModel::Unsolved { cards, cheat } => cards.len() == 0 && cheat is None,
    }
}

/// A board is solved when every column is cleared.
pub open spec fn spec_is_solved(bv: Seq<ColModel>) -> bool {
    forall|i: int| 0 <= i < bv.len() ==> col_cleared(#[trigger] bv[i])
}

impl Board {
    /// True iff every column is solved or emptied out.
    pub fn is_solved(&self) -> (r: bool)
        ensures
            r == spec_is_solved(self@),
    {
        let mut i: usize = 0;
        while i < self.columns.len()
            invariant
                i <= self.columns.len(),
                forall|j: int| 0 <= j < i ==> col_cleared(#[trigger] self@[j]),
            decreases self.columns.len() - i,
        {
            let cleared = match &self.columns[i] {
                Column::Solved => true,
                Column::Unsolved { cards, cheat } => cards.len() == 0 && cheat.is_none(),
            };
            if !cleared {
                proof {
                    assert(!col_cleared(self@[i as int]));
                }
                return false;
            }
            i += 1;
        }
        true
    }
}

/// The length of the maximal run anchored at the top of a stack: the topmost
/// card, plus every card below it that the card above may be placed on.
pub open spec fn spec_top_run_len(s: Seq<Card>) -> nat
    decreases s.len(),
{
    if s.len() == 0 {
        0
    } else if s.len() == 1 {
        1
    } else if spec_goes_on(s.last()) == Some(s[s.len() - 2]) {
        1 + spec_top_run_len(s.drop_last())
    } else {
        1
    }
}

/// The top-anchored run never exceeds the stack height.
pub proof fn lemma_top_run_le_len(s: Seq<Card>)
    ensures
        spec_top_run_len(s) <= s.len(),
    decreases s.len(),
{
    if s.len() > 1 && spec_goes_on(s.last()) == Some(s[s.len() - 2]) {
        lemma_top_run_le_len(s.drop_last());
    }
}

/// One column's contribution to the board score (lower is better): a large
/// bonus for a solved column; a reward growing with the square of the
/// top-anchored run for a clean column; a penalty growing with the square of
/// the stack height, plus a surcharge, for a column whose cheat slot is full.
pub open spec fn spec_col_score(c: ColModel) -> int {
    match c {
        ColModel::Solved => -1024,
        ColModel::Unsolved { cards, cheat: None } => (
            -((spec_top_run_len(cards) as int) * (spec_top_run_len(cards) as int))
        ),
        ColModel::Unsolved { cards, cheat: Some(_) } => (cards.len() * cards.len() + 256) as int,
    }
}

/// The summed score of the first `n` columns.
pub open spec fn spec_score_upto(bv: Seq<ColModel>, n: int) -> int
    decreases n,
{
    if n <= 0 {
        0
    } else {
        spec_score_upto(bv, n - 1) + spec_col_score(bv[n - 1])
    }
}

/// The board score: the sum of every column's contribution.
pub open spec fn spec_score(bv: Seq<ColModel>) -> int {
    spec_score_upto(bv, bv.len() as int)
}

/// Sizes under which the score arithmetic cannot overflow a 64-bit signed
/// integer: at most 2^20 columns, each stack at most 2^20 cards.
pub open spec fn spec_dims_ok(bv: Seq<ColModel>) -> bool {
    &&& bv.len() <= 0x10_0000
    &&& forall|i: int|
        0 <= i < bv.len() ==> ((#[trigger] bv[i]) matches ColModel::Unsolved { cards, .. }
            ==> cards.len() <= 0x10_0000)
}

/// Replacing one column shifts the prefix sums by exactly that column's
/// score difference.
proof fn lemma_score_upto_update(bv: Seq<ColModel>, i: int, c: ColModel, n: int)
    requires
        0 <= i < bv.len(),
        n <= bv.len(),
    ensures
        spec_score_upto(bv.update(i, c), n) == spec_score_upto(bv, n) + (if i < n {
            spec_col_score(c) - spec_col_score(bv[i])
        } else {
            0
        }),
    decreases n,
{
    if n > 0 {
        lemma_score_upto_update(bv, i, c, n - 1);
    }
}

/// Replacing one column changes the board score by exactly the difference
/// of the two columns' scores.
proof fn lemma_score_update(bv: Seq<ColModel>, i: int, c: ColModel)
    requires
        0 <= i < bv.len(),
    ensures
        spec_score(bv.update(i, c)) == spec_score(bv) + spec_col_score(c) - spec_col_score(bv[i]),
{
    lemma_score_upto_update(bv, i, c, bv.len() as int);
}

/// Heuristic monotonic bonus: turning an unsolved column (of stack height at
/// most nine) into a solved one lowers the board score by more than 337, the
/// largest contribution any non-solved column of that height can make
/// (9 * 9 + 256).
pub proof fn lemma_solved_bonus(bv: Seq<ColModel>, i: int)
    requires
        0 <= i < bv.len(),
        bv[i] matches ColModel::Unsolved { cards, .. } && cards.len() <= 9,
    ensures
        spec_score(bv.update(i, ColModel::Solved)) < spec_score(bv) - 337,
{
    lemma_score_update(bv, i, ColModel::Solved);
    match bv[i] {
        ColModel::Unsolved { cards, cheat } => {
            match cheat {
                None => {
                    lemma_top_run_le_len(cards);
                    let t = spec_top_run_len(cards) as int;
                    assert(t * t <= 81) by (nonlinear_arith)
                        requires 0 <= t <= 9;
                },
                Some(_) => {
                    assert(cards.len() * cards.len() >= 0);
                },
            }
            assert(spec_col_score(bv[i]) >= -81);
        },
        ColModel::Solved => {},
    }
}

/// The length of the maximal run anchored at the top of the stack.
fn top_run_len(cards: &Vec<Card>) -> (r: usize)
    ensures
        r as int == spec_top_run_len(cards@),
        r <= cards@.len(),
{
    proof {
        lemma_top_run_le_len(cards@);
    }
    let n = cards.len();
    if n == 0 {
        return 0;
    }
    let mut run: usize = 1;
    let mut j: usize = n - 1;
    proof {
        assert(cards@.take(n as int) =~= cards@);
    }
    loop
        invariant_except_break
            1 <= run,
            run == n - j,
            j < n == cards@.len(),
            spec_top_run_len(cards@) == run - 1 + spec_top_run_len(cards@.take(j + 1)),
        ensures
            run as int == spec_top_run_len(cards@),
        decreases j,
    {
        if j == 0 {
            proof {
                assert(cards@.take(1).len() == 1);
            }
            break;
        }
        let c = cards[j];
        let below = cards[j - 1];
        let chained = match c.goes_on() {
            Some(g) => g == below,
            None => false,
        };
        proof {
            let s = cards@.take(j + 1);
            assert(s.last() == cards@[j as int]);
            assert(s[j - 1] == cards@[j - 1]);
            if chained {
                assert(s.drop_last() =~= cards@.take(j as int));
            }
        }
        if !chained {
            break;
        }
        run += 1;
        j -= 1;
    }
    run
}

impl Board {
    /// True iff the board is within the size limits that make the score
    /// arithmetic overflow-free: the executable guard for `score`'s
    /// precondition.
    pub fn dims_ok(&self) -> (r: bool)
        ensures
            r == spec_dims_ok(self@),
    {
        let n = self.columns.len();
        if n > 0x10_0000 {
            return false;
        }
        let mut i: usize = 0;
        while i < n
            invariant
                i <= n,
                n == self@.len(),
                n <= 0x10_0000,
                forall|j: int|
                    0 <= j < i ==> ((#[trigger] self@[j]) matches ColModel::Unsolved { cards, .. }
                        ==> cards.len() <= 0x10_0000),
            decreases n - i,
        {
            match &self.columns[i] {
                Column::Solved => {
                    proof {
                        assert(self@[i as int] == ColModel::Solved);
                    }
                },
                Column::Unsolved { cards, cheat } => {
                    proof {
                        assert(self@[i as int] == ColModel::Unsolved {
                            cards: cards@,
                            cheat: *cheat,
                        });
                    }
                    if cards.len() > 0x10_0000 {
                        return false;
                    }
                },
            }
            i += 1;
        }
        true
    }

    /// The heuristic score of the board; lower is better.
    pub fn score(&self) -> (r: i64)
        requires
            spec_dims_ok(self@),
        ensures
            r as int == spec_score(self@),
    {
        let n = self.columns.len();
        let mut acc: i64 = 0;
        let mut i: usize = 0;
        while i < n
            invariant
                i <= n,
                n == self@.len(),
                spec_dims_ok(self@),
                acc as int == spec_score_upto(self@, i as int),
                -0x100_0000_0100 * (i as int) <= acc as int <= 0x100_0000_0100 * (i as int),
            decreases n - i,
        {
            let contribution: i64 = match &self.columns[i] {
                Column::Solved => -1024,
                Column::Unsolved { cards, cheat: None } => {
                    proof {
                        assert(self@[i as int] == ColModel::Unsolved { cards: cards@, cheat: None });
                    }
                    let run = top_run_len(cards);
                    let ri = run as i64;
                    proof {
                        assert(run <= 0x10_0000);
                        assert(0 <= ri * ri <= 0x100_0000_0000) by (nonlinear_arith)
                            requires 0 <= ri <= 0x10_0000;
                    }
                    -(ri * ri)
                },
                Column::Unsolved { cards, cheat: Some(c) } => {
                    proof {
                        assert(self@[i as int] == ColModel::Unsolved { cards: cards@, cheat: Some(*c) });
                    }
                    let li = cards.len() as i64;
                    proof {
                        assert(0 <= li * li <= 0x100_0000_0000) by (nonlinear_arith)
                            requires 0 <= li <= 0x10_0000;
                    }
                    li * li + 256
                },
            };
            acc = acc + contribution;
            i += 1;
        }
        acc
    }
}

/// How many rows a column occupies when rendered: its stack, plus one for a
/// resting cheat card; a solved column shows a single marker.
pub open spec fn spec_col_height(c: ColModel) -> nat {
    match c {
        ColModel::Solved => 1,
        ColModel::Unsolved { cards, cheat } => cards.len() + (if cheat is Some {
            1nat
        } else {
            0
        }),
    }
}

/// The number of rows the rendered board occupies: its tallest column.
pub open spec fn spec_board_height(bv: Seq<ColModel>) -> nat
    decreases bv.len(),
{
    if bv.len() == 0 {
        0
    } else {
        let rest = spec_board_height(bv.drop_last());
        let h = spec_col_height(bv.last());
        if h > rest {
            h
        } else {
            rest
        }
    }
}

/// One rendered cell: the token of the card (or marker) a column shows in a
/// given row followed by a space, or two spaces where the column has ended.
pub open spec fn spec_cell(c: ColModel, row: int) -> Seq<char> {
    match c {
        ColModel::Solved => if row == 0 {
            seq!['S', ' ']
        } else {
            seq![' ', ' ']
        },
        ColModel::Unsolved { cards, cheat } => if 0 <= row < cards.len() {
            seq![spec_card_char(cards[row]), ' ']
        } else if row < spec_col_height(c) {
            spec_card_cheat_str(cheat.unwrap()).push(' ')
        } else {
            seq![' ', ' ']
        },
    }
}

/// One rendered row across the first `k` columns.
pub open spec fn spec_row_upto(bv: Seq<ColModel>, k: int, row: int) -> Seq<char>
    decreases k,
{
    if k <= 0 {
        Seq::empty()
    } else {
        spec_row_upto(bv, k - 1, row) + spec_cell(bv[k - 1], row)
    }
}

/// The first `rows` rendered rows, each terminated by a newline.
pub open spec fn spec_rows_upto(bv: Seq<ColModel>, rows: int) -> Seq<char>
    decreases rows,
{
    if rows <= 0 {
        Seq::empty()
    } else {
        spec_rows_upto(bv, rows - 1) + spec_row_upto(bv, bv.len() as int, rows - 1).push('\n')
    }
}

/// The full rendering of a board: one row per occupied line, top down.
pub open spec fn spec_render(bv: Seq<ColModel>) -> Seq<char> {
    spec_rows_upto(bv, spec_board_height(bv) as int)
}

/// Stacks short enough that a column's rendered height (its cards plus one
/// cheat row) fits in a machine word.
pub open spec fn spec_heights_fit(bv: Seq<ColModel>) -> bool {
    forall|i: int|
        0 <= i < bv.len() ==> ((#[trigger] bv[i]) matches ColModel::Unsolved { cards, .. }
            ==> cards.len() < usize::MAX)
}

/// The number of rows the board occupies when rendered.
fn board_height(b: &Board) -> (r: usize)
    requires
        spec_heights_fit(b@),
    ensures
        r as nat == spec_board_height(b@),
{
    let n = b.columns.len();
    let mut h: usize = 0;
    let mut i: usize = 0;
    while i < n
        invariant
            i <= n,
            n == b@.len(),
            spec_heights_fit(b@),
            h as nat == spec_board_height(b@.take(i as int)),
        decreases n - i,
    {
        let ch: usize = match &b.columns[i] {
            Column::Solved => {
                proof {
                    assert(b@[i as int] == ColModel::Solved);
                }
                1
            },
            Column::Unsolved { cards, cheat } => {
                proof {
                    assert(b@[i as int] == ColModel::Unsolved { cards: cards@, cheat: *cheat });
                }
                if cheat.is_some() {
                    cards.len() + 1
                } else {
                    cards.len()
                }
            },
        };
        if ch > h {
            h = ch;
        }
        proof {
            assert(b@.take(i + 1).drop_last() =~= b@.take(i as int));
            assert(b@.take(i + 1).last() == b@[i as int]);
        }
        i += 1;
    }
    proof {
        assert(b@.take(n as int) =~= b@);
    }
    h
}

impl Board {
    /// Renders the board as a text grid, one token per card, a distinct
    /// marker for solved columns, and inverted-video tokens for cards
    /// resting in cheat slots.
    pub fn to_string(&self) -> (r: String)
        requires
            spec_heights_fit(self@),
        ensures
            r@ == spec_render(self@),
    {
        let height = board_height(self);
        let n = self.columns.len();
        let mut r = String::new();
        let mut row: usize = 0;
        proof {
            reveal_strlit("S ");
            reveal_strlit("  ");
            reveal_strlit(" ");
            reveal_strlit("\n");
            assert("S "@ =~= seq!['S', ' ']);
            assert("  "@ =~= seq![' ', ' ']);
            assert(" "@ =~= seq![' ']);
            assert("\n"@ =~= seq!['\n']);
        }
        while row < height
            invariant
                row <= height,
                n == self@.len(),
                height as nat == spec_board_height(self@),
                spec_heights_fit(self@),
                r@ == spec_rows_upto(self@, row as int),
                "S "@ == seq!['S', ' '],
                "  "@ == seq![' ', ' '],
                " "@ == seq![' '],
                "\n"@ == seq!['\n'],
            decreases height - row,
        {
            let mut cidx: usize = 0;
            while cidx < n
                invariant
                    cidx <= n,
                    n == self@.len(),
                    spec_heights_fit(self@),
                    r@ == spec_rows_upto(self@, row as int) + spec_row_upto(
                        self@,
                        cidx as int,
                        row as int,
                    ),
                    "S "@ == seq!['S', ' '],
                    "  "@ == seq![' ', ' '],
                    " "@ == seq![' '],
                    "\n"@ == seq!['\n'],
                decreases n - cidx,
            {
                let ghost prefix = r@;
                let ghost cell = spec_cell(self@[cidx as int], row as int);
                match &self.columns[cidx] {
                    Column::Solved => {
                        proof {
                            assert(self@[cidx as int] == ColModel::Solved);
                        }
                        if row == 0 {
                            r.append("S ");
                        } else {
                            r.append("  ");
                        }
                        proof {
                            assert(r@ =~= prefix + cell);
                        }
                    },
                    Column::Unsolved { cards, cheat } => {
                        proof {
                            assert(self@[cidx as int] == ColModel::Unsolved {
                                cards: cards@,
                                cheat: *cheat,
                            });
                        }
                        if row < cards.len() {
                            r.append(cards[row].to_str());
                            r.append(" ");
                            proof {
                                assert(r@ =~= prefix + cell);
                            }
                        } else {
                            match cheat {
                                Some(cc) => {
                                    if row == cards.len() {
                                        r.append(cc.to_str_cheat());
                                        r.append(" ");
                                        proof {
                                            assert(cell == spec_card_cheat_str(*cc).push(' '));
                                            assert(r@ =~= prefix + cell);
                                        }
                                    } else {
                                        r.append("  ");
                                        proof {
                                            assert(r@ =~= prefix + cell);
                                        }
                                    }
                                },
                                None => {
                                    r.append("  ");
                                    proof {
                                        assert(r@ =~= prefix + cell);
                                    }
                                },
                            }
                        }
                    },
                }
                proof {
                    assert(spec_row_upto(self@, cidx + 1, row as int) == spec_row_upto(
                        self@,
                        cidx as int,
                        row as int,
                    ) + cell);
                    assert(r@ =~= spec_rows_upto(self@, row as int) + spec_row_upto(
                        self@,
                        cidx + 1,
                        row as int,
                    ));
                }
                cidx += 1;
            }
            r.append("\n");
            proof {
                assert(r@ =~= spec_rows_upto(self@, row as int) + spec_row_upto(
                    self@,
                    n as int,
                    row as int,
                ).push('\n'));
                assert(spec_rows_upto(self@, row + 1) == spec_rows_upto(self@, row as int)
                    + spec_row_upto(self@, n as int, row as int).push('\n'));
                assert(r@ =~= spec_rows_upto(self@, row + 1));
            }
            row += 1;
        }
        r
    }
}

} // verus!
