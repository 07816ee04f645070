//! Positions and the rules of the game.
use vstd::prelude::*;

use crate::side::Side;
use crate::squares;
use crate::squares::{bit_at, count_squares, in_board};

verus! {

/// The eight directions in which discs are bracketed, as steps of row and column.
pub const DIRECTIONS: [(i8, i8); 8] = [
    (-1, -1),
    (-1, 0),
    (-1, 1),
    (0, -1),
    (0, 1),
    (1, -1),
    (1, 0),
    (1, 1),
];

/// A position: the discs of both players and the player to move.
#[derive(Clone, Copy, Debug, PartialEq, Eq, Structural)]
pub struct Board {
    pub black: u64,
    pub white: u64,
    pub side: Side,
}

/// The mask of the squares below `n` that satisfy `p`.
pub open spec fn mask_below(p: spec_fn(int) -> bool, n: nat) -> u64
    decreases n,
{
    if n == 0 {
        0
    } else if p(n - 1) {
        mask_below(p, (n - 1) as nat) | (1u64 << ((n - 1) as u8))
    } else {
        mask_below(p, (n - 1) as nat)
    }
}

/// The mask of the squares that satisfy `p`.
pub open spec fn mask_of(p: spec_fn(int) -> bool) -> u64 {
    mask_below(p, 64)
}

/// `mask_below` holds exactly the squares below `n` that satisfy the predicate.
proof fn lemma_mask_below(p: spec_fn(int) -> bool, n: nat, s: int)
    requires
        n <= 64,
    ensures
        squares::holds(mask_below(p, n), s) == (0 <= s < n && p(s)),
    decreases n,
{
    if n == 0 {
        squares::lemma_holds_zero(s);
    } else {
        lemma_mask_below(p, (n - 1) as nat, s);
        if p(n - 1) {
            squares::lemma_holds_ops(mask_below(p, (n - 1) as nat), 1u64 << ((n - 1) as u8), s);
            squares::lemma_holds_single((n - 1) as u8, s);
        }
    }
}

/// `mask_of` holds exactly the squares that satisfy the predicate.
pub proof fn lemma_mask_of(p: spec_fn(int) -> bool)
    ensures
        forall|s: int| #[trigger] squares::holds(mask_of(p), s) == (0 <= s < 64 && p(s)),
{
    assert forall|s: int| #[trigger] squares::holds(mask_of(p), s) == (0 <= s < 64 && p(s)) by {
        lemma_mask_below(p, 64, s);
    }
}

/// A mask with exactly the squares that satisfy `p` is `mask_of(p)`.
proof fn lemma_is_mask_of(mask: u64, p: spec_fn(int) -> bool)
    requires
        forall|s: int| squares::holds(mask, s) == (0 <= s < 64 && p(s)),
    ensures
        mask == mask_of(p),
{
    lemma_mask_of(p);
    squares::lemma_mask_ext(mask, mask_of(p));
}

/// Whether the square `k` steps from `square` in a direction is on the board.
pub open spec fn ray_inside(square: int, dr: int, dc: int, k: int) -> bool {
    squares::on_board(square / 8 + k * dr, square % 8 + k * dc)
}

/// The square `k` steps from `square` in a direction.
pub open spec fn ray_square(square: int, dr: int, dc: int, k: int) -> int {
    (square / 8 + k * dr) * 8 + (square % 8 + k * dc)
}

/// Whether the first `n` squares from `square` in a direction all hold a disc of the
/// opponent.
pub open spec fn opponent_run(opponent: u64, square: int, dr: int, dc: int, n: int) -> bool {
    forall|k: int|
        #![trigger ray_square(square, dr, dc, k)]
        #![trigger ray_inside(square, dr, dc, k)]
        1 <= k <= n ==> ray_inside(square, dr, dc, k) && squares::holds(
            opponent,
            ray_square(square, dr, dc, k),
        )
}

/// Whether, seen from `square` in a direction, exactly `n` discs of the opponent
/// stand in a row and a disc of the player follows them.
pub open spec fn brackets(
    player: u64,
    opponent: u64,
    square: int,
    dr: int,
    dc: int,
    n: int,
) -> bool {
    &&& 0 <= n
    &&& opponent_run(opponent, square, dr, dc, n)
    &&& ray_inside(square, dr, dc, n + 1)
    &&& !squares::holds(opponent, ray_square(square, dr, dc, n + 1))
    &&& squares::holds(player, ray_square(square, dr, dc, n + 1))
}

/// Whether `target` is one of the opponent's discs that a disc on `square` brackets
/// in a direction.
pub open spec fn bracketed(
    player: u64,
    opponent: u64,
    square: int,
    dr: int,
    dc: int,
    target: int,
) -> bool {
    exists|n: int, k: int|
        #[trigger] brackets(player, opponent, square, dr, dc, n) && 1 <= k <= n && target
            == #[trigger] ray_square(square, dr, dc, k)
}

impl Board {
    /// The discs of the player to move.
    pub open spec fn player(self) -> u64 {
        match self.side {
            Side::Black => self.black,
            Side::White => self.white,
        }
    }

    /// The discs of the other player.
    pub open spec fn opponent(self) -> u64 {
        match self.side {
            Side::Black => self.white,
            Side::White => self.black,
        }
    }

    /// Whether a disc stands on square `s`.
    pub open spec fn taken(self, s: int) -> bool {
        squares::holds(self.black, s) || squares::holds(self.white, s)
    }

    /// The squares on which a disc stands.
    pub open spec fn discs(self) -> Set<int> {
        Set::new(|s: int| self.taken(s))
    }

    /// Whether a disc that the player puts on `square` turns the disc on `target`.
    pub open spec fn turns(self, square: int, target: int) -> bool {
        exists|d: int|
            0 <= d < 8 && #[trigger] bracketed(
                self.player(),
                self.opponent(),
                square,
                DIRECTIONS@[d].0 as int,
                DIRECTIONS@[d].1 as int,
                target,
            )
    }

    /// Whether a disc that the player puts on `square` turns any disc.
    pub open spec fn turns_some(self, square: int) -> bool {
        exists|target: int| self.turns(square, target)
    }

    /// Whether the player may put a disc on square `s`: the square is empty and some
    /// disc is turned.
    pub open spec fn legal(self, s: int) -> bool {
        0 <= s < 64 && !self.taken(s) && self.turns_some(s)
    }

    /// The squares on which the player may put a disc.
    pub open spec fn legal_mask(self) -> u64 {
        mask_of(|s: int| self.legal(s))
    }

    /// The squares that are the player's after a disc was put on `square`.
    pub open spec fn gained(self, square: int) -> spec_fn(int) -> bool {
        |s: int| squares::holds(self.player(), s) || s == square || self.turns(square, s)
    }

    /// The squares that are still the other player's after a disc was put on `square`.
    pub open spec fn kept(self, square: int) -> spec_fn(int) -> bool {
        |s: int| squares::holds(self.opponent(), s) && !self.turns(square, s)
    }

    /// The position after the player has put a disc on `square`.
    pub open spec fn after_move(self, square: int) -> Board {
        let own = mask_of(self.gained(square));
        let rest = mask_of(self.kept(square));
        match self.side {
            Side::Black => Board { black: own, white: rest, side: Side::White },
            Side::White => Board { black: rest, white: own, side: Side::Black },
        }
    }

    /// The position after the player has passed.
    pub open spec fn after_pass(self) -> Board {
        Board { black: self.black, white: self.white, side: self.side.other() }
    }

    /// Whether neither player can move.
    pub open spec fn finished(self) -> bool {
        forall|s: int|
            #![trigger self.legal(s)]
            #![trigger self.after_pass().legal(s)]
            !self.legal(s) && !self.after_pass().legal(s)
    }

    /// The starting position: Black on E4 and D5, White on D4 and E5, Black to move.
    pub open spec fn start() -> Board {
        Board {
            black: mask_of(|s: int| s == 3 * 8 + 4 || s == 4 * 8 + 3),
            white: mask_of(|s: int| s == 3 * 8 + 3 || s == 4 * 8 + 4),
            side: Side::Black,
        }
    }

    /// Whether no square holds a disc of both players.
    pub open spec fn well_formed(self) -> bool {
        forall|s: int| !(squares::holds(self.black, s) && squares::holds(self.white, s))
    }
}

/// The number of bracketed discs in a direction is fixed: a run of `n` that ends
/// with anything but a player's disc, or a longer or shorter one, is no bracket.
proof fn lemma_bracket_unique(
    player: u64,
    opponent: u64,
    square: int,
    dr: int,
    dc: int,
    run: int,
    n: int,
)
    requires
        0 <= run,
        opponent_run(opponent, square, dr, dc, run),
        !ray_inside(square, dr, dc, run + 1) || !squares::holds(
            opponent,
            ray_square(square, dr, dc, run + 1),
        ),
        brackets(player, opponent, square, dr, dc, n),
    ensures
        n == run,
{
    if n < run {
        assert(squares::holds(opponent, ray_square(square, dr, dc, n + 1)));
    } else if n > run {
        assert(squares::holds(opponent, ray_square(square, dr, dc, run + 1)));
    }
}

/// The discs of the opponent that a disc on `square` brackets in one direction.
fn line_flips(player: u64, opponent: u64, square: u8, dr: i8, dc: i8) -> (flips: u64)
    requires
        -1 <= dr <= 1,
        -1 <= dc <= 1,
        dr != 0 || dc != 0,
    ensures
        forall|t: int| #[trigger]
            squares::holds(flips, t) == bracketed(
                player,
                opponent,
                square as int,
                dr as int,
                dc as int,
                t,
            ),
{
    let row: i8 = (square / 8) as i8;
    let col: i8 = (square % 8) as i8;
    let mut r: i8 = row + dr;
    let mut c: i8 = col + dc;
    let mut line: u64 = 0;
    let ghost sq = square as int;
    let ghost (gr, gc) = (dr as int, dc as int);
    let ghost mut k: int = 1;
    proof {
        assert forall|t: int| !#[trigger] squares::holds(line, t) by {
            squares::lemma_holds_zero(t);
        }
        assert(sq / 8 == row && sq % 8 == col);
    }
    while in_board(r, c)
        invariant
            -1 <= dr <= 1,
            -1 <= dc <= 1,
            dr != 0 || dc != 0,
            sq == square as int,
            gr == dr as int,
            gc == dc as int,
            1 <= k,
            r == sq / 8 + k * gr,
            c == sq % 8 + k * gc,
            opponent_run(opponent, sq, gr, gc, k - 1),
            forall|t: int| #[trigger]
                squares::holds(line, t) == exists|j: int|
                    1 <= j < k && t == #[trigger] ray_square(sq, gr, gc, j),
        decreases
            (if dr > 0 {
                8 - r
            } else if dr < 0 {
                r + 1
            } else if dc > 0 {
                8 - c
            } else {
                c + 1
            }),
    {
        let b = bit_at(r as u8, c as u8);
        let ghost here = ray_square(sq, gr, gc, k);
        proof {
            assert(here == r * 8 + c);
            squares::lemma_holds_test(opponent, here as u8);
            squares::lemma_holds_test(player, here as u8);
            assert(squares::holds(1u64 << (here as u8), here)) by {
                squares::lemma_holds_single(here as u8, here);
            }
            assert forall|t: int| squares::holds(b, t) == squares::holds(1u64 << (here as u8), t) by {
                squares::lemma_holds_single(here as u8, t);
            }
            squares::lemma_mask_ext(b, 1u64 << (here as u8));
        }
        if opponent & b != 0 {
            proof {
                assert forall|t: int| #[trigger]
                    squares::holds(line | b, t) == exists|j: int|
                        1 <= j < k + 1 && t == #[trigger] ray_square(sq, gr, gc, j) by {
                    squares::lemma_holds_ops(line, b, t);
                    if squares::holds(line | b, t) {
                        if squares::holds(line, t) {
                            let j = choose|j: int|
                                1 <= j < k && t == #[trigger] ray_square(sq, gr, gc, j);
                            assert(1 <= j < k + 1 && t == ray_square(sq, gr, gc, j));
                        } else {
                            assert(t == ray_square(sq, gr, gc, k));
                        }
                    }
                    if exists|j: int| 1 <= j < k + 1 && t == #[trigger] ray_square(sq, gr, gc, j) {
                        let j = choose|j: int|
                            1 <= j < k + 1 && t == #[trigger] ray_square(sq, gr, gc, j);
                        if j < k {
                            assert(squares::holds(line, t));
                        }
                    }
                }
                assert((k + 1) * gr == k * gr + gr) by (nonlinear_arith);
                assert((k + 1) * gc == k * gc + gc) by (nonlinear_arith);
                k = k + 1;
            }
            line = line | b;
        } else if player & b != 0 {
            proof {
                assert(brackets(player, opponent, sq, gr, gc, k - 1));
                assert forall|t: int| #[trigger]
                    squares::holds(line, t) == bracketed(player, opponent, sq, gr, gc, t) by {
                    if squares::holds(line, t) {
                        let j = choose|j: int|
                            1 <= j < k && t == #[trigger] ray_square(sq, gr, gc, j);
                        assert(brackets(player, opponent, sq, gr, gc, k - 1) && 1 <= j <= k - 1
                            && t == ray_square(sq, gr, gc, j));
                    }
                    if bracketed(player, opponent, sq, gr, gc, t) {
                        let (n, j) = choose|n: int, j: int|
                            #[trigger] brackets(player, opponent, sq, gr, gc, n) && 1 <= j <= n && t
                                == #[trigger] ray_square(sq, gr, gc, j);
                        lemma_bracket_unique(player, opponent, sq, gr, gc, k - 1, n);
                    }
                }
            }
            return line;
        } else {
            proof {
                assert forall|t: int| #[trigger]
                    squares::holds(0, t) == bracketed(player, opponent, sq, gr, gc, t) by {
                    squares::lemma_holds_zero(t);
                    if bracketed(player, opponent, sq, gr, gc, t) {
                        let (n, j) = choose|n: int, j: int|
                            #[trigger] brackets(player, opponent, sq, gr, gc, n) && 1 <= j <= n && t
                                == #[trigger] ray_square(sq, gr, gc, j);
                        lemma_bracket_unique(player, opponent, sq, gr, gc, k - 1, n);
                    }
                }
            }
            return 0;
        }
        r = r + dr;
        c = c + dc;
    }
    proof {
        assert(!ray_inside(sq, gr, gc, k));
        assert forall|t: int| #[trigger]
            squares::holds(0, t) == bracketed(player, opponent, sq, gr, gc, t) by {
            squares::lemma_holds_zero(t);
            if bracketed(player, opponent, sq, gr, gc, t) {
                let (n, j) = choose|n: int, j: int|
                    #[trigger] brackets(player, opponent, sq, gr, gc, n) && 1 <= j <= n && t
                        == #[trigger] ray_square(sq, gr, gc, j);
                lemma_bracket_unique(player, opponent, sq, gr, gc, k - 1, n);
            }
        }
    }
    0
}

impl Board {
    /// The starting position: four discs in the centre, Black to move.
    pub fn initial() -> (board: Board)
        ensures
            board == Board::start(),
    {
        let mut black: u64 = 0;
        let mut white: u64 = 0;
        let e4 = bit_at(3, 4);
        let d5 = bit_at(4, 3);
        let d4 = bit_at(3, 3);
        let e5 = bit_at(4, 4);
        black = black | e4 | d5;
        white = white | d4 | e5;
        proof {
            assert forall|s: int|
                squares::holds(black, s) == (s == 3 * 8 + 4 || s == 4 * 8 + 3)
                    && squares::holds(white, s) == (s == 3 * 8 + 3 || s == 4 * 8 + 4) by {
                squares::lemma_holds_zero(s);
                squares::lemma_holds_ops(0, e4, s);
                squares::lemma_holds_ops(0 | e4, d5, s);
                squares::lemma_holds_ops(0, d4, s);
                squares::lemma_holds_ops(0 | d4, e5, s);
            }
            lemma_is_mask_of(black, |s: int| s == 3 * 8 + 4 || s == 4 * 8 + 3);
            lemma_is_mask_of(white, |s: int| s == 3 * 8 + 3 || s == 4 * 8 + 4);
        }
        Board { black, white, side: Side::Black }
    }

    /// The discs of the player to move.
    pub fn player_bits(self) -> (mask: u64)
        ensures
            mask == self.player(),
    {
        match self.side {
            Side::Black => self.black,
            Side::White => self.white,
        }
    }

    /// The discs of the other player.
    pub fn opponent_bits(self) -> (mask: u64)
        ensures
            mask == self.opponent(),
    {
        match self.side {
            Side::Black => self.white,
            Side::White => self.black,
        }
    }

    /// The squares on which a disc stands.
    pub fn occupied(self) -> (mask: u64)
        ensures
            mask == self.black | self.white,
            forall|s: int| #[trigger] squares::holds(mask, s) == self.taken(s),
    {
        proof {
            assert forall|s: int| #[trigger]
                squares::holds(self.black | self.white, s) == self.taken(s) by {
                squares::lemma_holds_ops(self.black, self.white, s);
            }
        }
        self.black | self.white
    }

    /// The number of empty squares.
    pub fn empties(self) -> (count: u8)
        ensures
            self.discs().finite(),
            count == 64 - self.discs().len(),
    {
        let occupied = self.occupied();
        proof {
            assert(squares::squares(occupied) =~= self.discs());
            squares::lemma_squares_finite(occupied);
        }
        64 - count_squares(occupied) as u8
    }

    /// The numbers of black and white discs.
    pub fn disc_counts(self) -> (counts: (u8, u8))
        ensures
            counts.0 == squares::squares(self.black).len(),
            counts.1 == squares::squares(self.white).len(),
            counts.0 <= 64,
            counts.1 <= 64,
    {
        (count_squares(self.black) as u8, count_squares(self.white) as u8)
    }

    /// The discs that a disc of the player on `square` turns.
    pub fn flips_for(self, square: u8) -> (flips: u64)
        ensures
            forall|t: int| #[trigger] squares::holds(flips, t) == self.turns(square as int, t),
    {
        let player = self.player_bits();
        let opponent = self.opponent_bits();
        let mut flips: u64 = 0;
        let mut d: usize = 0;
        proof {
            assert forall|t: int| !#[trigger] squares::holds(0, t) by {
                squares::lemma_holds_zero(t);
            }
        }
        while d < 8
            invariant
                d <= 8,
                player == self.player(),
                opponent == self.opponent(),
                forall|t: int| #[trigger]
                    squares::holds(flips, t) == exists|e: int|
                        0 <= e < d && #[trigger] bracketed(
                            player,
                            opponent,
                            square as int,
                            DIRECTIONS@[e].0 as int,
                            DIRECTIONS@[e].1 as int,
                            t,
                        ),
            decreases 8 - d,
        {
            let (dr, dc) = DIRECTIONS[d];
            let line = line_flips(player, opponent, square, dr, dc);
            let ghost before = flips;
            flips = flips | line;
            proof {
                assert forall|t: int| #[trigger]
                    squares::holds(flips, t) == exists|e: int|
                        0 <= e < d + 1 && #[trigger] bracketed(
                            player,
                            opponent,
                            square as int,
                            DIRECTIONS@[e].0 as int,
                            DIRECTIONS@[e].1 as int,
                            t,
                        ) by {
                    squares::lemma_holds_ops(before, line, t);
                    assert(squares::holds(line, t) == bracketed(
                        player,
                        opponent,
                        square as int,
                        DIRECTIONS@[d as int].0 as int,
                        DIRECTIONS@[d as int].1 as int,
                        t,
                    ));
                }
            }
            d = d + 1;
        }
        flips
    }

    /// The squares on which the player may put a disc.
    pub fn legal_moves(self) -> (moves: u64)
        ensures
            moves == self.legal_mask(),
            forall|s: int| #[trigger] squares::holds(moves, s) == self.legal(s),
    {
        let mut moves: u64 = 0;
        let occupied = self.occupied();
        let mut square: u8 = 0;
        proof {
            assert forall|s: int| !#[trigger] squares::holds(0, s) by {
                squares::lemma_holds_zero(s);
            }
        }
        while square < 64
            invariant
                square <= 64,
                forall|s: int| #[trigger] squares::holds(occupied, s) == self.taken(s),
                forall|s: int| #[trigger]
                    squares::holds(moves, s) == (s < square && self.legal(s)),
            decreases 64 - square,
        {
            let bit = 1u64 << square;
            let ghost before = moves;
            proof {
                squares::lemma_holds_test(occupied, square);
            }
            if occupied & bit == 0 {
                let flips = self.flips_for(square);
                proof {
                    self.lemma_turns_some(square as int, flips);
                }
                if flips != 0 {
                    moves = moves | bit;
                }
            }
            proof {
                assert forall|s: int| #[trigger]
                    squares::holds(moves, s) == (s < square + 1 && self.legal(s)) by {
                    squares::lemma_holds_ops(before, bit, s);
                    squares::lemma_holds_single(square, s);
                    assert(squares::holds(before, s) == (s < square && self.legal(s)));
                }
            }
            square = square + 1;
        }
        proof {
            lemma_is_mask_of(moves, |s: int| self.legal(s));
        }
        moves
    }

    /// The position after the player has put a disc on `square`, which must turn at
    /// least one disc.
    pub fn apply_move(self, square: u8) -> (board: Board)
        requires
            square < 64,
            self.turns_some(square as int),
        ensures
            board == self.after_move(square as int),
    {
        let placed = 1u64 << square;
        let flips = self.flips_for(square);
        proof {
            let player = self.player();
            let opponent = self.opponent();
            let sq = square as int;
            let next = self.after_move(sq);
            self.lemma_after_move(sq);
            assert forall|s: int|
                squares::holds(player | placed | flips, s) == squares::holds(
                    next.opponent(),
                    s,
                ) && squares::holds(opponent & !flips, s) == squares::holds(next.player(), s) by {
                squares::lemma_holds_ops(player, placed, s);
                squares::lemma_holds_ops(player | placed, flips, s);
                squares::lemma_holds_single(square, s);
                squares::lemma_holds_ops(opponent, flips, s);
                assert(squares::holds(flips, s) == self.turns(sq, s));
            }
            squares::lemma_mask_ext(player | placed | flips, next.opponent());
            squares::lemma_mask_ext(opponent & !flips, next.player());
        }
        match self.side {
            Side::Black => Board {
                black: self.black | placed | flips,
                white: self.white & !flips,
                side: Side::White,
            },
            Side::White => Board {
                black: self.black & !flips,
                white: self.white | placed | flips,
                side: Side::Black,
            },
        }
    }

    /// The position after the player has passed.
    pub fn pass(self) -> (board: Board)
        ensures
            board == self.after_pass(),
    {
        Board { black: self.black, white: self.white, side: self.side.opposite() }
    }

    /// Whether neither player can move.
    pub fn is_terminal(self) -> (terminal: bool)
        ensures
            terminal == self.finished(),
    {
        let occupied = self.occupied();
        if occupied == u64::MAX {
            proof {
                assert forall|s: int| !self.legal(s) && !self.after_pass().legal(s) by {
                    squares::lemma_holds_full(s);
                    assert(squares::holds(occupied, s) == self.taken(s));
                }
            }
            return true;
        }
        let moves = self.legal_moves();
        let replies = self.pass().legal_moves();
        proof {
            self.lemma_finished(moves, replies);
        }
        moves == 0 && replies == 0
    }

    /// The discs after a move: the mover keeps every disc and gains the placed and the
    /// turned ones, the other player loses the turned ones.
    pub proof fn lemma_after_move(self, square: int)
        ensures
            self.after_move(square).side == self.side.other(),
            forall|s: int| #[trigger]
                squares::holds(self.after_move(square).opponent(), s) == (0 <= s < 64 && (
                squares::holds(self.player(), s) || s == square || self.turns(square, s))),
            forall|s: int| #[trigger]
                squares::holds(self.after_move(square).player(), s) == (squares::holds(
                    self.opponent(),
                    s,
                ) && !self.turns(square, s)),
    {
        lemma_mask_of(self.gained(square));
        lemma_mask_of(self.kept(square));
    }

    /// A mask of turned discs is empty exactly where nothing is turned.
    proof fn lemma_turns_some(self, square: int, flips: u64)
        requires
            forall|t: int| #[trigger] squares::holds(flips, t) == self.turns(square, t),
        ensures
            self.turns_some(square) == (flips != 0),
    {
        if flips != 0 {
            let t = squares::lemma_some_square(flips);
            assert(self.turns(square, t));
        }
        if self.turns_some(square) {
            let t = choose|t: int| self.turns(square, t);
            assert(squares::holds(flips, t));
            squares::lemma_holds_zero(t);
        }
    }

    /// The game is over exactly where the masks of both players' moves are empty.
    pub(crate) proof fn lemma_finished(self, moves: u64, replies: u64)
        requires
            moves == self.legal_mask(),
            replies == self.after_pass().legal_mask(),
        ensures
            self.finished() == (moves == 0 && replies == 0),
    {
        lemma_mask_of(|s: int| self.legal(s));
        lemma_mask_of(|s: int| self.after_pass().legal(s));
        if moves == 0 && replies == 0 {
            assert forall|s: int| !self.legal(s) && !self.after_pass().legal(s) by {
                squares::lemma_holds_zero(s);
                assert(squares::holds(moves, s) == self.legal(s));
                assert(squares::holds(replies, s) == self.after_pass().legal(s));
            }
        }
        if moves != 0 {
            let s = squares::lemma_some_square(moves);
            assert(self.legal(s));
        }
        if replies != 0 {
            let s = squares::lemma_some_square(replies);
            assert(self.after_pass().legal(s));
        }
    }
}

} // verus!
