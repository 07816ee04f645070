//! Sets of board squares held as 64-bit masks.
//!
//! A square is a number from 0 (A1) to 63 (H8), counted row by row; bit `s` of a
//! mask stands for square `s`.
use vstd::prelude::*;

verus! {

broadcast use vstd::std_specs::bits::axiom_u64_trailing_zeros;

/// Whether square `s` belongs to `mask`.
pub open spec fn holds(mask: u64, s: int) -> bool {
    0 <= s < 64 && (mask >> (s as u64)) & 1u64 == 1u64
}

/// The squares of `mask` as a set.
pub open spec fn squares(mask: u64) -> Set<int> {
    Set::new(|s: int| holds(mask, s))
}

/// The squares of `mask` below `n`, in ascending order.
pub open spec fn squares_below(mask: u64, n: nat) -> Seq<u8>
    decreases n,
{
    if n == 0 {
        Seq::empty()
    } else if holds(mask, n - 1) {
        squares_below(mask, (n - 1) as nat).push((n - 1) as u8)
    } else {
        squares_below(mask, (n - 1) as nat)
    }
}

/// The squares of `mask`, each once, in ascending order.
pub open spec fn square_list(mask: u64) -> Seq<u8> {
    squares_below(mask, 64)
}

/// Whether a row and a column name a square of the board.
pub open spec fn on_board(row: int, col: int) -> bool {
    0 <= row < 8 && 0 <= col < 8
}

/// The name of a square: its file letter, then its rank digit.
pub open spec fn square_text(square: u8) -> Seq<char> {
    seq![(65 + square % 8) as char, (49 + square / 8) as char]
}

/// Membership after the mask operations that the board rules use.
pub proof fn lemma_holds_ops(a: u64, b: u64, s: int)
    ensures
        holds(a | b, s) == (holds(a, s) || holds(b, s)),
        holds(a & b, s) == (holds(a, s) && holds(b, s)),
        holds(a & !b, s) == (holds(a, s) && !holds(b, s)),
{
    if 0 <= s < 64 {
        let t = s as u64;
        assert(((a | b) >> t) & 1u64 == 1u64 <==> (a >> t) & 1u64 == 1u64 || (b >> t) & 1u64 == 1u64)
            by (bit_vector);
        assert(((a & b) >> t) & 1u64 == 1u64 <==> (a >> t) & 1u64 == 1u64 && (b >> t) & 1u64 == 1u64)
            by (bit_vector);
        assert(((a & !b) >> t) & 1u64 == 1u64 <==> (a >> t) & 1u64 == 1u64 && (b >> t) & 1u64
            != 1u64) by (bit_vector)
            requires
                t < 64,
        ;
    }
}

/// A mask with one bit set holds that square alone.
pub proof fn lemma_holds_single(k: u8, s: int)
    requires
        k < 64,
    ensures
        holds(1u64 << k, s) == (s == k),
{
    if 0 <= s < 64 {
        let t = s as u64;
        let kk = k as u64;
        assert(((1u64 << kk) >> t) & 1u64 == 1u64 <==> t == kk) by (bit_vector)
            requires
                t < 64,
                kk < 64,
        ;
        assert(1u64 << k == 1u64 << kk);
    }
}

/// Testing a mask against one bit tests membership.
pub proof fn lemma_holds_test(mask: u64, k: u8)
    requires
        k < 64,
    ensures
        (mask & (1u64 << k) != 0) == holds(mask, k as int),
{
    let kk = k as u64;
    assert(mask & (1u64 << kk) != 0 <==> (mask >> kk) & 1u64 == 1u64) by (bit_vector)
        requires
            kk < 64,
    ;
    assert(1u64 << k == 1u64 << kk);
}

/// The empty mask holds no square.
pub proof fn lemma_holds_zero(s: int)
    ensures
        !holds(0, s),
{
    if 0 <= s < 64 {
        let t = s as u64;
        assert((0u64 >> t) & 1u64 == 0u64) by (bit_vector);
    }
}

/// The full mask holds every square.
pub proof fn lemma_holds_full(s: int)
    ensures
        holds(u64::MAX, s) == (0 <= s < 64),
{
    if 0 <= s < 64 {
        let t = s as u64;
        assert((u64::MAX >> t) & 1u64 == 1u64) by (bit_vector)
            requires
                t < 64,
        ;
    }
}

/// A mask that is not empty holds a square.
pub proof fn lemma_some_square(mask: u64) -> (s: int)
    requires
        mask != 0,
    ensures
        holds(mask, s),
{
    mask.trailing_zeros() as int
}

/// Two masks with the same squares are the same mask.
pub proof fn lemma_mask_ext(a: u64, b: u64)
    requires
        forall|s: int| holds(a, s) == holds(b, s),
    ensures
        a == b,
{
    if a != b {
        let d = a ^ b;
        assert(d != 0) by (bit_vector)
            requires
                a != b,
                d == a ^ b,
        ;
        let t = d.trailing_zeros() as u64;
        assert((a >> t) & 1u64 == 1u64 <==> (b >> t) & 1u64 != 1u64) by (bit_vector)
            requires
                t < 64,
                d == a ^ b,
                (d >> t) & 1u64 == 1u64,
        ;
        assert(holds(a, t as int) == holds(b, t as int));
    }
}

/// Clearing the lowest set bit removes exactly the lowest square.
proof fn lemma_clear_lowest(mask: u64, s: int)
    requires
        mask != 0,
    ensures
        holds((mask & (mask - 1) as u64) as u64, s) == (holds(mask, s) && s
            != mask.trailing_zeros()),
{
    let z = mask.trailing_zeros() as u64;
    let width = (64 - z) as u64;
    let down = (mask - 1) as u64;
    assert(mask << width == 0);
    if 0 <= s < 64 {
        let t = s as u64;
        assert(((mask & down) >> t) & 1u64 == 1u64 <==> (mask >> t) & 1u64 == 1u64 && t != z)
            by (bit_vector)
            requires
                down == mask - 1,
                width == 64 - z,
                t < 64,
                z < 64,
                (mask >> z) & 1u64 == 1u64,
                mask << width == 0,
        ;
    }
}

/// No square of a mask lies below its lowest one.
proof fn lemma_none_below_lowest(mask: u64, s: int)
    requires
        holds(mask, s),
    ensures
        mask.trailing_zeros() <= s,
{
    let z = mask.trailing_zeros();
    if s < z {
        let t = s as u64;
        assert((mask >> t) & 1u64 == 0u64);
    }
}

/// The squares of a mask are finite in number, at most 64.
pub proof fn lemma_squares_finite(mask: u64)
    ensures
        squares(mask).finite(),
        squares(mask).len() <= 64,
{
    let all = vstd::set_lib::set_int_range(0, 64);
    vstd::set_lib::lemma_int_range(0, 64);
    assert(squares(mask).subset_of(all));
    vstd::set_lib::lemma_len_subset(squares(mask), all);
}

/// What the ascending list below `n` holds: exactly the squares of the mask below
/// `n`, in strictly ascending order, one entry for each of them.
pub proof fn lemma_squares_below(mask: u64, n: nat)
    requires
        n <= 64,
    ensures
        forall|i: int| 0 <= i < squares_below(mask, n).len() ==> #[trigger] squares_below(mask, n)[i]
            < n && holds(mask, squares_below(mask, n)[i] as int),
        forall|i: int, j: int|
            0 <= i < j < squares_below(mask, n).len() ==> squares_below(mask, n)[i]
                < squares_below(mask, n)[j],
        forall|s: u8| s < n && holds(mask, s as int) ==> squares_below(mask, n).contains(s),
        squares_below(mask, n).len() == squares(mask).filter(|s: int| s < n).len(),
        squares(mask).filter(|s: int| s < n).finite(),
    decreases n,
{
    let below = squares(mask).filter(|s: int| s < n);
    if n == 0 {
        assert(below =~= Set::empty());
    } else {
        let m = (n - 1) as nat;
        lemma_squares_below(mask, m);
        let prev = squares_below(mask, m);
        let cur = squares_below(mask, n);
        let before = squares(mask).filter(|s: int| s < m);
        if holds(mask, n - 1) {
            assert(below =~= before.insert(n - 1));
            assert(cur == prev.push((n - 1) as u8));
            assert forall|s: u8| s < n && holds(mask, s as int) implies cur.contains(s) by {
                if s == n - 1 {
                    assert(cur[cur.len() - 1] == s);
                } else {
                    assert(prev.contains(s));
                    let i = choose|i: int| 0 <= i < prev.len() && prev[i] == s;
                    assert(cur[i] == s);
                }
            }
        } else {
            assert(below =~= before);
            assert forall|s: u8| s < n && holds(mask, s as int) implies cur.contains(s) by {
                assert(s < m);
            }
        }
    }
}

/// The ascending list of a mask: its members are the squares of the mask, it is
/// strictly ascending, and it has one entry for each square.
pub proof fn lemma_square_list(mask: u64)
    ensures
        forall|i: int| 0 <= i < square_list(mask).len() ==> #[trigger] square_list(mask)[i] < 64 && holds(
            mask,
            square_list(mask)[i] as int,
        ),
        forall|i: int, j: int|
            0 <= i < j < square_list(mask).len() ==> square_list(mask)[i] < square_list(mask)[j],
        forall|s: u8| holds(mask, s as int) ==> square_list(mask).contains(s),
        square_list(mask).len() == squares(mask).len(),
        square_list(mask).len() <= 64,
        (square_list(mask).len() == 0) == (mask == 0),
{
    lemma_squares_below(mask, 64);
    lemma_squares_finite(mask);
    assert(squares(mask).filter(|s: int| s < 64) =~= squares(mask));
    if mask != 0 {
        let s = lemma_some_square(mask);
        assert(holds(mask, (s as u8) as int));
        assert(square_list(mask).contains(s as u8));
    } else if square_list(mask).len() > 0 {
        lemma_holds_zero(square_list(mask)[0] as int);
    }
}

/// Squares that the mask lacks add nothing to the ascending list.
proof fn lemma_squares_below_gap(mask: u64, lo: nat, hi: nat)
    requires
        lo <= hi <= 64,
        forall|s: int| lo <= s < hi ==> !holds(mask, s),
    ensures
        squares_below(mask, hi) == squares_below(mask, lo),
    decreases hi - lo,
{
    if lo < hi {
        lemma_squares_below_gap(mask, lo, (hi - 1) as nat);
    }
}

/// The mask of the square at `row` and `col`.
pub fn bit_at(row: u8, col: u8) -> (mask: u64)
    requires
        row * 8 + col < 64,
    ensures
        mask == 1u64 << ((row * 8 + col) as u8),
        forall|s: int| #[trigger] holds(mask, s) == (s == row * 8 + col),
{
    let k: u8 = row * 8 + col;
    proof {
        assert forall|s: int| #[trigger] holds(1u64 << k, s) == (s == row * 8 + col) by {
            lemma_holds_single(k, s);
        }
    }
    1u64 << k
}

/// Whether `row` and `col` name a square of the board.
pub fn in_board(row: i8, col: i8) -> (inside: bool)
    ensures
        inside == on_board(row as int, col as int),
{
    0 <= row && row < 8 && 0 <= col && col < 8
}

/// The name of a square, such as `D3`.
pub fn square_name(square: u8) -> (name: String)
    ensures
        name@ == square_text(square),
{
    let file: char = (65u8 + (square % 8)) as char;
    let rank: char = (49u8 + (square / 8)) as char;
    let mut name = String::new();
    name.push(file);
    name.push(rank);
    name
}

/// The number of squares in a mask.
pub fn count_squares(mask: u64) -> (count: u32)
    ensures
        count == squares(mask).len(),
        count <= 64,
{
    let mut rest = mask;
    let mut count: u32 = 0;
    proof {
        lemma_squares_finite(mask);
    }
    while rest != 0
        invariant
            squares(rest).finite(),
            count + squares(rest).len() == squares(mask).len(),
            squares(mask).len() <= 64,
        decreases squares(rest).len(),
    {
        let ghost low = rest.trailing_zeros() as int;
        let next = rest & (rest - 1);
        proof {
            assert forall|s: int| #[trigger] holds(next, s) == (holds(rest, s) && s != low) by {
                lemma_clear_lowest(rest, s);
            }
            assert(holds(rest, low));
            assert(squares(next) =~= squares(rest).remove(low));
            lemma_squares_finite(next);
        }
        rest = next;
        count = count + 1;
    }
    proof {
        assert forall|s: int| !holds(rest, s) by {
            lemma_holds_zero(s);
        }
        assert(squares(rest) =~= Set::empty());
    }
    count
}

/// The squares of a mask in ascending order.
pub fn bits(mask: u64) -> (list: Vec<u8>)
    ensures
        list@ == square_list(mask),
{
    let mut list: Vec<u8> = Vec::new();
    let mut rest = mask;
    let ghost mut done: nat = 0;
    while rest != 0
        invariant
            done <= 64,
            list@ == squares_below(mask, done),
            forall|s: int| #[trigger] holds(rest, s) == (holds(mask, s) && s >= done),
        decreases 64 - done,
    {
        let square = rest.trailing_zeros() as u8;
        let next = rest & (rest - 1);
        proof {
            let low = rest.trailing_zeros() as int;
            assert(holds(rest, low));
            assert(holds(mask, low));
            assert forall|s: int| done <= s < low implies !holds(mask, s) by {
                if holds(mask, s) {
                    assert(holds(rest, s));
                    lemma_none_below_lowest(rest, s);
                }
            }
            lemma_squares_below_gap(mask, done, low as nat);
            assert forall|s: int| #[trigger] holds(next, s) == (holds(mask, s) && s >= low + 1) by {
                lemma_clear_lowest(rest, s);
                if holds(rest, s) {
                    lemma_none_below_lowest(rest, s);
                }
            }
            assert(squares_below(mask, (low + 1) as nat) == squares_below(mask, low as nat).push(
                low as u8,
            ));
            done = (low + 1) as nat;
        }
        list.push(square);
        rest = next;
    }
    proof {
        assert forall|s: int| done <= s < 64 implies !holds(mask, s) by {
            lemma_holds_zero(s);
            assert(!holds(rest, s));
        }
        lemma_squares_below_gap(mask, done, 64);
    }
    list
}

/// A square reads back from its name, file letter first and rank digit second, so that
/// different squares have different names.
pub proof fn law_square_reads_back_from_its_name(square: u8)
    ensures
        square_text(square).len() == 2,
        'A' <= square_text(square)[0] <= 'H',
        square < 64 ==> '1' <= square_text(square)[1] <= '8',
        square == (square_text(square)[1] as int - '1' as int) * 8 + (square_text(square)[0] as int
            - 'A' as int),
{
}

/// The list of a mask holds exactly the squares of its set bits, each once and the lower one
/// first.
pub proof fn law_list_is_the_set_bits(mask: u64, s: u8)
    requires
        s < 64,
    ensures
        squares(mask).contains(s as int) == ((mask >> s) & 1 == 1),
        square_list(mask).contains(s) == ((mask >> s) & 1 == 1),
        square_list(mask).len() == squares(mask).len(),
        forall|i: int, j: int|
            0 <= i < j < square_list(mask).len() ==> square_list(mask)[i] < square_list(mask)[j],
        forall|i: int| 0 <= i < square_list(mask).len() ==> #[trigger] square_list(mask)[i] < 64,
{
    lemma_square_list(mask);
    assert(mask >> (s as u64) == mask >> s);
    assert(holds(mask, s as int) == ((mask >> s) & 1 == 1));
    if square_list(mask).contains(s) {
        let i = square_list(mask).index_of(s);
        assert(square_list(mask)[i] == s);
    }
}

} // verus!
