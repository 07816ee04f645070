//! The text key under which a position is stored: the black mask and the white mask
//! as sixteen hexadecimal digits each, then the letter of the player to move.
use vstd::prelude::*;

use crate::board::Board;
use crate::error;
use crate::error::{Error, ErrorView};
use crate::side;
use crate::side::Side;
use crate::text;
use crate::text::{append_hex, parse_unsigned};

verus! {

/// The key of a position.
pub open spec fn key_text(board: Board) -> Seq<char> {
    (text::hex_text(board.black as nat, 16) + text::hex_text(board.white as nat, 16)).push(
        board.side.letter(),
    )
}

/// The mask that half a key writes.
pub open spec fn mask_value(bytes: Seq<u8>) -> Option<int> {
    text::unsigned_value(bytes, 16, u64::MAX as int)
}

/// Why half a key writes no mask.
pub open spec fn mask_fault(bytes: Seq<u8>) -> Seq<char> {
    text::fault_of(bytes, 16, u64::MAX as int).text()
}

/// The position that a key stands for.
pub open spec fn board_of_key(key: Seq<char>) -> Result<Board, ErrorView> {
    let bytes = text::bytes_of(key);
    if bytes.len() != 33 {
        Err(ErrorView::KeyLength(key))
    } else {
        match mask_value(bytes.subrange(0, 16)) {
            None => Err(
                ErrorView::BlackMask { key, cause: mask_fault(bytes.subrange(0, 16)) },
            ),
            Some(black) => match mask_value(bytes.subrange(16, 32)) {
                None => Err(
                    ErrorView::WhiteMask { key, cause: mask_fault(bytes.subrange(16, 32)) },
                ),
                Some(white) => match side::side_of_char(bytes[32] as char) {
                    Err(error) => Err(error),
                    Ok(side) => Ok(Board { black: black as u64, white: white as u64, side }),
                },
            },
        }
    }
}

/// Whether a key of full length can be cut into its parts: no character straddles
/// the end of the black mask, nor that of the white mask where the black one is read.
pub open spec fn splits(key: Seq<char>) -> bool {
    let bytes = text::bytes_of(key);
    bytes.len() == 33 ==> vstd::utf8::is_char_boundary(bytes, 16) && (mask_value(
        bytes.subrange(0, 16),
    ) is Some ==> vstd::utf8::is_char_boundary(bytes, 32))
}

/// Whether a key of full length can be cut into its parts, as [`Board::from_key`]
/// needs it.
pub fn key_splits(key: &str) -> (splittable: bool)
    ensures
        splittable == splits(key@),
{
    let bytes = key.as_bytes();
    if bytes.len() != 33 {
        return true;
    }
    if !key.is_char_boundary(16) {
        return false;
    }
    match parse_unsigned(&bytes[0..16], 16, u64::MAX) {
        Err(_) => true,
        Ok(_) => key.is_char_boundary(32),
    }
}

impl Board {
    /// The position that `key` stands for.
    pub fn from_key(key: &str) -> (board: Result<Board, Error>)
        requires
            splits(key@),
        ensures
            error::outcome(board) == board_of_key(key@),
    {
        let bytes = key.as_bytes();
        if bytes.len() != 33 {
            return Err(Error::KeyLength(key.to_owned()));
        }
        let black = match parse_unsigned(&bytes[0..16], 16, u64::MAX) {
            Err(fault) => {
                return Err(Error::BlackMask { key: key.to_owned(), cause: fault.describe() });
            },
            Ok(black) => black,
        };
        let white = match parse_unsigned(&bytes[16..32], 16, u64::MAX) {
            Err(fault) => {
                return Err(Error::WhiteMask { key: key.to_owned(), cause: fault.describe() });
            },
            Ok(white) => white,
        };
        match Side::from_char(bytes[32] as char) {
            Err(error) => Err(error),
            Ok(side) => Ok(Board { black, white, side }),
        }
    }

    /// The key of the position.
    pub fn key(self) -> (key: String)
        ensures
            key@ == key_text(self),
    {
        let mut key = String::new();
        append_hex(&mut key, self.black, 16);
        append_hex(&mut key, self.white, 16);
        key.push(self.side.to_char());
        key
    }
}

/// Every position reads back from its key, and the key can be cut into its parts.
pub proof fn law_key_round_trip(board: Board)
    ensures
        board_of_key(key_text(board)) == Ok::<Board, ErrorView>(board),
        splits(key_text(board)),
        key_text(board).len() == 33,
{
    let key = key_text(board);
    let bytes = text::bytes_of(key);
    let black = text::hex_text(board.black as nat, 16);
    let white = text::hex_text(board.white as nat, 16);
    text::lemma_hex_ascii(board.black as nat, 16);
    text::lemma_hex_ascii(board.white as nat, 16);
    assert(vstd::utf8::is_ascii_chars(key)) by {
        assert forall|i: int| 0 <= i < key.len() implies '\0' <= #[trigger] key[i] <= '\u{7f}' by {
            if i < 16 {
                assert(key[i] == black[i]);
            } else if i < 32 {
                assert(key[i] == white[i - 16]);
            }
        }
    }
    vstd::utf8::is_ascii_chars_encode_utf8(key);
    let (first, second) = (bytes.subrange(0, 16), bytes.subrange(16, 32));
    assert forall|i: int| 0 <= i < 16 implies #[trigger] first[i] == black[i] as u8 by {
        assert(key[i] == black[i]);
        assert(bytes[i] == key[i] as u8);
    }
    assert forall|i: int| 0 <= i < 16 implies #[trigger] second[i] == white[i] as u8 by {
        assert(key[i + 16] == white[i]);
        assert(bytes[i + 16] == key[i + 16] as u8);
    }
    text::lemma_hex_round_trip(board.black, first);
    text::lemma_hex_round_trip(board.white, second);
    assert(bytes[32] == key[32] as u8);
    vstd::utf8::encode_utf8_valid_utf8(key);
    lemma_ascii_boundary(bytes, 16);
    lemma_ascii_boundary(bytes, 32);
}

/// No character of an ASCII text straddles a byte position.
proof fn lemma_ascii_boundary(bytes: Seq<u8>, index: int)
    requires
        vstd::utf8::valid_utf8(bytes),
        0 <= index < bytes.len(),
        bytes[index] < 128,
    ensures
        vstd::utf8::is_char_boundary(bytes, index),
{
    vstd::utf8::is_char_boundary_iff_not_is_continuation_byte(bytes, index);
    let b = bytes[index];
    assert(!vstd::utf8::is_continuation_byte(b));
}

/// Different positions have different keys.
pub proof fn law_keys_are_unique(a: Board, b: Board)
    requires
        key_text(a) == key_text(b),
    ensures
        a == b,
{
    law_key_round_trip(a);
    law_key_round_trip(b);
}

/// The characters of a key: the sixteen hexadecimal digits of the black mask from the highest
/// down, those of the white mask, and the letter of the player to move.
pub proof fn law_key_characters(board: Board, i: nat)
    requires
        i < 16,
    ensures
        key_text(board).len() == 33,
        ({
            let place = vstd::arithmetic::power::pow(16, (15 - i) as nat);
            let digit = (board.black as int / place) % 16;
            key_text(board)[i as int] as int == if digit < 10 {
                48 + digit
            } else {
                87 + digit
            }
        }),
        ({
            let place = vstd::arithmetic::power::pow(16, (15 - i) as nat);
            let digit = (board.white as int / place) % 16;
            key_text(board)[(16 + i) as int] as int == if digit < 10 {
                48 + digit
            } else {
                87 + digit
            }
        }),
        key_text(board)[32] == match board.side {
            Side::Black => 'b',
            Side::White => 'w',
        },
{
    law_key_round_trip(board);
    text::law_hex_digit_by_place(board.black as nat, 16, (15 - i) as nat);
    text::law_hex_digit_by_place(board.white as nat, 16, (15 - i) as nat);
    let (black, white) = (
        text::hex_text(board.black as nat, 16),
        text::hex_text(board.white as nat, 16),
    );
    assert(key_text(board)[i as int] == black[i as int]);
    assert(key_text(board)[(16 + i) as int] == white[i as int]);
}

/// Any key stands for the two masks that its halves write and the side that its last byte
/// names, and is refused for the first of these that fails.
pub proof fn law_key_stands_for_its_parts(key: Seq<char>)
    ensures
        ({
            let bytes = vstd::utf8::encode_utf8(key);
            let max = 0xffff_ffff_ffff_ffffint;
            let black = text::unsigned_value(bytes.subrange(0, 16), 16, max);
            let white = text::unsigned_value(bytes.subrange(16, 32), 16, max);
            let side = side::side_of_char(bytes[32] as char);
            match board_of_key(key) {
                Ok(board) => bytes.len() == 33 && black == Some(board.black as int) && white
                    == Some(board.white as int) && side == Ok::<Side, ErrorView>(board.side),
                Err(ErrorView::KeyLength(k)) => k == key && bytes.len() != 33,
                Err(ErrorView::BlackMask { key: k, cause }) => k == key && bytes.len() == 33
                    && black is None && cause == text::fault_of(
                    bytes.subrange(0, 16),
                    16,
                    max,
                ).text(),
                Err(ErrorView::WhiteMask { key: k, cause }) => k == key && bytes.len() == 33
                    && black is Some && white is None && cause == text::fault_of(
                    bytes.subrange(16, 32),
                    16,
                    max,
                ).text(),
                Err(error) => bytes.len() == 33 && black is Some && white is Some && side == Err::<
                    Side,
                    ErrorView,
                >(error),
            }
        }),
{
    let bytes = vstd::utf8::encode_utf8(key);
    if bytes.len() == 33 {
        side::law_nothing_else_names_a_side(0, bytes[32] as char);
        text::lemma_value_in_range(bytes.subrange(0, 16), 16, u64::MAX as int);
        text::lemma_value_in_range(bytes.subrange(16, 32), 16, u64::MAX as int);
    }
}

/// Which keys can be cut: all of another length than 33 bytes, and of the others those in
/// which no character lies across the end of the black mask, nor across that of the white one
/// where the black one is read; so every key of plain characters.
pub proof fn law_keys_of_plain_characters_split(key: Seq<char>)
    ensures
        ({
            let bytes = vstd::utf8::encode_utf8(key);
            let black = text::unsigned_value(bytes.subrange(0, 16), 16, 0xffff_ffff_ffff_ffff);
            splits(key) == (bytes.len() != 33 || (vstd::utf8::is_char_boundary(bytes, 16) && (black
                is None || vstd::utf8::is_char_boundary(bytes, 32))))
        }),
        vstd::utf8::is_ascii_chars(key) ==> splits(key),
{
    if vstd::utf8::is_ascii_chars(key) {
        let bytes = vstd::utf8::encode_utf8(key);
        vstd::utf8::is_ascii_chars_encode_utf8(key);
        vstd::utf8::encode_utf8_valid_utf8(key);
        if bytes.len() == 33 {
            assert(bytes[16] == key[16] as u8 && bytes[32] == key[32] as u8);
            lemma_ascii_boundary(bytes, 16);
            lemma_ascii_boundary(bytes, 32);
        }
    }
}

} // verus!
