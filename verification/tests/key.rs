use othello_full_search::board::Board;
use othello_full_search::error::Error;
use othello_full_search::key::key_splits;
use othello_full_search::side::Side;
use othello_full_search::squares::bits;

#[test]
fn key_of_the_starting_position() {
    assert_eq!(Board::initial().key(), "00000008100000000000001008000000b");
}

#[test]
fn positions_read_back_from_their_keys() {
    let start = Board::initial();
    assert_eq!(Board::from_key(&start.key()).unwrap(), start);
    for square in bits(start.legal_moves()) {
        let next = start.apply_move(square);
        let key = next.key();
        assert_eq!(key.len(), 33);
        assert!(key_splits(&key));
        assert_eq!(Board::from_key(&key).unwrap(), next);
        assert_ne!(key, start.key());
    }
    let odd = Board { black: u64::MAX, white: 0x0123_4567_89ab_cdef, side: Side::White };
    assert_eq!(odd.key(), "ffffffffffffffff0123456789abcdefw");
    assert_eq!(Board::from_key(&odd.key()).unwrap(), odd);
}

#[test]
fn keys_may_be_written_in_upper_case() {
    let board = Board::from_key("FFFFFFFFFFFFFFFF0123456789ABCDEFW").unwrap();
    assert_eq!(board.key(), "ffffffffffffffff0123456789abcdefw");
    // A plus sign may stand before the digits of a mask.
    let signed = Board::from_key("+000000000000001+000000000000002b").unwrap();
    assert_eq!((signed.black, signed.white), (1, 2));
}

#[test]
fn keys_of_the_wrong_length_are_refused() {
    let error = Board::from_key("abc").unwrap_err();
    assert!(matches!(error, Error::KeyLength(_)));
    assert_eq!(error.message(), "invalid key length: abc");
    assert_eq!(error.cause(), None);
    assert_eq!(Board::from_key("").unwrap_err().message(), "invalid key length: ");
}

#[test]
fn keys_with_bad_masks_are_refused() {
    let black = "x000000810000000".to_string() + "0000001008000000" + "b";
    let error = Board::from_key(&black).unwrap_err();
    assert!(matches!(error, Error::BlackMask { .. }));
    assert_eq!(error.message(), format!("invalid black mask in key: {black}"));
    assert_eq!(error.cause().unwrap(), "invalid digit found in string");
    let white = "0000000810000000".to_string() + "-000001008000000" + "b";
    let error = Board::from_key(&white).unwrap_err();
    assert!(matches!(error, Error::WhiteMask { .. }));
    assert_eq!(error.message(), format!("invalid white mask in key: {white}"));
    assert_eq!(error.cause().unwrap(), "invalid digit found in string");
}

#[test]
fn keys_with_a_bad_side_are_refused() {
    let key = "0000000810000000".to_string() + "0000001008000000" + "z";
    let error = Board::from_key(&key).unwrap_err();
    assert!(matches!(error, Error::SideChar('z')));
    assert_eq!(error.message(), "invalid side char: z");
}

#[test]
fn keys_that_cannot_be_cut_are_told_apart() {
    // A two-byte character across the end of the black mask.
    let straddling = "000000000000000".to_string() + "\u{e9}" + "0000000000000000";
    assert_eq!(straddling.len(), 33);
    assert!(!key_splits(&straddling));
    // One across the end of the white mask matters only where the black one is read.
    let late = "0000000000000000".to_string() + "000000000000000" + "\u{e9}";
    assert!(!key_splits(&late));
    let unread = "x000000000000000".to_string() + "000000000000000" + "\u{e9}";
    assert!(key_splits(&unread));
    assert!(matches!(Board::from_key(&unread), Err(Error::BlackMask { .. })));
    assert!(key_splits("short"));
}
