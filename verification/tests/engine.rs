use words::dict::{bytes_lt, word_list_contains, word_list_has_extension};
use words::game::board::PlayError;
use words::game::{Bag, Board, Rack};
use words::greedy::{find_greediest_word, WordChoice};
use words::player::Player;
use words::score_letter;

fn wl(words: &[&str]) -> Vec<Vec<u8>> {
    let mut v: Vec<Vec<u8>> = words.iter().map(|w| w.as_bytes().to_vec()).collect();
    v.sort();
    v
}

#[test]
fn letter_values() {
    assert_eq!(score_letter(b'A'), 1);
    assert_eq!(score_letter(b'D'), 2);
    assert_eq!(score_letter(b'B'), 3);
    assert_eq!(score_letter(b'F'), 4);
    assert_eq!(score_letter(b'K'), 5);
    assert_eq!(score_letter(b'J'), 8);
    assert_eq!(score_letter(b'Q'), 10);
    assert_eq!(score_letter(b'Z'), 10);
    assert_eq!(score_letter(b'*'), 0);
}

#[test]
fn first_play_touches_centre() {
    // H4 E1 L1 L1 O1, the O on a double-letter square, doubled by the centre
    // square's word multiplier: (4+1+1+1+2) * 2.
    let mut board = Board::new(wl(&["HELLO"]), wl(&[]));
    board.put_tile(b'H', 7, 7).unwrap();
    board.put_tile(b'E', 7, 8).unwrap();
    board.put_tile(b'L', 7, 9).unwrap();
    board.put_tile(b'L', 7, 10).unwrap();
    board.put_tile(b'O', 7, 11).unwrap();
    assert!(matches!(board.is_valid(), Ok(())));
    assert_eq!(board.submit(), Ok(18));
    assert_eq!(board.get_tile(7, 7), b'H');
}

#[test]
fn score_is_pure() {
    // the same grid and staging, asked twice and with another dictionary,
    // scores identically
    let mut b1 = Board::new(wl(&["HI"]), wl(&[]));
    let mut b2 = Board::new(wl(&["NO", "YES"]), wl(&[]));
    for b in [&mut b1, &mut b2] {
        b.put_tile(b'H', 7, 7).unwrap();
        b.put_tile(b'I', 7, 8).unwrap();
    }
    let s1 = b1.score();
    assert_eq!(s1, b1.score());
    assert_eq!(s1, b2.score());
}

#[test]
fn unstage_restores_grid() {
    let mut board = Board::new(wl(&["HI"]), wl(&[]));
    board.put_tile(b'H', 7, 7).unwrap();
    board.put_tile(b'I', 7, 8).unwrap();
    assert_eq!(board.submit(), Ok(10));
    // stage a few tiles, then take them all back
    board.put_tile(b'X', 6, 7).unwrap();
    board.put_tile(b'Q', 8, 7).unwrap();
    board.unstage();
    assert_eq!(board.get_tile(6, 7), b'-');
    assert_eq!(board.get_tile(8, 7), b'-');
    assert_eq!(board.get_tile(7, 7), b'H');
    assert_eq!(board.get_tile(7, 8), b'I');
}

#[test]
fn unstage_to_rack_returns_tiles() {
    let mut board = Board::new(wl(&[]), wl(&[]));
    let mut rack = Rack::new();
    board.put_tile(b'Q', 7, 7).unwrap();
    board.put_tile(b'Z', 7, 8).unwrap();
    board.unstage_to_rack(&mut rack);
    assert!(rack.has_tile(b'Q'));
    assert!(rack.has_tile(b'Z'));
    assert!(!rack.has_tile(b'A'));
    assert_eq!(board.get_tile(7, 7), b'-');
}

#[test]
fn empty_commit_rejected_frontier_unchanged() {
    let mut board = Board::new(wl(&["HI"]), wl(&[]));
    let before = board.get_neighbors();
    assert!(matches!(board.submit(), Err(PlayError::NoAbutment)));
    assert_eq!(board.get_neighbors(), before);
    assert_eq!(before, vec![(7, 7)]);
}

#[test]
fn swap_without_tiles_rejected() {
    let mut rack = Rack::new();
    rack.add_tile(b'A');
    rack.add_tile(b'B');
    let mut bag = Bag::new();
    let before = rack.get_tiles_vec();
    // asks for a tile the rack does not hold: rejected, counts unchanged
    assert!(matches!(
        rack.swap(&mut bag, vec![b'A', b'Z']),
        Err(PlayError::TileNotInRack)
    ));
    assert_eq!(rack.get_tiles_vec(), before);
    // a swap the rack can cover succeeds and refills to seven
    assert!(rack.swap(&mut bag, vec![b'A']).is_ok());
    assert!(!rack.has_tile(b'*'));
}

#[test]
fn rejected_submit_changes_nothing() {
    let mut board = Board::new(wl(&["HI"]), wl(&[]));
    board.put_tile(b'Z', 7, 7).unwrap();
    board.put_tile(b'Q', 7, 8).unwrap();
    let frontier = board.get_neighbors();
    assert!(matches!(board.submit(), Err(PlayError::WordNotInDictionary)));
    assert_eq!(board.get_tile(7, 7), b'Z');
    assert_eq!(board.get_neighbors(), frontier);
}

#[test]
fn placement_errors() {
    let mut board = Board::new(wl(&["HI"]), wl(&[]));
    assert!(matches!(board.put_tile(b'A', 15, 0), Err(PlayError::OutOfBounds)));
    board.put_tile(b'A', 7, 7).unwrap();
    assert!(matches!(board.put_tile(b'B', 7, 7), Err(PlayError::OccupiedCell)));
    // a play on two different rows and columns has no single axis
    board.put_tile(b'B', 8, 8).unwrap();
    assert!(matches!(board.is_valid(), Err(PlayError::InconsistentAxis)));
    // a rack without the tile refuses to hand it out
    let mut rack = Rack::new();
    rack.add_tile(b'C');
    assert!(matches!(
        board.put_tile_from_rack(&mut rack, b'D', 9, 9),
        Err(PlayError::TileNotInRack)
    ));
    assert!(rack.has_tile(b'C'));
}

#[test]
fn dictionary_lookup() {
    let list = wl(&["AB", "ABACUS", "BED", "CAT"]);
    let ab = b"AB".to_vec();
    let aba = b"ABA".to_vec();
    let zz = b"ZZ".to_vec();
    assert!(word_list_contains(&list, &ab));
    assert!(!word_list_contains(&list, &aba));
    assert!(!word_list_contains(&list, &zz));
    assert!(word_list_has_extension(&list, &aba));
    assert!(!word_list_has_extension(&list, &zz));
    assert!(bytes_lt(&ab, &aba));
    assert!(!bytes_lt(&aba, &ab));
}

#[test]
fn promising_prefixes() {
    let board = Board::new(wl(&["CAT"]), wl(&["C", "CA", "CAT"]));
    assert!(board.substr_promising(&b"CA".to_vec()));
    assert!(board.substr_promising(&b"C".to_vec()));
    assert!(!board.substr_promising(&b"X".to_vec()));
    let words = b"CAT".to_vec();
    assert!(board.word_in_dict(&words));
    assert!(!board.word_in_dict(&b"CA".to_vec()));
}

#[test]
fn bag_holds_standard_distribution() {
    // drain a fresh bag: however it was shuffled, the same ninety-eight
    // tiles come out
    let mut bag = Bag::new();
    assert_eq!(bag.size(), 98);
    let mut drawn: Vec<u8> = Vec::new();
    bag.draw(&mut drawn, 98);
    assert!(bag.is_empty());
    drawn.sort();
    let mut expected: Vec<u8> = Vec::new();
    for (letter, count) in [
        (b'A', 9),
        (b'B', 2),
        (b'C', 2),
        (b'D', 4),
        (b'E', 12),
        (b'F', 2),
        (b'G', 3),
        (b'H', 2),
        (b'I', 9),
        (b'J', 1),
        (b'K', 1),
        (b'L', 4),
        (b'M', 2),
        (b'N', 6),
        (b'O', 8),
        (b'P', 2),
        (b'Q', 1),
        (b'R', 6),
        (b'S', 4),
        (b'T', 6),
        (b'U', 4),
        (b'V', 2),
        (b'W', 2),
        (b'X', 1),
        (b'Y', 2),
        (b'Z', 1),
    ] {
        for _ in 0..count {
            expected.push(letter);
        }
    }
    assert_eq!(drawn, expected);
}

#[test]
fn rack_draws_to_seven() {
    let mut rack = Rack::new();
    let mut bag = Bag::new();
    rack.draw(&mut bag);
    assert!(!rack.is_empty());
    assert_eq!(rack.get_tiles_vec().len(), 7);
    assert_eq!(bag.size(), 91);
    let deque = rack.get_tiles_vecdeque();
    assert_eq!(deque.len(), 7);
}

#[test]
fn search_finds_a_legal_play() {
    let mut board = Board::new(
        wl(&["AT", "CAT", "TA"]),
        wl(&["A", "AT", "C", "CA", "CAT", "T", "TA"]),
    );
    let mut rack = Rack::new();
    rack.add_tile(b'C');
    rack.add_tile(b'A');
    rack.add_tile(b'T');
    let choice = find_greediest_word(&mut board, &rack);
    match choice {
        WordChoice::Found { word, score, row, col, across } => {
            // the candidate the search returns passes validation when staged
            let r = if across {
                board.write_across(&word, row, col)
            } else {
                board.write_down(&word, row, col)
            };
            assert!(r.is_ok());
            assert!(matches!(board.is_valid(), Ok(())));
            assert_eq!(board.submit(), Ok(score));
        },
        WordChoice::NoMove => panic!("a playable rack found no move"),
    }
}

#[test]
fn search_with_empty_rack_finds_nothing() {
    let mut board = Board::new(wl(&["AT"]), wl(&["A", "AT"]));
    let rack = Rack::new();
    assert!(matches!(find_greediest_word(&mut board, &rack), WordChoice::NoMove));
}

#[test]
fn player_configuration() {
    assert!(Player::new(1, false, false).is_some());
    assert!(Player::new(2, true, false).is_some());
    assert!(Player::new(3, false, true).is_some());
    assert!(Player::new(4, true, true).is_none());
    let p = Player::new(1, false, true).unwrap();
    assert_eq!(p.score, 0);
    assert!(p.cpu);
}

#[test]
fn staged_bounds_and_words() {
    let mut board = Board::new(wl(&["HI"]), wl(&[]));
    assert_eq!(board.get_staged_bounds(true), (15, 0));
    board.put_tile(b'H', 7, 6).unwrap();
    board.put_tile(b'I', 7, 9).unwrap();
    assert_eq!(board.get_staged_bounds(true), (6, 9));
    assert_eq!(board.get_leftmost_col(7, 6), Some(6));
    assert_eq!(board.get_rightmost_col(7, 6), Some(6));
    assert_eq!(board.get_upmost_row(7, 6), Some(7));
    assert_eq!(board.get_downmost_row(7, 6), Some(7));
    assert_eq!(board.get_word_across(7, 6), None);
    assert_eq!(board.get_word_down(7, 6), None);
    assert_eq!(board.get_leftmost_col(0, 0), None);
    board.remove_tile(7, 9);
    assert_eq!(board.get_tile(7, 9), b'-');
}

#[test]
fn write_words_from_rack() {
    let mut board = Board::new(wl(&["CAT", "COT"]), wl(&[]));
    let mut rack = Rack::new();
    rack.add_tile(b'C');
    rack.add_tile(b'A');
    rack.add_tile(b'T');
    rack.add_tile(b'O');
    // a word the rack cannot cover is refused atomically
    assert!(matches!(
        board.write_across_from_rack(&mut rack, &b"CATS".to_vec(), 7, 7),
        Err(PlayError::TileNotInRack)
    ));
    assert!(rack.has_tile(b'C'));
    assert_eq!(board.get_tile(7, 7), b'-');
    // off the grid is refused
    assert!(matches!(
        board.write_down_from_rack(&mut rack, &b"CAT".to_vec(), 14, 7),
        Err(PlayError::OutOfBounds)
    ));
    // a covered word is staged and the tiles leave the rack
    board
        .write_across_from_rack(&mut rack, &b"CAT".to_vec(), 7, 7)
        .unwrap();
    assert_eq!(board.submit(), Ok(10));
    assert!(!rack.has_tile(b'C'));
    assert!(!rack.has_tile(b'A'));
    assert!(!rack.has_tile(b'T'));
    // reuse a committed letter: only the missing tiles are consumed
    board
        .write_down_from_rack(&mut rack, &b"co".to_vec(), 7, 7)
        .unwrap();
    assert!(!rack.has_tile(b'O'));
    // a collision with a different committed letter is refused
    assert!(matches!(
        board.write_across_from_rack(&mut rack, &b"TAT".to_vec(), 7, 7),
        Err(PlayError::OccupiedCell)
    ));
}
