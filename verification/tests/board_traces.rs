use words::game::board::PlayError;
use words::game::Board;

fn wl(words: &[&str]) -> Vec<Vec<u8>> {
    let mut v: Vec<Vec<u8>> = words.iter().map(|w| w.as_bytes().to_vec()).collect();
    v.sort();
    v
}

#[test]
fn game_test_hello() {
    let mut board = Board::new(wl(&["HELLO"]), wl(&[]));

    board.put_tile(b'H', 7, 7).unwrap();
    board.put_tile(b'E', 7, 8).unwrap();
    board.put_tile(b'L', 7, 9).unwrap();
    board.put_tile(b'L', 7, 10).unwrap();
    board.put_tile(b'O', 7, 11).unwrap();

    assert_eq!(board.get_word_across(7, 7), Some(b"HELLO".to_vec()));
}

#[test]
fn game_test_fuzz() {
    let mut board = Board::new(wl(&["BA", "BAG", "BO", "BROW", "BROWS", "EX", "HAET", "HO", "JO", "JOW", "JUBE", "JUBES", "LEFTIES", "OX", "RE", "SADDEN", "TO", "TOG", "TOT"]), wl(&[]));

    board.put_tile(b'J', 6, 7).unwrap();
    board.put_tile(b'U', 7, 7).unwrap();
    board.put_tile(b'B', 8, 7).unwrap();
    board.put_tile(b'E', 9, 7).unwrap();
    assert_eq!(board.submit(), Ok(26));

    board.put_tile(b'O', 8, 8).unwrap();
    board.put_tile(b'X', 9, 8).unwrap();
    assert_eq!(board.submit(), Ok(24));

    board.put_tile(b'T', 5, 8).unwrap();
    board.put_tile(b'O', 6, 8).unwrap();
    assert_eq!(board.submit(), Ok(13));

    board.put_tile(b'B', 3, 9).unwrap();
    board.put_tile(b'R', 4, 9).unwrap();
    board.put_tile(b'O', 5, 9).unwrap();
    board.put_tile(b'W', 6, 9).unwrap();
    assert_eq!(board.submit(), Ok(28));

    board.put_tile(b'H', 2, 10).unwrap();
    board.put_tile(b'A', 3, 10).unwrap();
    board.put_tile(b'E', 4, 10).unwrap();
    board.put_tile(b'T', 5, 10).unwrap();
    assert_eq!(board.submit(), Ok(25));

    board.put_tile(b'S', 7, 9).unwrap();
    board.put_tile(b'A', 7, 10).unwrap();
    board.put_tile(b'D', 7, 11).unwrap();
    board.put_tile(b'D', 7, 12).unwrap();
    board.put_tile(b'E', 7, 13).unwrap();
    board.put_tile(b'N', 7, 14).unwrap();
    assert_eq!(board.submit(), Ok(40));

    board.put_tile(b'T', 1, 11).unwrap();
    board.put_tile(b'O', 2, 11).unwrap();
    board.put_tile(b'G', 3, 11).unwrap();
    assert_eq!(board.submit(), Ok(25));

    board.put_tile(b'L', 10, 1).unwrap();
    board.put_tile(b'E', 10, 2).unwrap();
    board.put_tile(b'F', 10, 3).unwrap();
    board.put_tile(b'T', 10, 4).unwrap();
    board.put_tile(b'I', 10, 5).unwrap();
    board.put_tile(b'E', 10, 6).unwrap();
    board.put_tile(b'S', 10, 7).unwrap();
    assert_eq!(board.submit(), Ok(84));

    board.put_tile(b'I', 0, 13).unwrap();
    board.put_tile(b'N', 1, 13).unwrap();
    board.put_tile(b'T', 2, 13).unwrap();
    board.put_tile(b'E', 3, 13).unwrap();
    board.put_tile(b'R', 4, 13).unwrap();
    board.put_tile(b'L', 5, 13).unwrap();
    board.put_tile(b'I', 6, 13).unwrap();
    assert!(matches!(board.submit(), Err(PlayError::WordNotInDictionary)));
}

#[test]
fn game_test_fuzz_2() {
    let mut board = Board::new(wl(&["AR", "AT", "BEDEW", "BY", "COS", "DECAL", "DOURER", "HAM", "HAME", "HI", "HID", "HM", "IT", "JAR", "JARS", "JO", "LEVIGATE", "MY", "NEBS", "NONDAIRY", "OFFS", "OK", "OR", "OUTEATEN", "OVUM", "OX", "PAY", "PE", "PEN", "PIT", "QAT", "SO", "SOILURE", "SOILURES", "TILE", "TO", "TONG", "VUM", "WAGS", "WINTER", "ZINGED", "ZINNIA", "ZINNIAS"]), wl(&[]));

    board.put_tile(b'H', 6, 7).unwrap();
    board.put_tile(b'I', 7, 7).unwrap();
    board.put_tile(b'D', 8, 7).unwrap();
    assert_eq!(board.submit(), Ok(14));

    board.put_tile(b'Z', 8, 2).unwrap();
    board.put_tile(b'I', 8, 3).unwrap();
    board.put_tile(b'N', 8, 4).unwrap();
    board.put_tile(b'G', 8, 5).unwrap();
    board.put_tile(b'E', 8, 6).unwrap();
    assert_eq!(board.submit(), Ok(28));

    board.put_tile(b'I', 9, 2).unwrap();
    board.put_tile(b'N', 10, 2).unwrap();
    board.put_tile(b'N', 11, 2).unwrap();
    board.put_tile(b'I', 12, 2).unwrap();
    board.put_tile(b'A', 13, 2).unwrap();
    assert_eq!(board.submit(), Ok(30));

    board.put_tile(b'J', 13, 1).unwrap();
    board.put_tile(b'R', 13, 3).unwrap();
    assert_eq!(board.submit(), Ok(20));

    board.put_tile(b'N', 10, 4).unwrap();
    board.put_tile(b'E', 11, 4).unwrap();
    board.put_tile(b'B', 12, 4).unwrap();
    board.put_tile(b'S', 13, 4).unwrap();
    assert_eq!(board.submit(), Ok(23));

    board.put_tile(b'W', 11, 0).unwrap();
    board.put_tile(b'I', 11, 1).unwrap();
    board.put_tile(b'T', 11, 3).unwrap();
    board.put_tile(b'R', 11, 5).unwrap();
    assert_eq!(board.submit(), Ok(26));

    board.put_tile(b'V', 4, 8).unwrap();
    board.put_tile(b'U', 5, 8).unwrap();
    board.put_tile(b'M', 6, 8).unwrap();
    assert_eq!(board.submit(), Ok(21));

    board.put_tile(b'O', 1, 4).unwrap();
    board.put_tile(b'U', 2, 4).unwrap();
    board.put_tile(b'T', 3, 4).unwrap();
    board.put_tile(b'E', 4, 4).unwrap();
    board.put_tile(b'A', 5, 4).unwrap();
    board.put_tile(b'T', 6, 4).unwrap();
    board.put_tile(b'E', 7, 4).unwrap();
    assert_eq!(board.submit(), Ok(66));

    board.put_tile(b'O', 0, 5).unwrap();
    board.put_tile(b'X', 1, 5).unwrap();
    assert_eq!(board.submit(), Ok(50));

    board.put_tile(b'O', 10, 5).unwrap();
    board.put_tile(b'N', 10, 6).unwrap();
    board.put_tile(b'D', 10, 7).unwrap();
    board.put_tile(b'A', 10, 8).unwrap();
    board.put_tile(b'I', 10, 9).unwrap();
    board.put_tile(b'R', 10, 10).unwrap();
    board.put_tile(b'Y', 10, 11).unwrap();
    assert_eq!(board.submit(), Ok(76));

    board.put_tile(b'F', 0, 6).unwrap();
    board.put_tile(b'F', 0, 7).unwrap();
    board.put_tile(b'S', 0, 8).unwrap();
    assert_eq!(board.submit(), Ok(30));

    board.put_tile(b'E', 11, 7).unwrap();
    board.put_tile(b'C', 12, 7).unwrap();
    board.put_tile(b'A', 13, 7).unwrap();
    board.put_tile(b'L', 14, 7).unwrap();
    assert_eq!(board.submit(), Ok(27));

    board.put_tile(b'M', 9, 11).unwrap();
    board.put_tile(b'A', 9, 10).unwrap();
    board.put_tile(b'H', 9, 9).unwrap();
    assert_eq!(board.submit(), Ok(38));

    board.put_tile(b'S', 14, 2).unwrap();
    board.put_tile(b'O', 14, 1).unwrap();
    board.put_tile(b'C', 14, 0).unwrap();
    assert_eq!(board.submit(), Ok(40));

    board.put_tile(b'T', 9, 3).unwrap();
    board.put_tile(b'P', 7, 3).unwrap();
    assert_eq!(board.submit(), Ok(17));

    board.put_tile(b'I', 14, 10).unwrap();
    board.put_tile(b'E', 14, 14).unwrap();
    board.put_tile(b'A', 14, 12).unwrap();
    board.put_tile(b'G', 14, 11).unwrap();
    board.put_tile(b'V', 14, 9).unwrap();
    board.put_tile(b'T', 14, 13).unwrap();
    board.put_tile(b'E', 14, 8).unwrap();
    assert_eq!(board.submit(), Ok(92));

    board.put_tile(b'A', 13, 13).unwrap();
    board.put_tile(b'Q', 12, 13).unwrap();
    assert_eq!(board.submit(), Ok(24));

    board.put_tile(b'T', 5, 5).unwrap();
    board.put_tile(b'N', 7, 5).unwrap();
    board.put_tile(b'O', 6, 5).unwrap();
    assert_eq!(board.submit(), Ok(18));

    board.put_tile(b'E', 8, 0).unwrap();
    board.put_tile(b'B', 7, 0).unwrap();
    board.put_tile(b'E', 10, 0).unwrap();
    board.put_tile(b'D', 9, 0).unwrap();
    assert_eq!(board.submit(), Ok(33));

    board.put_tile(b'S', 3, 7).unwrap();
    board.put_tile(b'U', 3, 11).unwrap();
    board.put_tile(b'I', 3, 9).unwrap();
    board.put_tile(b'O', 3, 8).unwrap();
    board.put_tile(b'L', 3, 10).unwrap();
    board.put_tile(b'E', 3, 13).unwrap();
    board.put_tile(b'R', 3, 12).unwrap();
    assert_eq!(board.submit(), Ok(75));

    board.put_tile(b'A', 6, 1).unwrap();
    board.put_tile(b'Y', 7, 1).unwrap();
    board.put_tile(b'P', 5, 1).unwrap();
    assert_eq!(board.submit(), Ok(21));

    board.put_tile(b'K', 1, 9).unwrap();
    board.put_tile(b'O', 1, 8).unwrap();
    assert_eq!(board.submit(), Ok(18));

    board.put_tile(b'W', 0, 14).unwrap();
    board.put_tile(b'G', 2, 14).unwrap();
    board.put_tile(b'S', 3, 14).unwrap();
    board.put_tile(b'A', 1, 14).unwrap();
    assert_eq!(board.submit(), Ok(36));

    board.put_tile(b'O', 2, 2).unwrap();
    board.put_tile(b'D', 1, 2).unwrap();
    board.put_tile(b'R', 4, 2).unwrap();
    board.put_tile(b'U', 3, 2).unwrap();
    board.put_tile(b'R', 6, 2).unwrap();
    board.put_tile(b'E', 5, 2).unwrap();
    assert_eq!(board.submit(), Ok(23));

    board.put_tile(b'I', 7, 12).unwrap();
    board.put_tile(b'T', 6, 12).unwrap();
    board.put_tile(b'E', 9, 12).unwrap();
    board.put_tile(b'L', 8, 12).unwrap();
    assert_eq!(board.submit(), Ok(15));
}

#[test]
fn test_fuzz_3() {
    let mut board = Board::new(wl(&["EN", "FONDLY", "LEAVY", "LO", "ORATION"]), wl(&[]));

    board.write_across(&b"leavy".to_vec(), 7, 7).unwrap();
    assert_eq!(board.submit(), Ok(30));

    board.write_across(&b"oration".to_vec(), 8, 2).unwrap();
    assert_eq!(board.submit(), Ok(65));

    board.write_down(&b"fondly".to_vec(), 2, 11).unwrap();
    assert_eq!(board.submit(), Ok(26));
}

#[test]
fn test_contiguity() {
    let mut board = Board::new(wl(&["EN", "LEAVE", "LO", "ORATION"]), wl(&[]));

    board.write_across(&b"leave".to_vec(), 7, 7).unwrap();
    assert!(matches!(board.submit(), Ok(s) if s > 0));

    board.write_across(&b"oration".to_vec(), 8, 2).unwrap();
    assert!(matches!(board.submit(), Ok(s) if s > 0));

    // a gap between the staged word and a distant staged tile
    board.write_down(&b"floo".to_vec(), 6, 7).unwrap();
    board.put_tile(b'r', 11, 7).unwrap();
    assert!(matches!(board.is_valid(), Err(PlayError::NonContiguous)));
    board.unstage();

    // a word touching nothing that was committed
    board.write_across(&b"fond".to_vec(), 0, 0).unwrap();
    assert!(matches!(board.is_valid(), Err(PlayError::NoAbutment)));
}
