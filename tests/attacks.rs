use apollo::{AttackTable, Bitboard, Color, Engine};

const F5: u8 = 37;

fn board(squares: &[u8]) -> Bitboard {
    let mut bits: u64 = 0;
    for s in squares {
        bits |= 1u64 << *s;
    }
    Bitboard { bits }
}

#[test]
fn knight_attacks_f5() {
    let table = AttackTable::new();
    // g7, e7, h6, d6, h4, d4, g3, e3
    let expected = board(&[54, 52, 47, 43, 31, 27, 22, 20]);
    assert_eq!(table.knight_attacks(F5), expected);
}

#[test]
fn knight_attacks_corner() {
    let table = AttackTable::new();
    // a1 reaches b3 and c2
    assert_eq!(table.knight_attacks(0), board(&[17, 10]));
}

#[test]
fn king_attacks_center_and_corner() {
    let table = AttackTable::new();
    assert_eq!(table.king_attacks(F5), board(&[28, 29, 30, 36, 38, 44, 45, 46]));
    assert_eq!(table.king_attacks(63), board(&[62, 55, 54]));
}

#[test]
fn pawn_attacks_by_color() {
    let table = AttackTable::new();
    assert_eq!(table.pawn_attacks(F5, Color::White), board(&[44, 46]));
    assert_eq!(table.pawn_attacks(F5, Color::Black), board(&[28, 30]));
    // a white pawn on the a-file attacks one square only
    assert_eq!(table.pawn_attacks(8, Color::White), board(&[17]));
    // a pawn on its own back rank still gets an answer
    assert_eq!(table.pawn_attacks(3, Color::White), board(&[10, 12]));
    assert_eq!(table.pawn_attacks(3, Color::Black), Bitboard::none());
}

#[test]
fn queen_attacks_f5_empty_board() {
    let table = AttackTable::new();
    let rank: Vec<u8> = vec![32, 33, 34, 35, 36, 38, 39];
    let file: Vec<u8> = vec![5, 13, 21, 29, 45, 53, 61];
    let diagonal: Vec<u8> = vec![1, 10, 19, 28, 46, 55];
    let anti_diagonal: Vec<u8> = vec![23, 30, 44, 51, 58];
    let mut all = rank.clone();
    all.extend(file);
    all.extend(diagonal);
    all.extend(anti_diagonal);
    let got = table.queen_attacks(F5, Bitboard::none());
    assert_eq!(got, board(&all));
    assert!(!got.contains(F5));
}

#[test]
fn rook_attacks_empty_board_cover_rank_and_file() {
    let table = AttackTable::new();
    for s in 0u8..64 {
        let got = table.rook_attacks(s, Bitboard::none());
        for t in 0u8..64 {
            let same_line = t != s && (t / 8 == s / 8 || t % 8 == s % 8);
            assert_eq!(got.contains(t), same_line);
        }
    }
}

#[test]
fn rook_attacks_stop_at_first_blocker() {
    let table = AttackTable::new();
    // rook on a1, pieces on a3 and d1: a2, a3, b1, c1, d1
    let occ = board(&[16, 3, 40]);
    assert_eq!(table.rook_attacks(0, occ), board(&[8, 16, 1, 2, 3]));
}

#[test]
fn bishop_attacks_stop_at_first_blocker() {
    let table = AttackTable::new();
    // bishop on c1, pieces on e3 and b2: d2, e3, b2
    let occ = board(&[20, 9]);
    assert_eq!(table.bishop_attacks(2, occ), board(&[11, 20, 9]));
}

#[test]
fn queen_is_rook_and_bishop() {
    let table = AttackTable::new();
    let occ = board(&[12, 21, 44, 45, 30, 0, 63]);
    for s in 0u8..64 {
        let q = table.queen_attacks(s, occ);
        let rb = table.rook_attacks(s, occ).union(table.bishop_attacks(s, occ));
        assert_eq!(q, rb);
    }
}

#[test]
fn engine_owns_a_full_table() {
    let engine = Engine::new();
    let other = AttackTable::new();
    assert_eq!(engine.attack_table().knight_attacks(F5), other.knight_attacks(F5));
    assert_eq!(
        engine.attack_table().rook_attacks(0, Bitboard::none()),
        other.rook_attacks(0, Bitboard::none())
    );
}

#[test]
fn bitboard_set_operations() {
    let a = board(&[1, 2, 3]);
    let b = board(&[3, 4]);
    assert_eq!(a.union(b), board(&[1, 2, 3, 4]));
    assert_eq!(a.intersection(b), board(&[3]));
    assert_eq!(Bitboard::from_square(63), board(&[63]));
    assert!(a.contains(2));
    assert!(!a.contains(4));
    assert!(!Bitboard::none().contains(0));
}
