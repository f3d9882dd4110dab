use texel::codec::{DataPoint, FormatError};

fn parse_ok(s: &str) -> DataPoint {
    match DataPoint::parse(s) {
        Ok(dp) => dp,
        Err(e) => panic!("record rejected: {:?}", e),
    }
}

fn sorted(v: &[u16]) -> Vec<u16> {
    let mut s = v.to_vec();
    s.sort();
    s
}

#[test]
fn bare_kings_record() {
    // Bare kings, White to move, target 0.5: phase 0, and nothing active
    // beyond one king piece-square id per side.
    let dp = parse_ok("8/8/8/8/4k3/8/4K3/8 w - - 0 1 ce 0.5");
    assert_eq!(dp.phase, 0);
    // White king on e2 (square 12), file 4: mirrored to file 3, rank flipped.
    assert_eq!(dp.active_white, vec![5 * 64 + 51]);
    // Black king on e4 (square 28), file 4: mirrored to file 3, rank kept.
    assert_eq!(dp.active_black, vec![5 * 64 + 27]);
    assert_eq!(dp.result_num, 5);
    assert_eq!(dp.result_den, 10);
}

#[test]
fn lone_kings_phase_zero() {
    let dp = parse_ok("k7/8/8/8/8/8/8/7K w - - 0 1 ce 1");
    assert_eq!(dp.phase, 0);
}

#[test]
fn one_of_each_piece_phase_sixteen() {
    // One knight, bishop, rook and queen per side: 2 * (1 + 1 + 2 + 4) = 16.
    let dp = parse_ok("nbrqp3/8/8/8/8/8/8/NBRQP3 w - - 0 1 ce 0.5");
    assert_eq!(dp.phase, 16);
}

#[test]
fn phase_clamped_at_twenty_four() {
    // Nine queens far exceed the cap; the counter clamps to 24.
    let dp = parse_ok("QQQQQQQQ/Q7/8/8/8/8/8/8 w - - 0 1 ce 0.5");
    assert_eq!(dp.phase, 24);
}

#[test]
fn bishop_pair_two_bishops_once() {
    let dp = parse_ok("BB6/8/8/8/8/8/8/8 w - - 0 1 ce 0.5");
    let n = dp.active_white.iter().filter(|&&id| id == 538).count();
    assert_eq!(n, 1);
    let n_black = dp.active_black.iter().filter(|&&id| id == 538).count();
    assert_eq!(n_black, 0);
}

#[test]
fn bishop_pair_single_bishop_none() {
    let dp = parse_ok("B7/8/8/8/8/8/8/8 w - - 0 1 ce 0.5");
    let n = dp.active_white.iter().filter(|&&id| id == 538).count();
    assert_eq!(n, 0);
}

#[test]
fn bishop_pair_three_bishops_once() {
    let dp = parse_ok("BBB5/8/8/8/8/8/8/8 w - - 0 1 ce 0.5");
    let n = dp.active_white.iter().filter(|&&id| id == 538).count();
    assert_eq!(n, 1);
}

#[test]
fn lone_knight_corner_mobility() {
    // Knight on a1: attacks b3 and c2, both safe; mobility 2.
    let dp = parse_ok("8/8/8/8/8/8/8/N7 w - - 0 1 ce 0.5");
    // No king: no file mirror; White's ranks are mirrored, a1 -> a8 = 56.
    assert_eq!(dp.active_white, vec![64 + 56, 472 + 2]);
    assert_eq!(dp.active_black, Vec::<u16>::new());
}

#[test]
fn lone_rook_open_file() {
    // Rook on a1 on an empty board: semi-open and full-open file, 14 targets.
    let dp = parse_ok("8/8/8/8/8/8/8/R7 w - - 0 1 ce 0.5");
    assert_eq!(dp.active_white, vec![3 * 64 + 56, 384, 392, 495 + 14]);
}

#[test]
fn rook_file_closed_by_own_pawn() {
    // A friendly pawn ahead on the file: neither file feature, and the pawn
    // blocks the upward ray (13 targets stay).
    let dp = parse_ok("8/8/8/8/P7/8/8/R7 w - - 0 1 ce 0.5");
    assert!(!dp.active_white.contains(&384));
    assert!(!dp.active_white.contains(&392));
    assert!(dp.active_white.contains(&(495 + 10)));
}

#[test]
fn rook_semi_open_behind_enemy_pawn() {
    // Only an enemy pawn shares the file: semi-open but not full-open.
    let dp = parse_ok("8/8/8/8/p7/8/8/R7 w - - 0 1 ce 0.5");
    assert!(dp.active_white.contains(&384));
    assert!(!dp.active_white.contains(&392));
}

#[test]
fn lone_pawn_isolated_and_passed() {
    // Pawn on a2, no neighbours, no enemies: isolated and passed.
    let dp = parse_ok("8/8/8/8/8/8/P7/8 w - - 0 1 ce 0.5");
    assert_eq!(dp.active_white, vec![48, 400, 408 + 48]);
}

#[test]
fn pawn_with_neighbour_not_isolated() {
    let dp = parse_ok("8/8/8/8/8/8/PP6/8 w - - 0 1 ce 0.5");
    assert!(!dp.active_white.contains(&400));
    assert!(!dp.active_white.contains(&401));
}

#[test]
fn pawn_blocked_by_enemy_not_passed() {
    // Enemy pawn ahead on the adjacent file blocks the span.
    let dp = parse_ok("8/8/1p6/8/8/8/P7/8 w - - 0 1 ce 0.5");
    assert!(!dp.active_white.iter().any(|&id| (408..472).contains(&id)));
}

#[test]
fn knight_mobility_respects_pawn_threats() {
    // Knight on a1 attacks b3 and c2; an enemy pawn on d3 defends c2, so
    // only b3 counts.
    let dp = parse_ok("8/8/8/8/8/3p4/8/N7 w - - 0 1 ce 0.5");
    assert!(dp.active_white.contains(&(472 + 1)));
}

#[test]
fn horizontal_mirror_same_features() {
    // A board and its file mirror (king file mirrored too) activate the
    // same feature multiset for each colour.
    let a = parse_ok("r5k1/8/8/8/8/8/P7/K7 w - - 0 1 ce 0.5");
    let b = parse_ok("1k5r/8/8/8/8/8/7P/7K w - - 0 1 ce 0.5");
    assert_eq!(sorted(&a.active_white), sorted(&b.active_white));
    assert_eq!(sorted(&a.active_black), sorted(&b.active_black));
    assert_eq!(a.phase, b.phase);
}

#[test]
fn color_flip_swaps_sides_and_negates_eval() {
    // Swapping colours (with the board mirrored vertically, as the shared
    // feature space requires) exchanges the two sides' features, and for any
    // weight vector the interpolated evaluation flips its sign.
    let a = parse_ok("r5k1/1n6/8/8/3b4/8/P7/K7 w - - 0 1 ce 0.25");
    let b = parse_ok("k7/p7/8/3B4/8/8/1N6/R5K1 b - - 0 1 ce 0.75");
    assert_eq!(sorted(&a.active_white), sorted(&b.active_black));
    assert_eq!(sorted(&a.active_black), sorted(&b.active_white));
    assert_eq!(a.phase, b.phase);
    // Both targets express the same outcome from White's perspective.
    assert_eq!(a.result_num * (b.result_den as i64), b.result_num * (a.result_den as i64));

    // An arbitrary tapered weight vector: the evaluation negates exactly.
    let weight = |id: u16| -> (f64, f64) {
        let x = id as f64;
        (0.5 * x - 17.0, 31.0 - 0.25 * x)
    };
    let eval = |dp: &DataPoint| -> f64 {
        let mut mg = 0.0;
        let mut eg = 0.0;
        for &id in &dp.active_white {
            let (m, e) = weight(id);
            mg += m;
            eg += e;
        }
        for &id in &dp.active_black {
            let (m, e) = weight(id);
            mg -= m;
            eg -= e;
        }
        let phase = dp.phase as f64 / 24.0;
        phase * mg + (1.0 - phase) * eg
    };
    let ea = eval(&a);
    let eb = eval(&b);
    assert!((ea + eb).abs() < 1e-9);
    assert!((ea.abs() - eb.abs()).abs() < 1e-9);
}

#[test]
fn black_to_move_flips_target() {
    let dp = parse_ok("8/8/8/8/8/8/8/8 b - - 0 1 ce 0.25");
    assert_eq!(dp.result_num, 75);
    assert_eq!(dp.result_den, 100);
}

#[test]
fn white_to_move_keeps_target() {
    let dp = parse_ok("8/8/8/8/8/8/8/8 w - - 0 1 ce 0.25");
    assert_eq!(dp.result_num, 25);
    assert_eq!(dp.result_den, 100);
}

#[test]
fn integer_score_parses() {
    let dp = parse_ok("8/8/8/8/8/8/8/8 w - - 0 1 ce 1");
    assert_eq!(dp.result_num, 1);
    assert_eq!(dp.result_den, 1);
}

#[test]
fn unrecognized_board_character_rejected() {
    assert!(matches!(
        DataPoint::parse("8/8/8/8/8/8/8/x7 w - - 0 1 ce 0.5"),
        Err(FormatError::UnrecognizedChar)
    ));
}

#[test]
fn nine_ranks_rejected() {
    assert!(matches!(
        DataPoint::parse("8/8/8/8/8/8/8/8/8 w - - 0 1 ce 0.5"),
        Err(FormatError::BadBoard)
    ));
}

#[test]
fn overfull_rank_rejected() {
    assert!(matches!(
        DataPoint::parse("45/8/8/8/8/8/8/8 w - - 0 1 ce 0.5"),
        Err(FormatError::BadBoard)
    ));
}

#[test]
fn missing_separator_rejected() {
    assert!(matches!(
        DataPoint::parse("8/8/8/8/8/8/8/8 w - - 0 1"),
        Err(FormatError::BadScore)
    ));
}

#[test]
fn missing_side_to_move_rejected() {
    assert!(matches!(
        DataPoint::parse("8/8/8/8/8/8/8/8 ce 0.5"),
        Err(FormatError::MissingSideToMove)
    ));
}

#[test]
fn unparsable_score_rejected() {
    assert!(matches!(
        DataPoint::parse("8/8/8/8/8/8/8/8 w - - 0 1 ce abc"),
        Err(FormatError::BadScore)
    ));
    assert!(matches!(
        DataPoint::parse("8/8/8/8/8/8/8/8 w - - 0 1 ce 0..5"),
        Err(FormatError::BadScore)
    ));
    assert!(matches!(
        DataPoint::parse("8/8/8/8/8/8/8/8 w - - 0 1 ce ."),
        Err(FormatError::BadScore)
    ));
}

#[test]
fn score_beyond_precision_rejected() {
    // More digits than the exact fraction can hold are rejected, not rounded.
    assert!(matches!(
        DataPoint::parse("8/8/8/8/8/8/8/8 w - - 0 1 ce 0.4999999999999999999"),
        Err(FormatError::BadScore)
    ));
    // Eighteen digits still fit.
    let dp = parse_ok("8/8/8/8/8/8/8/8 w - - 0 1 ce 0.49999999999999999");
    assert_eq!(dp.result_num, 49999999999999999);
    assert_eq!(dp.result_den, 100000000000000000);
}

#[test]
fn every_id_addresses_a_feature() {
    // The starting position: every emitted id stays below the feature count.
    let dp = parse_ok("rnbqkbnr/pppppppp/8/8/8/8/PPPPPPPP/RNBQKBNR w KQkq - 0 1 ce 0.5");
    for &id in dp.active_white.iter().chain(dp.active_black.iter()) {
        assert!((id as usize) < texel::offsets::NUM_PARAMS);
    }
    assert_eq!(dp.phase, 24);
    // Per side: one bishop-pair id, 16 piece-square ids, and 7 mobility ids
    // (two knights, two bishops, two rooks, one queen); no pawn is isolated
    // or passed and no rook file is open.
    assert_eq!(dp.active_white.len(), 24);
    assert_eq!(dp.active_black.len(), 24);
    // Both knights attack three squares, none defended by an enemy pawn.
    let knights = dp.active_white.iter().filter(|&&id| id == 472 + 3).count();
    assert_eq!(knights, 2);
    // Both bishops attack just the two friendly pawns beside them.
    let bishops = dp.active_white.iter().filter(|&&id| id == 481 + 2).count();
    assert_eq!(bishops, 2);
}
