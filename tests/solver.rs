use std::collections::{BTreeMap, HashMap, HashSet, VecDeque};

use octopawn::board::{encode, initial_state, make_move, opponent, Cell, Side, State};
use octopawn::codec::{decode, key_text, parse_state};
use octopawn::moves::{generate_legal_moves, is_lost_position, is_opponent_win};
use octopawn::solver::{negamax, solve};

fn state(text: &str) -> State {
    parse_state(text).expect("a well-formed position text")
}

fn texts(tt: &HashMap<u64, i32>) -> BTreeMap<String, i32> {
    let mut out = BTreeMap::new();
    for (k, v) in tt {
        let s = decode(*k).expect("every key decodes");
        out.insert(key_text(&s), *v);
    }
    out
}

#[test]
fn row_zero_side_advances_every_pawn_straight() {
    let s = state("pppp........PPPPB");
    assert_eq!(generate_legal_moves(&s), vec![(0, 4), (1, 5), (2, 6), (3, 7)]);
}

#[test]
fn last_row_side_advances_every_pawn_straight() {
    let s = initial_state();
    assert_eq!(key_text(&s), "pppp........PPPPW");
    assert_eq!(generate_legal_moves(&s), vec![(12, 8), (13, 9), (14, 10), (15, 11)]);
}

#[test]
fn blocked_pawn_captures_diagonally_in_priority_order() {
    // White pawn on 9 (row 2, col 1) is blocked by a Black pawn on 5; Black
    // pawns stand on both diagonals 6 and 4: the diagonal 3 steps away wins.
    let s = state("....ppp..P......W");
    assert_eq!(generate_legal_moves(&s), vec![(9, 6)]);
    // With only the other diagonal available, that one is taken.
    let s = state("....pp...P......W");
    assert_eq!(generate_legal_moves(&s), vec![(9, 4)]);
    // Blocked, with no pawn to take: no move.
    let s = state(".....p...P......W");
    assert_eq!(generate_legal_moves(&s), vec![]);
}

#[test]
fn black_pawn_priority_mirrors_white() {
    // Black pawn on 5 (row 1, col 1), blocked by a White pawn on 9, White
    // pawns on 8 and 10: the diagonal 3 steps away (8) comes first.
    let s = state(".....p..PPP.....B");
    assert_eq!(generate_legal_moves(&s), vec![(5, 8)]);
    let s = state(".....p...PP.....B");
    assert_eq!(generate_legal_moves(&s), vec![(5, 10)]);
}

#[test]
fn diagonals_never_wrap_around_the_grid() {
    // White pawn on column 3, blocked; a Black pawn on the next row's column 0
    // is not diagonal to it.
    let s = state("...p....p..P....W");
    assert_eq!(generate_legal_moves(&s), vec![(11, 7)]);
    let s = state("...p...pp..P....W");
    assert_eq!(generate_legal_moves(&s), vec![]);
}

#[test]
fn pawns_on_their_last_row_do_not_move() {
    let s = state("P..............pW");
    assert_eq!(generate_legal_moves(&s), vec![]);
    let s = state("P..............pB");
    assert_eq!(generate_legal_moves(&s), vec![]);
}

#[test]
fn make_move_moves_the_pawn_and_passes_the_turn() {
    let s = initial_state();
    let t = make_move(&s, 12, 8);
    assert_eq!(key_text(&t), "pppp....P....PPPB");
    assert_eq!(key_text(&s), "pppp........PPPPW");
    let c = make_move(&state("....p....P......W"), 9, 4);
    assert_eq!(key_text(&c), "....P...........B");
}

#[test]
fn opponent_flips_the_side() {
    assert_eq!(opponent(Side::White), Side::Black);
    assert_eq!(opponent(Side::Black), Side::White);
}

#[test]
fn goal_test_looks_at_the_first_opponent_pawn() {
    assert!(is_opponent_win(&state("...p........PPPPW")));
    assert!(!is_opponent_win(&state("pppp........PPPPW")));
    // Only the first Black pawn counts.
    assert!(!is_opponent_win(&state("p..p........PPPPW")));
    assert!(is_opponent_win(&state("pppp....P.......B")));
    assert!(!is_opponent_win(&state("pppp.......P....B")));
    assert!(!is_opponent_win(&state("................W")));
}

#[test]
fn opponent_on_goal_is_a_loss_without_search() {
    let s = state("...p........PPPPW");
    assert!(is_lost_position(&s));
    let mut tt = HashMap::new();
    assert_eq!(negamax(&s, &mut tt), -1);
    assert_eq!(tt.len(), 1);
    assert_eq!(tt.get(&encode(&s)), Some(&-1));
}

#[test]
fn no_legal_move_is_a_loss_without_search() {
    let s = state("pppp............W");
    assert!(generate_legal_moves(&s).is_empty());
    let mut tt = HashMap::new();
    assert_eq!(negamax(&s, &mut tt), -1);
    assert_eq!(tt.len(), 1);
}

#[test]
fn one_move_to_a_lost_position_wins() {
    // White moves 9 -> 5; then Black has no pawn and no move.
    let s = state(".........P......W");
    let mut tt = HashMap::new();
    assert_eq!(negamax(&s, &mut tt), 1);
    assert_eq!(tt.len(), 2);
    let child = state(".....P..........B");
    assert_eq!(tt.get(&encode(&child)), Some(&-1));
}

#[test]
fn stored_keys_answer_without_search() {
    let s = state("pp..........PP..W");
    let mut tt = HashMap::new();
    let first = negamax(&s, &mut tt);
    let before = tt.clone();
    assert!(before.len() > 1);
    assert_eq!(negamax(&s, &mut tt), first);
    assert_eq!(tt, before);
    let c = make_move(&s, 12, 8);
    assert_eq!(negamax(&c, &mut tt), before[&encode(&c)]);
    assert_eq!(tt, before);
}

#[test]
fn repeated_solves_give_identical_databases() {
    let a = texts(&solve(&initial_state()));
    let b = texts(&solve(&initial_state()));
    assert_eq!(a, b);
    let ja = serde_json::to_string_pretty(&a).unwrap();
    let jb = serde_json::to_string_pretty(&b).unwrap();
    assert_eq!(ja, jb);
}

#[test]
fn every_stored_value_is_a_win_or_a_loss() {
    let tt = solve(&initial_state());
    assert!(!tt.is_empty());
    for v in tt.values() {
        assert!(*v == -1 || *v == 1);
    }
}

#[test]
fn stored_values_follow_negamax() {
    let tt = solve(&initial_state());
    for (k, v) in &tt {
        let s = decode(*k).unwrap();
        if is_lost_position(&s) {
            assert_eq!(*v, -1);
        } else {
            let best = generate_legal_moves(&s)
                .iter()
                .map(|&(a, b)| -tt[&encode(&make_move(&s, a, b))])
                .max()
                .unwrap();
            assert_eq!(*v, best);
        }
    }
}

#[test]
fn table_keys_are_exactly_the_reachable_positions() {
    let start = initial_state();
    let mut seen: HashSet<u64> = HashSet::new();
    let mut queue = VecDeque::new();
    seen.insert(encode(&start));
    queue.push_back(start);
    while let Some(s) = queue.pop_front() {
        if is_lost_position(&s) {
            continue;
        }
        for (a, b) in generate_legal_moves(&s) {
            let c = make_move(&s, a, b);
            if seen.insert(encode(&c)) {
                queue.push_back(c);
            }
        }
    }
    let tt = solve(&initial_state());
    let keys: HashSet<u64> = tt.keys().copied().collect();
    assert_eq!(keys, seen);
}

#[test]
fn persisted_database_reads_back_equal() {
    let tt = solve(&initial_state());
    let db: HashMap<String, i32> = texts(&tt).into_iter().collect();
    let json = serde_json::to_string_pretty(&db).unwrap();
    let back: HashMap<String, i32> = serde_json::from_str(&json).unwrap();
    assert_eq!(back, db);
    for (text, v) in &back {
        let s = parse_state(text).unwrap();
        assert_eq!(tt.get(&encode(&s)), Some(v));
    }
}

#[test]
fn key_text_and_parse_state_round_trip() {
    let s = state("p.P.............B");
    assert_eq!(s.board[0], Cell::Black);
    assert_eq!(s.board[2], Cell::White);
    assert_eq!(s.side, Side::Black);
    assert_eq!(key_text(&s), "p.P.............B");
    assert_eq!(parse_state("p.P.............X"), None);
    assert_eq!(parse_state("p.P.............."), None);
    assert_eq!(parse_state("p.P............B"), None);
    assert_eq!(parse_state("p.Q.............B"), None);
}

#[test]
fn keys_are_base_four_digits_with_the_side_on_top() {
    let s = state("................W");
    assert_eq!(encode(&s), 0);
    let s = state("................B");
    assert_eq!(encode(&s), 1u64 << 32);
    let s = state("Pp..............W");
    assert_eq!(encode(&s), 1 + 2 * 4);
    assert_eq!(decode(1 + 2 * 4), Some(s));
    assert_eq!(decode(3), None);
    assert_eq!(decode(2u64 << 32), None);
    let t = initial_state();
    assert_eq!(decode(encode(&t)), Some(t));
}
