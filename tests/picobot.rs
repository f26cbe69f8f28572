use picobot::{BoolMap, Dir, Game, GameError, Location, Rule, RuleSetTester, SpaceCondition, TestFailure};

fn leak(map: [[u8; 25]; 25]) -> &'static [[u8; 25]; 25] {
    Box::leak(Box::new(map))
}

/// Walls everywhere but a diamond of radius 10 around the centre.
fn diamond_map() -> &'static [[u8; 25]; 25] {
    let mut map = [[1u8; 25]; 25];
    for y in 0..25i32 {
        for x in 0..25i32 {
            if (x - 12).abs() + (y - 12).abs() <= 10 {
                map[y as usize][x as usize] = 0;
            }
        }
    }
    leak(map)
}

/// Walls everywhere but a clear square of side `side` whose top-left cell is (10, 10).
fn room_map(side: usize) -> &'static [[u8; 25]; 25] {
    let mut map = [[1u8; 25]; 25];
    for y in 10..10 + side {
        for x in 10..10 + side {
            map[y][x] = 0;
        }
    }
    leak(map)
}

const ROOM_RULES: &str = "
# climb to the top wall
0 x*** -> N 0
0 N*x* -> W 1
0 N*W* -> S 2
# walk along the top to the west wall
1 **x* -> W 1
1 **W* -> S 2
# sweep columns down and up, shifting east at each end
2 ***x -> S 2
2 *x*S -> E 3
3 x*** -> N 3
3 Nx** -> E 2
";

#[test]
fn all_starting_positions_work() {
    let mut tester = RuleSetTester::create(diamond_map(), "

").unwrap();
    let r = tester.test_all();
    assert!(matches!(
        r,
        Err(TestFailure::Aborted { start_index: 0, error: GameError::NoRule { state: 0, .. } })
    ));
}

#[test]
fn room_rules_cover_every_start() {
    let mut tester = RuleSetTester::create(room_map(5), ROOM_RULES).unwrap();
    assert!(tester.test_all().is_ok());
}

#[test]
fn room_rules_fail_on_diamond() {
    let mut tester = RuleSetTester::create(diamond_map(), ROOM_RULES).unwrap();
    assert!(tester.test_all().is_err());
}

#[test]
fn map_without_clear_cell_has_no_start() {
    let mut tester = RuleSetTester::create(leak([[1u8; 25]; 25]), ROOM_RULES).unwrap();
    assert!(matches!(tester.test_all(), Err(TestFailure::NoStart)));
}

#[test]
fn oscillation_exhausts_small_budget() {
    let rules = Rule::parse_all("0 **x* -> W 1\n1 *x** -> E 0\n").unwrap();
    let mut game = Game::create(room_map(3), 0, rules).unwrap();
    assert_eq!(game.play_to_end(2).unwrap(), false);
}

#[test]
fn single_cell_map_is_complete_at_once() {
    let rules = Rule::parse_all("").unwrap();
    let mut game = Game::create(room_map(1), 0, rules).unwrap();
    assert!(game.is_complete());
    assert_eq!(game.play_to_end(0).unwrap(), true);
    assert!(Game::create(room_map(1), 1, Vec::new()).is_none());
}

#[test]
fn step_detects_ambiguous_rules() {
    let rules = Rule::parse_all("0 **** -> W 0\n0 **x* -> N 0\n").unwrap();
    let mut game = Game::create(room_map(3), 0, rules).unwrap();
    match game.step() {
        Err(GameError::Ambiguous { first, second }) => {
            assert_eq!(first.go, Dir::W);
            assert_eq!(second.go, Dir::N);
        }
        other => panic!("unexpected {:?}", other),
    }
}

#[test]
fn step_detects_move_into_wall() {
    let rules = Rule::parse_all("0 **** -> E 0\n").unwrap();
    let mut game = Game::create(room_map(3), 0, rules).unwrap();
    assert!(matches!(game.step(), Err(GameError::MoveIntoWall { dir: Dir::E })));
}

#[test]
fn step_reports_no_rule() {
    let rules = Rule::parse_all("1 **** -> W 0\n").unwrap();
    let mut game = Game::create(room_map(3), 0, rules).unwrap();
    match game.step() {
        Err(GameError::NoRule { state, nearby }) => {
            assert_eq!(state, 0);
            assert_eq!(nearby.0, [true, true, false, false]);
        }
        other => panic!("unexpected {:?}", other),
    }
}

#[test]
fn step_reports_sensing_off_the_map() {
    let rules = Rule::parse_all("0 **** -> W 0\n").unwrap();
    let mut game = Game::create(leak([[0u8; 25]; 25]), 0, rules).unwrap();
    assert!(matches!(game.step(), Err(GameError::OutOfBounds { x: 0, y: 0 })));
}

#[test]
fn step_moves_and_changes_state() {
    let rules = Rule::parse_all("0 **x* -> W 7\n7 **** -> S 7\n").unwrap();
    let mut game = Game::create(room_map(3), 0, rules).unwrap();
    assert!(game.step().is_ok());
    assert!(game.step().is_ok());
    assert!(!game.is_complete());
}

#[test]
fn parse_reads_rule_fields() {
    let rules = Rule::parse_all("  12 NxW* -> S 345  ").unwrap();
    assert_eq!(rules.len(), 1);
    let r = rules[0];
    assert_eq!(r.match_state, 12);
    assert_eq!(
        r.match_nearby,
        [SpaceCondition::Wall, SpaceCondition::Clear, SpaceCondition::Wall, SpaceCondition::Any]
    );
    assert_eq!(r.go, Dir::S);
    assert_eq!(r.state, 345);
}

#[test]
fn parse_skips_blank_lines_and_comments() {
    let rules = Rule::parse_all("\n   \n# a comment\n  # another\r\n0 x*** -> N 0\r\n\n").unwrap();
    assert_eq!(rules.len(), 1);
    assert_eq!(rules[0].go, Dir::N);
}

#[test]
fn parse_collects_every_error() {
    let r = Rule::parse_all("0 x*** -> N 0\nbad line\n0 Nx -> W 1\n1 **** -> Q 0");
    assert_eq!(
        r.err().unwrap(),
        "Cannot parse rule bad line\nCannot parse rule 0 Nx -> W 1\nCannot parse rule 1 **** -> Q 0\n"
    );
}

#[test]
fn parse_rejects_wrong_letters_and_large_states() {
    assert!(Rule::parse_all("0 ExWS -> N 0").is_err());
    assert!(Rule::parse_all("0 NEWS -> N 4294967296").is_err());
    assert!(Rule::parse_all("4294967295 NEWS -> N 4294967295").is_ok());
    assert!(Rule::parse_all("0 NEWS ->N 0").is_err());
    assert!(Rule::parse_all("0 NEWS -> N 0 extra").is_err());
}

#[test]
fn rule_matches_conditions() {
    let rule = Rule::parse_all("3 Nx** -> E 2").unwrap()[0];
    assert!(rule.matches(3, picobot::Nearby([true, false, true, false])));
    assert!(rule.matches(3, picobot::Nearby([true, false, false, true])));
    assert!(!rule.matches(3, picobot::Nearby([false, false, true, false])));
    assert!(!rule.matches(3, picobot::Nearby([true, true, true, false])));
    assert!(!rule.matches(2, picobot::Nearby([true, false, true, false])));
}

#[test]
fn neighbour_and_back_is_identity() {
    let loc = Location { x: 4, y: -7 };
    for d in [Dir::N, Dir::E, Dir::W, Dir::S] {
        assert_eq!(loc.next(d).next(d.opposite()), loc);
    }
    assert_eq!(loc.next(Dir::E), Location { x: 3, y: -7 });
    assert_eq!(loc.next(Dir::W), Location { x: 5, y: -7 });
    assert_eq!(loc.next(Dir::N), Location { x: 4, y: -8 });
    assert_eq!(loc.offset(Dir::S, 3), Location { x: 4, y: -4 });
}

#[test]
fn set_keeps_counts_in_step() {
    let mut m = BoolMap::clear(4, 3, false);
    assert_eq!((m.true_count(), m.false_count()), (0, 12));
    m.set(Location { x: 1, y: 2 }, true);
    assert_eq!((m.true_count(), m.false_count()), (1, 11));
    m.set(Location { x: 1, y: 2 }, true);
    assert_eq!((m.true_count(), m.false_count()), (1, 11));
    m.set(Location { x: 1, y: 2 }, false);
    assert_eq!((m.true_count(), m.false_count()), (0, 12));
    assert!(!m.get(Location { x: 1, y: 2 }));
    assert_eq!((m.width(), m.height()), (4, 3));
}

#[test]
fn nth_location_walks_row_by_row() {
    let mut m = BoolMap::clear(3, 3, true);
    m.set(Location { x: 2, y: 0 }, false);
    m.set(Location { x: 0, y: 1 }, false);
    m.set(Location { x: 1, y: 2 }, false);
    assert_eq!(m.get_nth_location(0, false), Some(Location { x: 2, y: 0 }));
    assert_eq!(m.get_nth_location(1, false), Some(Location { x: 0, y: 1 }));
    assert_eq!(m.get_nth_location(2, false), Some(Location { x: 1, y: 2 }));
    assert_eq!(m.get_nth_location(3, false), None);
    assert_eq!(m.get_nth_location(0, true), Some(Location { x: 0, y: 0 }));
}

#[test]
fn load_reads_nonzero_as_wall() {
    let m = BoolMap::load(room_map(2));
    assert_eq!(m.false_count(), 4);
    assert_eq!(m.true_count(), 621);
    assert!(!m.get(Location { x: 11, y: 10 }));
    assert!(m.get(Location { x: 12, y: 10 }));
    let nb = m.nearby(Location { x: 10, y: 10 });
    assert_eq!(nb.0, [true, true, false, false]);
    assert!(nb.get(Dir::N) && !nb.get(Dir::W));
}

#[test]
fn rule_text_reads_back() {
    let text = "0 x*** -> N 0\n17 NEWS -> W 4294967295\n3 *x*S -> E 12\n";
    let rules = Rule::parse_all(text).unwrap();
    assert_eq!(rules[1].to_text(), "17 NEWS  -> W 4294967295");
    let written = picobot::format::rules_to_text(&rules);
    assert_eq!(written, "0 x***  -> N 0\n17 NEWS  -> W 4294967295\n3 *x*S  -> E 12\n");
    let again = Rule::parse_all(&written).unwrap();
    assert_eq!(again.len(), 3);
    for (a, b) in rules.iter().zip(again.iter()) {
        assert_eq!(a.to_text(), b.to_text());
        assert_eq!(a.match_state, b.match_state);
        assert_eq!(a.match_nearby, b.match_nearby);
        assert_eq!(a.go, b.go);
        assert_eq!(a.state, b.state);
    }
}

#[test]
fn rule_text_has_two_spaces_before_arrow() {
    let rule = Rule {
        match_state: 0,
        match_nearby: [SpaceCondition::Wall, SpaceCondition::Clear, SpaceCondition::Any, SpaceCondition::Wall],
        go: Dir::E,
        state: 1,
    };
    assert_eq!(rule.to_text(), "0 Nx*S  -> E 1");
    let back = Rule::parse(&rule.to_text()).unwrap().unwrap();
    assert_eq!(back.to_text(), "0 Nx*S  -> E 1");
}

#[test]
fn round_trip_normalizes_comments_and_spacing() {
    let rules = Rule::parse_all("# start\n  0   Nx**    ->   W    1  \n\n").unwrap();
    assert_eq!(picobot::format::rules_to_text(&rules), "0 Nx**  -> W 1\n");
}

#[test]
fn budget_counts_moves_exactly() {
    let mut map = [[1u8; 25]; 25];
    map[10][10] = 0;
    map[10][11] = 0;
    let map = leak(map);
    let rules = Rule::parse_all("0 **x* -> W 0\n").unwrap();
    let mut game = Game::create(map, 0, rules.clone()).unwrap();
    assert_eq!(game.play_to_end(0).unwrap(), false);
    assert!(!game.is_complete());
    let mut game = Game::create(map, 0, rules).unwrap();
    assert_eq!(game.play_to_end(1).unwrap(), true);
    assert!(game.is_complete());
}

#[test]
fn nearby_code_uses_letters_for_walls() {
    assert_eq!(picobot::Nearby([true, true, false, false]).to_text(), "NExx");
    assert_eq!(picobot::Nearby([false, false, true, true]).to_text(), "xxWS");
}

#[test]
fn render_draws_agent_walls_and_status() {
    let rules = Rule::parse_all("0 **x* -> W 0\n").unwrap();
    let mut game = Game::create(room_map(3), 0, rules).unwrap();
    game.step().unwrap();
    let text = game.render();
    let lines: Vec<&str> = text.split('\n').collect();
    assert_eq!(lines.len(), 28);
    assert_eq!(lines[9], "#########################");
    assert_eq!(lines[10], "##########-@ ############");
    assert_eq!(lines[11], "##########   ############");
    assert_eq!(lines[25], "State: 0  Nearby: Nxxx  Remaining: 7");
    assert_eq!(lines[26], "");
}

#[test]
fn render_marks_sensing_off_the_map() {
    let game = Game::create(leak([[0u8; 25]; 25]), 0, Vec::new()).unwrap();
    let text = game.render();
    assert!(text.starts_with("@                        \n"));
    assert!(text.ends_with("State: 0  Nearby: ????  Remaining: 624\n\n"));
}

#[test]
fn oscillating_rules_run_out_of_moves() {
    let mut tester = RuleSetTester::create(room_map(3), "0 **x* -> W 1\n1 *x** -> E 0\n").unwrap();
    assert!(matches!(tester.test_all(), Err(TestFailure::Incomplete { start_index: 0 })));
}

#[test]
fn tester_rejects_malformed_rules() {
    let r = RuleSetTester::create(room_map(3), "0 x*** -> N 0\n0 x*** N 0\n");
    assert_eq!(r.err().unwrap(), "Cannot parse rule 0 x*** N 0\n");
}
