use fishbot::drone::{DroneStatus, DRONE_MAX_BATTERY};
use fishbot::fish::FishType;
use fishbot::scan::Scan;
use fishbot::scoring::ScoreBoard;

fn scan(t: FishType, c: i32) -> Scan {
    Scan::new_from_type_color(t, c)
}

fn all_scans() -> Vec<Scan> {
    let mut v = Vec::new();
    for c in 0..4 {
        for t in [FishType::JELLY, FishType::FISH, FishType::CRAB] {
            v.push(scan(t, c));
        }
    }
    v
}

fn alive() -> Vec<Vec<bool>> {
    vec![vec![false], vec![false]]
}

#[test]
fn fresh_board_scores() {
    let b = ScoreBoard::new(1);
    assert_eq!(b.compute_player_score(0), 0);
    assert_eq!(b.compute_max_player_score(0, &all_scans()), 96);
    assert_eq!(b.compute_max_player_score(1, &[]), 0);
    assert!(!b.is_game_over(&all_scans()));
    // with no creature left, both players have (vacuously) scanned everything
    assert!(b.is_game_over(&[]));
    assert_eq!(b.score(0, &[]), 0);
}

#[test]
fn scans_are_recorded_once() {
    let mut b = ScoreBoard::new(1);
    let x = scan(FishType::JELLY, 0);
    assert!(b.record_scan(0, 0, &x));
    assert!(!b.record_scan(0, 0, &x));
    assert!(b.record_scan(1, 0, &x));
    assert!(b.is_fish_scanned_by_player_drone(&x, 0));
    assert_eq!(b.drone_scan_count(0, 0), 1);
    assert!(!b.player_scanned_scan(0, &x));
}

#[test]
fn first_to_scan_bonus_needs_a_second_report_and_is_lost_when_shared() {
    let mut b = ScoreBoard::new(1);
    let x = scan(FishType::JELLY, 0);
    let y = scan(FishType::FISH, 1);
    b.record_scan(0, 0, &x);
    b.record_scan(1, 0, &x);
    assert_eq!(b.do_report(&alive()), vec![vec![true], vec![true]]);
    assert_eq!((b.players[0].points, b.players[1].points), (1, 1));
    assert!(b.player_scanned_scan(0, &x));
    assert_eq!(b.drone_scan_count(0, 0), 0);
    assert_eq!(b.do_report(&alive()), vec![vec![false], vec![false]]);
    assert_eq!((b.players[0].points, b.players[1].points), (1, 1));
    assert_eq!(b.first_to_scan[0], None);
    b.record_scan(0, 0, &y);
    assert_eq!(b.do_report(&alive()), vec![vec![true], vec![false]]);
    assert_eq!((b.players[0].points, b.players[1].points), (3, 1));
    b.do_report(&alive());
    assert_eq!((b.players[0].points, b.players[1].points), (5, 1));
    assert_eq!(b.first_to_scan[4], Some(0));
    assert_eq!(b.fish_scanned, 7);
    assert_eq!(b.players[0].count_fish_saved, vec![1, 1]);
    assert_eq!(b.players[1].count_fish_saved, vec![1]);
    assert_eq!(b.compute_max_player_score(0, &all_scans()), 95);
    assert_eq!(b.compute_max_player_score(1, &all_scans()), 93);
    assert_eq!(b.compute_max_player_score(1, &[x, y]), 3);
}

#[test]
fn completing_a_type_earns_both_type_bonuses_at_once() {
    let mut b = ScoreBoard::new(1);
    b.game_turn = 3;
    for c in 0..4 {
        assert!(b.record_scan(0, 0, &scan(FishType::JELLY, c)));
    }
    assert_eq!(b.do_report(&alive()), vec![vec![true], vec![false]]);
    assert_eq!(b.players[0].points, 12);
    assert_eq!(b.first_to_scan_all_fish_of_type[0], Some(0));
    assert!(b.player_scanned_all_fish_of_type(0, FishType::JELLY));
    assert!(!b.player_scanned_all_fish_of_color(0, 0));
    assert!(!b.is_type_combo_still_possible(0, &FishType::JELLY, &all_scans()));
    assert!(b.is_type_combo_still_possible(1, &FishType::JELLY, &all_scans()));
    assert_eq!(b.compute_max_player_score(0, &all_scans()), 92);
    assert_eq!(b.compute_max_player_score(1, &all_scans()), 92);
    assert_eq!(b.turn_saved_fish[0][0], -1);
    b.do_report(&alive());
    assert_eq!(b.turn_saved_fish[0][0], 3);
    assert_eq!(b.turn_saved_fish[0][3], 3);
}

#[test]
fn dead_drones_do_not_report() {
    let mut b = ScoreBoard::new(1);
    b.record_scan(1, 0, &scan(FishType::CRAB, 3));
    assert_eq!(b.do_report(&vec![vec![false], vec![true]]), vec![vec![false], vec![false]]);
    assert_eq!(b.players[1].points, 0);
    assert_eq!(b.drone_scan_count(1, 0), 1);
    b.clear_drone_scans(1, 0);
    assert_eq!(b.drone_scan_count(1, 0), 0);
}

#[test]
fn end_of_game_reports_every_drone() {
    let mut b = ScoreBoard::new(1);
    b.record_scan(1, 0, &scan(FishType::CRAB, 3));
    b.compute_score_on_end();
    assert_eq!(b.players[1].score, 3);
    assert_eq!(b.players[1].points, 3);
    assert_eq!(b.players[0].score, 0);
    assert_eq!(b.compute_max_player_score(0, &[scan(FishType::CRAB, 3)]), 6);
    assert!(!b.is_game_over(&[scan(FishType::CRAB, 3)]));
    b.game_turn = 20;
    assert!(b.is_game_over(&all_scans()));
    assert_eq!(b.score(1, &all_scans()), 1);
    assert_eq!(b.score(0, &all_scans()), -1);
}

#[test]
fn escaped_fish_and_lost_combos() {
    let mut b = ScoreBoard::new(1);
    let remaining: Vec<Scan> = all_scans().into_iter().filter(|s| !(s.color == 2 && s.fish_type == FishType::FISH)).collect();
    assert!(b.has_fish_escaped(&scan(FishType::FISH, 2), &remaining));
    assert!(!b.has_fish_escaped(&scan(FishType::FISH, 1), &remaining));
    assert!(!b.is_type_combo_still_possible(0, &FishType::FISH, &remaining));
    assert!(!b.is_color_combo_still_possible(0, 2, &remaining));
    assert!(b.is_color_combo_still_possible(0, 1, &remaining));
    // 96 - 2 * 2 (the scan) - 8 (its type) - 6 (its color)
    assert_eq!(b.compute_max_player_score(0, &remaining), 78);
    b.record_scan(0, 0, &scan(FishType::FISH, 2));
    assert!(b.is_type_combo_still_possible(0, &FishType::FISH, &remaining));
    assert_eq!(b.compute_max_player_score(0, &remaining), 96);
    // a color that does not exist has no creature left to scan
    assert!(!b.is_color_combo_still_possible(0, 9, &remaining));
}

#[test]
fn max_score_never_exceeds_96() {
    let mut b = ScoreBoard::new(2);
    let all = all_scans();
    for (i, s) in all.iter().enumerate() {
        b.record_scan(i % 2, i % 2, s);
        b.record_scan(1 - i % 2, 0, s);
        b.do_report(&vec![vec![false, false], vec![false, false]]);
        for p in 0..2 {
            let score = b.compute_player_score(p);
            let max = b.compute_max_player_score(p, &all[i..]);
            assert!(score <= max && max <= 96);
        }
    }
}

#[test]
fn battery_drains_with_light_and_recharges_without() {
    let mut d = DroneStatus::new();
    assert_eq!(d.battery, DRONE_MAX_BATTERY);
    d.light_switch = true;
    for _ in 0..6 {
        d.do_battery();
        assert!(d.is_light_on());
    }
    assert_eq!(d.battery, 0);
    d.do_battery();
    assert!(!d.is_light_on());
    assert_eq!(d.battery, 1);
    d.light_switch = false;
    for _ in 0..40 {
        d.do_battery();
    }
    assert_eq!(d.battery, DRONE_MAX_BATTERY);
    d.dead = true;
    d.light_on = true;
    d.do_battery();
    assert!(!d.light_on);
    assert_eq!(d.battery, DRONE_MAX_BATTERY);
}

#[test]
fn drone_upkeep_life_cycle() {
    let mut d = DroneStatus::new();
    d.dying = true;
    assert!(d.is_dead_or_dying());
    d.upkeep(false, true);
    assert!(d.dead && !d.dying);
    assert_eq!(d.turns_spent_with_scan, 1);
    d.upkeep(false, true);
    assert!(d.dead);
    assert_eq!(d.max_turns_spent_with_scan, 2);
    d.upkeep(true, false);
    assert!(!d.dead);
    assert_eq!(d.turns_spent_with_scan, 0);
    assert_eq!(d.max_turns_spent_with_scan, 2);
}

#[test]
fn first_to_scan_getters() {
    let mut b = ScoreBoard::new(1);
    b.game_turn = 1;
    let x = scan(FishType::CRAB, 2);
    assert!(!b.has_first_to_scan_bonus(0, &x));
    for c in 0..4 {
        b.record_scan(0, 0, &scan(FishType::CRAB, c));
    }
    b.record_scan(0, 0, &scan(FishType::JELLY, 2));
    b.record_scan(0, 0, &scan(FishType::FISH, 2));
    b.do_report(&alive());
    b.do_report(&alive());
    assert!(b.has_first_to_scan_bonus(0, &x));
    assert!(!b.has_first_to_scan_bonus(1, &x));
    assert!(!b.has_first_to_scan_bonus(0, &scan(FishType::CRAB, 7)));
    assert!(b.has_first_to_scan_all_fish_of_type(0, &FishType::CRAB));
    assert!(!b.has_first_to_scan_all_fish_of_type(0, &FishType::JELLY));
    assert!(!b.has_first_to_scan_all_fish_of_type(1, &FishType::CRAB));
    assert!(b.has_first_to_scan_all_fish_of_color(0, 2));
    assert!(!b.has_first_to_scan_all_fish_of_color(0, 1));
    assert!(!b.has_first_to_scan_all_fish_of_color(0, -1));
}

#[test]
fn reports_never_lower_a_score() {
    let mut b = ScoreBoard::new(2);
    let mut last = [0, 0];
    for (i, s) in all_scans().iter().enumerate() {
        b.game_turn = i as i32;
        b.record_scan(i % 2, (i / 2) % 2, s);
        b.record_scan(1 - i % 2, 1, s);
        let dead = vec![vec![i % 3 == 0, false], vec![false, i % 4 == 0]];
        let carried_before = (b.drone_scan_count(0, 0), b.drone_scan_count(1, 1));
        b.do_report(&dead);
        if i % 3 == 0 {
            assert_eq!(b.drone_scan_count(0, 0), carried_before.0);
        } else {
            assert_eq!(b.drone_scan_count(0, 0), 0);
        }
        if i % 4 == 0 {
            assert_eq!(b.drone_scan_count(1, 1), carried_before.1);
        } else {
            assert_eq!(b.drone_scan_count(1, 1), 0);
        }
        for p in 0..2 {
            let score = b.compute_player_score(p);
            assert!(score >= last[p]);
            assert_eq!(b.players[p].points, score);
            last[p] = score;
        }
    }
}

#[test]
fn report_room_is_checked_exactly() {
    let mut b = ScoreBoard::new(1);
    assert!(b.report_fits_now(&alive()));
    b.record_scan(0, 0, &scan(FishType::JELLY, 0));
    b.record_scan(0, 0, &scan(FishType::FISH, 0));
    b.do_report(&alive());
    assert_eq!(b.fish_scanned, 0);
    // the next report of player 0's drone adds the two saved scans
    b.fish_scanned = i32::MAX - 1;
    assert!(!b.report_fits_now(&alive()));
    assert!(b.report_fits_now(&vec![vec![true], vec![false]]));
    b.fish_scanned = i32::MAX - 2;
    assert!(b.report_fits_now(&alive()));
    b.do_report(&alive());
    assert_eq!(b.fish_scanned, i32::MAX);
}

#[test]
fn upkeep_without_scans_at_the_counter_limit() {
    let mut d = DroneStatus::new();
    d.turns_spent_with_scan = i32::MAX;
    d.upkeep(false, false);
    assert_eq!(d.turns_spent_with_scan, 0);
}
