use candy_grid::board::Action;
use candy_grid::board::State;
use candy_grid::oracle::Schedule;
use candy_grid::policy::random_action;
use candy_grid::policy::rulebase_action;
use candy_grid::rng::seeded_rng;
use candy_grid::search::build_simulation_table;
use candy_grid::search::monte_carlo_capped;
use candy_grid::search::primitive_monteralro;
use candy_grid::time_keeper::TimeKeeper;
use candy_grid::time_keeper::time_over_decision;

fn schedule_cycle() -> Schedule {
    let mut v: Vec<u8> = Vec::new();
    for i in 0..100 {
        v.push((i % 3 + 1) as u8);
    }
    Schedule::new(v)
}

#[test]
fn rulebase_follows_the_fixed_table() {
    // Schedule starts 1,2,3,1,2,...: (1,2) -> Back, (2,3) -> Right,
    // (3,1) -> Forward.
    let schedule = schedule_cycle();
    let mut s = State::new();
    assert_eq!(rulebase_action(&s, &schedule), Action::Back);
    s.turn = 1;
    assert_eq!(rulebase_action(&s, &schedule), Action::Right);
    s.turn = 2;
    assert_eq!(rulebase_action(&s, &schedule), Action::Forward);
}

#[test]
fn rulebase_table_all_pairs() {
    let expect = [
        [Action::Forward, Action::Back, Action::Back],
        [Action::Forward, Action::Left, Action::Right],
        [Action::Forward, Action::Left, Action::Right],
    ];
    for now_v in 1..=3u8 {
        for next_v in 1..=3u8 {
            let mut v = vec![now_v, next_v];
            while v.len() < 100 {
                v.push(1);
            }
            let schedule = Schedule::new(v);
            let s = State::new();
            assert_eq!(
                rulebase_action(&s, &schedule),
                expect[(now_v - 1) as usize][(next_v - 1) as usize]
            );
        }
    }
}

#[test]
fn rulebase_last_turn_is_forward() {
    let schedule = schedule_cycle();
    let mut s = State::new();
    s.turn = 99;
    assert_eq!(rulebase_action(&s, &schedule), Action::Forward);
}

#[test]
fn random_action_is_one_of_four() {
    let mut rng = seeded_rng(80);
    let s = State::new();
    for _ in 0..20 {
        let a = random_action(&s, &mut rng);
        assert!(matches!(a, Action::Forward | Action::Back | Action::Left | Action::Right));
    }
}

#[test]
fn simulation_table_entries_are_valid_positions() {
    let mut rng = seeded_rng(0);
    let tb = build_simulation_table(&mut rng);
    assert_eq!(tb.table.len(), 14000);
    for s in [0usize, 1, 4242, 13999] {
        assert_eq!(tb.table[s].len(), 100);
        for t in 0..100 {
            let p = tb.table[s][t];
            assert!(1 <= p && p <= (100 - t) as i64);
        }
    }
}

#[test]
fn simulation_table_is_a_function_of_the_seed() {
    let mut rng1 = seeded_rng(0);
    let mut rng2 = seeded_rng(0);
    let t1 = build_simulation_table(&mut rng1);
    let t2 = build_simulation_table(&mut rng2);
    for s in [0usize, 7, 13999] {
        assert_eq!(t1.table[s], t2.table[s]);
    }
    // A drawn position actually depends on the generator state: the first
    // row is not all ones.
    assert!(t1.table[0].iter().any(|&p| p != 1));
}

#[test]
fn capped_search_is_deterministic() {
    let mut rng = seeded_rng(0);
    let tb = build_simulation_table(&mut rng);
    let schedule = schedule_cycle();
    let mut base = State::new();
    base.update(&schedule, 1);
    let a1 = monte_carlo_capped(&base, &schedule, &tb, 5);
    let a2 = monte_carlo_capped(&base, &schedule, &tb, 5);
    assert_eq!(a1, a2);
}

#[test]
fn capped_search_with_zero_rollouts_defaults_to_forward() {
    let mut rng = seeded_rng(0);
    let tb = build_simulation_table(&mut rng);
    let schedule = schedule_cycle();
    let mut base = State::new();
    base.update(&schedule, 1);
    assert_eq!(monte_carlo_capped(&base, &schedule, &tb, 0), Action::Forward);
}

#[test]
fn budgeted_search_returns_an_action() {
    let mut rng = seeded_rng(0);
    let tb = build_simulation_table(&mut rng);
    let schedule = schedule_cycle();
    let mut base = State::new();
    base.update(&schedule, 1);
    let mut tk = TimeKeeper::new(40, 100);
    tk.set_turn(0);
    let a = primitive_monteralro(&tk, &base, &schedule, &tb);
    assert!(matches!(a, Action::Forward | Action::Back | Action::Left | Action::Right));
}

#[test]
fn random_update_adds_one_tile() {
    let schedule = schedule_cycle();
    let mut rng = seeded_rng(80);
    let mut s = State::new();
    s.random_update(&schedule, &mut rng);
    assert_eq!(s.board.iter().filter(|&&c| c != 0).count(), 1);
    assert_eq!(s.turn, 0);
}

#[test]
fn simulation_update_uses_the_table_position() {
    let mut rng = seeded_rng(0);
    let tb = build_simulation_table(&mut rng);
    let schedule = schedule_cycle();
    let mut s = State::new();
    s.simulation_update(&schedule, &tb, 3);
    let p = tb.table[3][0];
    // On an empty board the p-th empty cell is flat index p - 1.
    assert_eq!(s.board[(p - 1) as usize], 1);
    assert_eq!(s.board.iter().filter(|&&c| c != 0).count(), 1);
}

#[test]
fn time_over_decision_matches_the_division() {
    // 1950 ms over 100 turns: the first turn's allowance is 19 ms.
    assert!(!time_over_decision(1950, 0, 18, 100, 0));
    assert!(time_over_decision(1950, 0, 19, 100, 0));
    // Budget exhausted: allowance 0, any elapsed time is over.
    assert!(time_over_decision(1950, 1950, 0, 100, 50));
    // Last turn gets everything that is left.
    assert!(!time_over_decision(1950, 1000, 900, 100, 99));
    assert!(time_over_decision(1950, 1000, 950, 100, 99));
}

#[test]
fn time_keeper_runs_out_eventually() {
    let mut tk = TimeKeeper::new(1, 100);
    tk.set_turn(0);
    let mut over = tk.is_time_over();
    for _ in 0..1000000 {
        if over {
            break;
        }
        over = tk.is_time_over();
    }
    assert!(over);
}

#[test]
fn allowance_only_shrinks_as_elapsed_time_grows() {
    // Fixed turn 0 of 100, threshold 1950 ms. With nothing elapsed the
    // allowance is 19 ms; with 600 ms gone it is 13 ms. A turn that is not
    // over early in the game can be over later for the same per-turn time.
    assert!(!time_over_decision(1950, 0, 13, 100, 0));
    assert!(time_over_decision(1950, 600, 13, 100, 0));
    // And a per-turn time at the boundary stays over as more time elapses.
    assert!(time_over_decision(1950, 600, 19, 100, 0));
    assert!(time_over_decision(1950, 1950, 19, 100, 0));
}
