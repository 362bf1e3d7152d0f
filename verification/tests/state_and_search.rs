use tubes::LiquidColor;
use tubes::Tube;
use tubes::TubeState;
use tubes::search::TransferAction;
use tubes::search::neighbors;
use tubes::search::solve_bfs;

fn orange_pair_tube() -> Tube {
    Tube::new(
        LiquidColor::Empty,
        LiquidColor::Empty,
        LiquidColor::Orange,
        LiquidColor::Orange,
    )
    .unwrap()
}

#[test]
fn test_level_2_issolved() {
    let tube1 = Tube::new(
        LiquidColor::Orange,
        LiquidColor::Blue,
        LiquidColor::Orange,
        LiquidColor::Blue,
    )
    .unwrap();
    let tube2 = Tube::new(
        LiquidColor::Blue,
        LiquidColor::Orange,
        LiquidColor::Blue,
        LiquidColor::Orange,
    )
    .unwrap();
    let tube3 = Tube::empty_tube();
    let state = TubeState { tubes: vec![tube1, tube2, tube3] };
    assert!(!state.tubes[0].issolved());
    assert!(!state.tubes[1].issolved());
    assert!(state.tubes[2].issolved());
    assert!(!state.issolved());
}

#[test]
fn test_half_and_empty_neighbors() {
    let tube1 = orange_pair_tube();
    let tube2 = Tube::empty_tube();
    let state = TubeState { tubes: vec![tube1.clone(), tube2.clone()] };
    let neighboring_states = neighbors(&state);
    let expected_state = TubeState { tubes: vec![tube2, tube1] };
    let transfer_action = TransferAction { send_idx: 0, recv_idx: 1 };
    assert_eq!(neighboring_states.len(), 1);
    assert!(neighboring_states.contains(&(transfer_action, expected_state)));
}

#[test]
fn test_neighbors_3_tubes() {
    let oe_tube = orange_pair_tube();
    let be_tube = Tube::new(
        LiquidColor::Empty,
        LiquidColor::Empty,
        LiquidColor::Blue,
        LiquidColor::Blue,
    )
    .unwrap();
    let ee_tube = Tube::empty_tube();
    let state = TubeState { tubes: vec![oe_tube.clone(), be_tube.clone(), ee_tube.clone()] };
    let neighboring_states = neighbors(&state);
    let expected_state2 = TubeState { tubes: vec![ee_tube.clone(), be_tube.clone(), oe_tube.clone()] };
    let expected_state4 = TubeState { tubes: vec![oe_tube.clone(), ee_tube.clone(), be_tube.clone()] };
    let transfer_action2 = TransferAction { send_idx: 0, recv_idx: 2 };
    let transfer_action4 = TransferAction { send_idx: 1, recv_idx: 2 };
    println!("{:?}", neighboring_states);
    assert_eq!(neighboring_states.len(), 2);
    assert!(neighboring_states.contains(&(transfer_action2, expected_state2)));
    assert!(neighboring_states.contains(&(transfer_action4, expected_state4)));
}

#[test]
fn neighbors_never_pour_a_tube_into_itself() {
    let state = TubeState {
        tubes: vec![
            orange_pair_tube(),
            Tube::empty_tube(),
            Tube::empty_tube(),
            orange_pair_tube(),
        ],
    };
    for (action, _) in neighbors(&state) {
        assert_ne!(action.send_idx, action.recv_idx);
    }
}

#[test]
fn layer_lists_round_trip() {
    let state = TubeState {
        tubes: vec![
            Tube::new(
                LiquidColor::Empty,
                LiquidColor::Other(String::from("010203")),
                LiquidColor::Red,
                LiquidColor::Red,
            )
            .unwrap(),
            Tube::empty_tube(),
        ],
    };
    let lists = state.to_tube_array();
    let rebuilt = TubeState::from_tube_array(lists).unwrap();
    assert_eq!(rebuilt, state);
}

#[test]
fn single_pour_puzzle_solves_in_one_action() {
    // Tube A holds one orange layer at the bottom, tube B three: one
    // pour of A into B fills B and empties A.
    let tube_a = Tube::new(
        LiquidColor::Empty,
        LiquidColor::Empty,
        LiquidColor::Empty,
        LiquidColor::Orange,
    )
    .unwrap();
    let tube_b = Tube::new(
        LiquidColor::Empty,
        LiquidColor::Orange,
        LiquidColor::Orange,
        LiquidColor::Orange,
    )
    .unwrap();
    let state = TubeState { tubes: vec![tube_a, tube_b] };
    let solution = solve_bfs(&state).unwrap();
    assert_eq!(
        solution.actions,
        vec![TransferAction { send_idx: 0, recv_idx: 1 }]
    );
    assert!(solution.state.issolved());
    assert_eq!(
        solution.state,
        TubeState {
            tubes: vec![
                Tube::empty_tube(),
                Tube::new(
                    LiquidColor::Orange,
                    LiquidColor::Orange,
                    LiquidColor::Orange,
                    LiquidColor::Orange,
                )
                .unwrap(),
            ],
        }
    );
}

#[test]
fn shortest_solution_is_found_first() {
    // The minimal pour count of this fixture is two, and the search
    // must return exactly two actions. The exhaustive check below
    // shows no shorter sequence solves it: the initial state is not
    // solved, and no single pour reaches a solved state.
    let tube_a = Tube::new(
        LiquidColor::Empty,
        LiquidColor::Empty,
        LiquidColor::Empty,
        LiquidColor::Orange,
    )
    .unwrap();
    let tube_b = Tube::new(
        LiquidColor::Empty,
        LiquidColor::Empty,
        LiquidColor::Orange,
        LiquidColor::Orange,
    )
    .unwrap();
    let tube_c = Tube::new(
        LiquidColor::Empty,
        LiquidColor::Empty,
        LiquidColor::Empty,
        LiquidColor::Orange,
    )
    .unwrap();
    let state = TubeState { tubes: vec![tube_a, tube_b, tube_c] };
    assert!(!state.issolved());
    for (_, one_pour_away) in neighbors(&state) {
        assert!(!one_pour_away.issolved());
    }
    let solution = solve_bfs(&state).unwrap();
    assert_eq!(solution.actions.len(), 2);
    assert!(solution.state.issolved());
}

#[test]
fn already_solved_state_needs_no_actions() {
    let state = TubeState {
        tubes: vec![
            Tube::new(
                LiquidColor::Green,
                LiquidColor::Green,
                LiquidColor::Green,
                LiquidColor::Green,
            )
            .unwrap(),
            Tube::empty_tube(),
        ],
    };
    let solution = solve_bfs(&state).unwrap();
    assert_eq!(solution.actions.len(), 0);
    assert_eq!(solution.state, state);
}

#[test]
fn unsolvable_puzzle_reports_no_solution() {
    // A single tube holding one layer can never become full or
    // empty: there is nowhere to pour.
    let state = TubeState {
        tubes: vec![Tube::new(
            LiquidColor::Empty,
            LiquidColor::Empty,
            LiquidColor::Empty,
            LiquidColor::Orange,
        )
        .unwrap()],
    };
    assert!(solve_bfs(&state).is_none());
}
