use advent::pattern::Pattern;
use advent::valves::{assemble, by_number, number_for, read_names, read_valve, read_valves, Told, VALVE_PATTERN};
use advent::valves::{comes_before, sort_falling, Entity, Search, SearchState, System, Valve};

fn valve(num: usize, flow: usize, connections: &[usize]) -> Valve {
    Valve {
        num,
        flow,
        connections: connections.to_vec(),
        times: vec![],
    }
}

/// Ten valves: AA, DD, II, BB, CC, EE, FF, GG, HH, JJ.
fn sample() -> System {
    System {
        valves: vec![
            valve(0, 0, &[1, 2, 3]),
            valve(1, 20, &[4, 0, 5]),
            valve(2, 0, &[0, 9]),
            valve(3, 13, &[4, 0]),
            valve(4, 2, &[1, 3]),
            valve(5, 3, &[6, 1]),
            valve(6, 0, &[5, 7]),
            valve(7, 0, &[6, 8]),
            valve(8, 22, &[7]),
            valve(9, 21, &[2]),
        ],
        flow_priority: vec![],
    }
}

fn ready_sample() -> System {
    let mut s = sample();
    assert!(s.is_linked());
    assert!(s.precalc());
    s
}

fn walker(pos: u8, dest: Option<(u8, u8)>) -> Entity {
    Entity { pos, dest }
}

fn state(
    player: Entity,
    elephant: Entity,
    enabled: u64,
    volume: u32,
    flow: u32,
    step: u8,
    reward: usize,
) -> SearchState {
    SearchState {
        player,
        elephant,
        enabled,
        volume,
        flow,
        step,
        reward,
    }
}

#[test]
fn distances_between_valves() {
    let mut s = sample();
    assert!(s.pathfind());
    assert_eq!(s.valves[0].times, vec![0, 1, 1, 1, 2, 2, 3, 4, 5, 2]);
    assert_eq!(s.valves[1].times, vec![1, 0, 2, 2, 1, 1, 2, 3, 4, 3]);
    assert_eq!(s.valves[8].times, vec![5, 4, 6, 6, 5, 3, 2, 1, 0, 7]);
    assert_eq!(s.valves[9].times, vec![2, 3, 1, 3, 4, 4, 5, 6, 7, 0]);
    assert_eq!(s.valves[3].flow, 13);
    assert_eq!(s.valves[3].connections, vec![4, 0]);
    assert_eq!(s.distances(6), Some(vec![3, 2, 4, 4, 3, 1, 0, 1, 2, 5]));
}

#[test]
fn distances_along_one_way_tunnels() {
    let mut s = System {
        valves: vec![valve(0, 1, &[1]), valve(1, 1, &[2]), valve(2, 1, &[0])],
        flow_priority: vec![],
    };
    assert!(s.pathfind());
    assert_eq!(s.valves[0].times, vec![0, 1, 2]);
    assert_eq!(s.valves[1].times, vec![2, 0, 1]);
    assert_eq!(s.valves[2].times, vec![1, 2, 0]);
}

#[test]
fn valve_out_of_reach_has_no_distance() {
    let mut s = System {
        valves: vec![valve(0, 1, &[1]), valve(1, 1, &[])],
        flow_priority: vec![],
    };
    assert_eq!(s.distances(0), Some(vec![0, 1]));
    assert_eq!(s.distances(1), None);
    assert!(!s.pathfind());
    assert!(!s.precalc());
    // Nothing has been changed.
    assert!(s.valves.iter().all(|v| v.times.is_empty()));
    assert_eq!(s.valves[0].connections, vec![1]);
    assert!(s.flow_priority.is_empty());
}

#[test]
fn distances_and_order_of_a_system() {
    let mut s = System {
        valves: vec![valve(0, 0, &[1]), valve(1, 4, &[0, 2]), valve(2, 9, &[1])],
        flow_priority: vec![7],
    };
    assert!(s.precalc());
    assert_eq!(s.valves[0].times, vec![0, 1, 2]);
    assert_eq!(s.valves[1].times, vec![1, 0, 1]);
    assert_eq!(s.valves[2].times, vec![2, 1, 0]);
    assert_eq!(s.flow_priority, vec![2, 1]);
    assert_eq!(s.valves[1].flow, 4);
    assert_eq!(s.valves[1].connections, vec![0, 2]);
}

#[test]
fn valves_by_falling_flow() {
    let mut s = sample();
    s.priority();
    assert_eq!(s.flow_priority, vec![8, 9, 1, 3, 5, 4]);
    let mut t = System {
        valves: vec![
            valve(0, 5, &[]),
            valve(1, 0, &[]),
            valve(2, 7, &[]),
            valve(3, 5, &[]),
            valve(4, 7, &[]),
        ],
        flow_priority: vec![9, 9],
    };
    t.priority();
    assert_eq!(t.flow_priority, vec![2, 4, 0, 3]);
}

#[test]
fn system_with_a_tunnel_to_nowhere_is_not_linked() {
    let s = System {
        valves: vec![valve(0, 1, &[1]), valve(1, 1, &[2])],
        flow_priority: vec![],
    };
    assert!(!s.is_linked());
    let t = System {
        valves: vec![valve(1, 1, &[0]), valve(0, 1, &[1])],
        flow_priority: vec![],
    };
    assert!(!t.is_linked());
    assert!(sample().is_linked());
}

#[test]
fn share_of_a_walker() {
    assert_eq!(walker(3, None).partial_reward(), 0);
    assert_eq!(walker(3, Some((9, 2))).partial_reward(), 4);
    assert_eq!(walker(3, Some((8, 5))).partial_reward(), 1);
    assert_eq!(walker(3, Some((4, 5))).partial_reward(), 0);
}

#[test]
fn opening_a_valve_adds_its_flow() {
    let search = Search::new(ready_sample(), 30, false, 0);
    let mut s = search.initial;
    s.open_valve(&search, 3);
    assert_eq!(s.enabled, 0b1000);
    assert_eq!(s.flow, 13);
    s.open_valve(&search, 1);
    assert_eq!(s.enabled, 0b1010);
    assert_eq!(s.flow, 33);
    assert_eq!(s.volume, 0);
    s.player.dest = Some((9, 2));
    s.elephant.dest = Some((8, 5));
    s.calculate_reward();
    assert_eq!(s.reward, 33 + 4 + 1);
}

#[test]
fn states_after_the_first_step() {
    let search = Search::new(ready_sample(), 30, false, 0);
    assert!(search.ready());
    let kids = search.initial.next_states(&search);
    let expected = vec![
        state(walker(0, Some((8, 5))), walker(0, None), 0, 0, 0, 1, 1),
        state(walker(0, Some((9, 2))), walker(0, None), 0, 0, 0, 1, 4),
        state(walker(0, Some((1, 1))), walker(0, None), 0, 0, 0, 1, 1),
        state(walker(0, Some((3, 1))), walker(0, None), 0, 0, 0, 1, 3),
        state(walker(0, Some((5, 2))), walker(0, None), 0, 0, 0, 1, 2),
        state(walker(0, Some((4, 2))), walker(0, None), 0, 0, 0, 1, 2),
    ];
    assert_eq!(kids, expected);
}

#[test]
fn states_of_two_walkers() {
    let search = Search::new(ready_sample(), 26, true, 0);
    assert!(search.ready());
    let kids = search.initial.next_states(&search);
    // Six valves, two walkers that stand together: fifteen pairs.
    assert_eq!(kids.len(), 15);
    assert_eq!(
        kids[0],
        state(walker(0, Some((8, 5))), walker(0, Some((9, 2))), 0, 0, 0, 1, 5)
    );
    assert_eq!(
        kids[14],
        state(walker(0, Some((4, 2))), walker(0, Some((5, 2))), 0, 0, 0, 1, 4)
    );
    let on = kids[0].next_states(&search);
    assert_eq!(
        on,
        vec![state(walker(0, Some((8, 4))), walker(0, Some((9, 1))), 0, 0, 0, 2, 11)]
    );
}

#[test]
fn walker_that_arrives_opens_the_valve() {
    let search = Search::new(ready_sample(), 26, true, 0);
    let s = state(walker(0, Some((3, 1))), walker(1, None), 2, 20, 20, 3, 23);
    assert!(search.is_sound(&s));
    let kids = s.next_states(&search);
    let expected = vec![
        state(walker(3, None), walker(1, Some((8, 4))), 10, 40, 33, 4, 35),
        state(walker(3, None), walker(1, Some((9, 3))), 10, 40, 33, 4, 36),
        state(walker(3, None), walker(1, Some((5, 1))), 10, 40, 33, 4, 38),
        state(walker(3, None), walker(1, Some((4, 1))), 10, 40, 33, 4, 37),
    ];
    assert_eq!(kids, expected);
    let bounds: Vec<usize> = kids.iter().map(|k| k.best_possible_outcome(&search)).collect();
    assert_eq!(bounds, vec![1687, 1711, 1705, 1702]);
}

#[test]
fn no_states_when_the_steps_are_used_up() {
    let search = Search::new(ready_sample(), 3, false, 0);
    let s = state(walker(0, None), walker(0, None), 0, 0, 0, 3, 0);
    assert!(search.is_sound(&s));
    assert!(s.next_states(&search).is_empty());
    assert_eq!(s.best_possible_outcome(&search), 0);
}

#[test]
fn idle_walker_when_nothing_is_left_to_open() {
    let search = Search::new(ready_sample(), 30, false, 0);
    let s = state(walker(1, None), walker(0, None), 0b11_0011_1010, 500, 81, 20, 81);
    assert!(search.is_sound(&s));
    let kids = s.next_states(&search);
    assert_eq!(
        kids,
        vec![state(walker(1, None), walker(0, None), 0b11_0011_1010, 581, 81, 21, 81)]
    );
    assert_eq!(s.best_possible_outcome(&search), 500 + 10 * 81);
}

#[test]
fn most_that_a_state_could_lead_to() {
    let search = Search::new(ready_sample(), 30, false, 0);
    let kids = search.initial.next_states(&search);
    let bounds: Vec<usize> = kids.iter().map(|k| k.best_possible_outcome(&search)).collect();
    assert_eq!(bounds, vec![1519, 1758, 1954, 1898, 1707, 1693]);
    let both = Search::new(ready_sample(), 26, true, 0);
    let mid = state(walker(0, Some((8, 4))), walker(0, Some((9, 1))), 0, 0, 0, 2, 11);
    assert_eq!(mid.best_possible_outcome(&both), 1585);
}

#[test]
fn states_in_falling_order() {
    let search = Search::new(ready_sample(), 30, false, 0);
    let kids = search.initial.next_states(&search);
    let sorted = sort_falling(&kids);
    let targets: Vec<u8> = sorted.iter().map(|k| k.player.dest.unwrap().0).collect();
    assert_eq!(targets, vec![9, 8, 5, 4, 3, 1]);
    assert!(comes_before(&kids[0], &kids[1]));
    assert!(!comes_before(&kids[1], &kids[0]));
    assert!(!comes_before(&kids[1], &kids[1]));
    // A walker on no way comes before one that is on its way.
    let idle = state(walker(0, None), walker(0, None), 900, 900, 900, 9, 900);
    assert!(comes_before(&idle, &kids[2]));
    // The valve at which the first walker stands weighs most.
    let far = state(walker(1, None), walker(0, None), 0, 0, 0, 0, 0);
    assert!(comes_before(&kids[1], &far));
    assert!(sort_falling(&vec![]).is_empty());
}

#[test]
fn search_of_one_walker() {
    let mut search = Search::new(ready_sample(), 30, false, 0);
    assert!(search.ready());
    assert_eq!(search.search(), Some(1651));
    assert_eq!(search.checked, 547);
    assert_eq!(search.skipped, 164);
    assert_eq!(
        search.best,
        Some(state(walker(4, None), walker(0, None), 826, 1651, 81, 30, 81))
    );
}

#[test]
fn search_of_two_walkers() {
    let mut search = Search::new(ready_sample(), 26, true, 0);
    assert!(search.ready());
    assert_eq!(search.search(), Some(1707));
    assert_eq!(search.checked, 450);
    assert_eq!(search.skipped, 155);
    assert_eq!(
        search.best,
        Some(state(walker(5, None), walker(4, None), 826, 1707, 81, 26, 81))
    );
}

#[test]
fn search_without_steps_finds_nothing() {
    let mut search = Search::new(ready_sample(), 0, false, 0);
    assert!(search.ready());
    assert_eq!(search.search(), None);
    assert_eq!(search.checked, 1);
}

#[test]
fn search_is_not_ready_on_a_start_that_lets_flow() {
    let search = Search::new(ready_sample(), 30, false, 3);
    assert!(search.fits());
    assert!(!search.ready());
    let far = Search::new(ready_sample(), 30, false, 10);
    assert!(!far.ready());
    let long = Search::new(ready_sample(), 101, false, 0);
    assert!(!long.fits());
    let bare = Search::new(sample(), 30, false, 0);
    assert!(!bare.fits());
}

const TOLD: [&str; 10] = [
    "Valve AA has flow rate=0; tunnels lead to valves DD, II, BB",
    "Valve BB has flow rate=13; tunnels lead to valves CC, AA",
    "Valve CC has flow rate=2; tunnels lead to valves DD, BB",
    "Valve DD has flow rate=20; tunnels lead to valves CC, AA, EE",
    "Valve EE has flow rate=3; tunnels lead to valves FF, DD",
    "Valve FF has flow rate=0; tunnels lead to valves EE, GG",
    "Valve GG has flow rate=0; tunnels lead to valves FF, HH",
    "Valve HH has flow rate=22; tunnel leads to valve GG",
    "Valve II has flow rate=0; tunnels lead to valves AA, JJ",
    "Valve JJ has flow rate=21; tunnel leads to valve II",
];

#[test]
fn valve_of_a_line() {
    let pattern = Pattern::new(VALVE_PATTERN).unwrap();
    let t = read_valve(&pattern, TOLD[3]).unwrap();
    assert_eq!(t.name, "DD");
    assert_eq!(t.flow, 20);
    assert_eq!(t.to, vec!["CC", "AA", "EE"]);
    let one = read_valve(&pattern, TOLD[7]).unwrap();
    assert_eq!(one.name, "HH");
    assert_eq!(one.to, vec!["GG"]);
    assert!(read_valve(&pattern, "Valve A has flow rate=1; tunnel leads to valve B").is_none());
    assert!(read_valve(&pattern, "Valve AA has flow rate=x; tunnel leads to valve BB").is_none());
    assert!(read_valve(&pattern, "").is_none());
    assert!(read_valve(
        &pattern,
        "Valve AA has flow rate=99999999999999999999999; tunnel leads to valve BB"
    )
    .is_none());
}

#[test]
fn names_of_a_list() {
    let read = |s: &str| read_names(&s.chars().collect());
    assert_eq!(read("DD, II, BB"), vec!["DD", "II", "BB"]);
    assert_eq!(read("DD,II"), vec!["DD", "II"]);
    assert_eq!(read("GG"), vec!["GG"]);
    assert_eq!(read(""), vec![""]);
    assert_eq!(read("A,"), vec!["A", ""]);
    assert_eq!(read("A,  B"), vec!["A", " B"]);
}

#[test]
fn names_get_numbers_as_they_come_up() {
    let mut names: Vec<String> = vec![];
    assert_eq!(number_for(&mut names, &"AA".to_string()), 0);
    assert_eq!(number_for(&mut names, &"DD".to_string()), 1);
    assert_eq!(number_for(&mut names, &"AA".to_string()), 0);
    assert_eq!(number_for(&mut names, &"II".to_string()), 2);
    assert_eq!(names, vec!["AA", "DD", "II"]);
}

#[test]
fn valves_of_what_was_read() {
    let read = vec![
        Told { name: "B".to_string(), flow: 5, to: vec!["A".to_string(), "C".to_string()] },
        Told { name: "A".to_string(), flow: 0, to: vec!["B".to_string()] },
    ];
    let (names, valves) = assemble(&read);
    assert_eq!(names, vec!["B", "A", "C"]);
    assert_eq!(valves.len(), 2);
    assert_eq!((valves[0].num, valves[0].flow), (0, 5));
    assert_eq!(valves[0].connections, vec![1, 2]);
    assert_eq!((valves[1].num, valves[1].flow), (1, 0));
    assert_eq!(valves[1].connections, vec![0]);
    assert!(valves.iter().all(|v| v.times.is_empty()));
}

#[test]
fn valves_in_the_order_of_their_numbers() {
    let sorted = by_number(vec![valve(2, 7, &[]), valve(0, 1, &[1]), valve(1, 3, &[])]);
    let nums: Vec<usize> = sorted.iter().map(|v| v.num).collect();
    assert_eq!(nums, vec![0, 1, 2]);
    assert_eq!(sorted[0].connections, vec![1]);
    assert_eq!(sorted[2].flow, 7);
    assert!(by_number(vec![]).is_empty());
}

#[test]
fn system_of_lines() {
    let pattern = Pattern::new(VALVE_PATTERN).unwrap();
    let mut lines: Vec<String> = TOLD.iter().map(|l| l.to_string()).collect();
    lines.insert(4, String::new());
    let (system, start) = read_valves(&pattern, &lines).unwrap();
    assert_eq!(start, 0);
    let expected = sample();
    assert_eq!(system.valves.len(), 10);
    for (got, want) in system.valves.iter().zip(expected.valves.iter()) {
        assert_eq!(got.num, want.num);
        assert_eq!(got.flow, want.flow);
        assert_eq!(got.connections, want.connections);
        assert!(got.times.is_empty());
    }
    assert!(system.flow_priority.is_empty());
    lines.push("Valve".to_string());
    assert!(read_valves(&pattern, &lines).is_none());
    // A start that no line names gets the next number.
    let few: Vec<String> = vec![TOLD[9].to_string()];
    let (system, start) = read_valves(&pattern, &few).unwrap();
    assert_eq!(system.valves.len(), 1);
    assert_eq!(start, 2);
}

#[test]
fn search_from_lines() {
    let pattern = Pattern::new(VALVE_PATTERN).unwrap();
    let lines: Vec<String> = TOLD.iter().map(|l| l.to_string()).collect();
    let (mut system, start) = read_valves(&pattern, &lines).unwrap();
    assert!(system.is_linked());
    assert!(system.precalc());
    let mut search = Search::new(system, 30, false, start as u8);
    assert!(search.ready());
    assert_eq!(search.search(), Some(1651));
}
