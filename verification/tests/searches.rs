use cons_list::ConsList;
use recorrelaberintos::bfs::{breadth_first_search, breadth_first_search_noting_skips, try_breadth_first_search};
use recorrelaberintos::bfs2::{double_breadth_first_search, try_double_breadth_first_search};
use recorrelaberintos::graph::Graph;
use recorrelaberintos::maze::{read_graph, try_read_graph};
use recorrelaberintos::pbfs::{parallel_breadth_first_search, LevelSearch, LevelStep};
use recorrelaberintos::pbfs2::{semi_parallel_breadth_first_search, try_semi_parallel_breadth_first_search};
use recorrelaberintos::pos::Pos;

fn rows(picture: &[&str]) -> Vec<Vec<u8>> {
    picture
        .iter()
        .map(|line| line.chars().map(|c| if c == '.' { 255u8 } else { 0u8 }).collect())
        .collect()
}

fn p(x: u32, y: u32) -> Pos {
    Pos::from((x, y))
}

fn items(l: &ConsList<Pos>) -> Vec<Pos> {
    l.iter().cloned().collect()
}

fn graph(picture: &[&str]) -> Graph {
    try_read_graph(&rows(picture)).expect("readable")
}

/// Checks that `l`, read from its back, is a route of `g` from its entrance
/// to its exit that visits no position twice.
fn is_simple_solution(g: &Graph, l: &ConsList<Pos>) -> bool {
    let mut route = items(l);
    route.reverse();
    let mut at = g.start();
    let mut seen = vec![at];
    for &next in &route {
        if !g.neighbours(at).contains(&Some(next)) || seen.contains(&next) {
            return false;
        }
        seen.push(next);
        at = next;
    }
    at == g.end()
}

const WINDING: [&str; 5] = ["#.###", "#...#", "###.#", "#...#", "#.###"];

/// Two routes: through (1, 3) in four steps, or around by (5, 1) in five.
const LOOP: [&str; 5] = ["#.#####", "#.....#", "#.###.#", "#.....#", "###.###"];

/// The entrance and the exit lie in separate parts.
const SPLIT: [&str; 4] = ["#.####", "#.#..#", "######", "####.#"];

/// Two ways from (1, 1) to (4, 7), the only node above the exit: down the
/// left side with three turns, 11 pixels from the entrance to the exit; or
/// along the top and down the right side with two turns, 17 pixels.
const TURNS: [&str; 9] = [
    "#.#######",
    "#.......#",
    "#.#####.#",
    "#.#####.#",
    "#.#####.#",
    "#.#####.#",
    "#..####.#",
    "##......#",
    "####.####",
];

/// The length in pixels of the route that `l` holds, from the entrance.
fn pixels(g: &Graph, l: &ConsList<Pos>) -> u64 {
    let mut route = items(l);
    route.reverse();
    let mut at = g.start();
    let mut total = 0u64;
    for &next in &route {
        total += (at.x.abs_diff(next.x) + at.y.abs_diff(next.y)) as u64;
        at = next;
    }
    total
}

fn winding_route() -> Vec<Pos> {
    vec![p(1, 4), p(1, 3), p(3, 3), p(3, 1), p(1, 1)]
}

fn loop_route() -> Vec<Pos> {
    vec![p(3, 4), p(3, 3), p(1, 3), p(1, 1)]
}

#[test]
fn bfs_follows_the_only_route() {
    let g = graph(&WINDING);
    let l = breadth_first_search(&g);
    assert!(items(&l) == winding_route());
    assert!(l.len() == 5);
    assert!(is_simple_solution(&g, &l));
    // A route that visits no node twice is shorter than the node count.
    assert!(l.len() < g.len());
}

#[test]
fn every_search_gives_the_only_simple_route() {
    let g = graph(&WINDING);
    let a = items(&breadth_first_search(&g));
    assert!(a == items(&double_breadth_first_search(graph(&WINDING))));
    assert!(a == items(&parallel_breadth_first_search(graph(&WINDING))));
    assert!(a == items(&semi_parallel_breadth_first_search(graph(&WINDING))));
}

#[test]
fn bfs2_follows_the_only_route() {
    let g = graph(&WINDING);
    let l = double_breadth_first_search(graph(&WINDING));
    assert!(items(&l) == winding_route());
    assert!(is_simple_solution(&g, &l));
}

#[test]
fn pbfs_follows_the_only_route() {
    let g = graph(&WINDING);
    let l = parallel_breadth_first_search(graph(&WINDING));
    assert!(items(&l) == winding_route());
    assert!(is_simple_solution(&g, &l));
}

#[test]
fn pbfs2_follows_the_only_route() {
    let g = graph(&WINDING);
    let l = semi_parallel_breadth_first_search(graph(&WINDING));
    assert!(items(&l) == winding_route());
    assert!(is_simple_solution(&g, &l));
}

#[test]
fn bfs_takes_the_cheaper_branch_of_a_loop() {
    let g = graph(&LOOP);
    assert!(g.len() == 7);
    let l = breadth_first_search(&g);
    assert!(items(&l) == loop_route());
    assert!(is_simple_solution(&g, &l));
}

#[test]
fn read_graph_has_one_way_into_the_exit() {
    let g = graph(&TURNS);
    let nodes = [p(1, 0), p(1, 1), p(7, 1), p(1, 6), p(2, 6), p(2, 7), p(4, 7), p(7, 7), p(4, 8)];
    assert!(nodes.iter().all(|&q| g.contains(q)));
    let into_exit: Vec<Pos> = nodes.iter().cloned().filter(|&q| g.neighbours(q).contains(&Some(g.end()))).collect();
    assert!(into_exit == vec![p(4, 7)]);
}

#[test]
fn bfs_prefers_fewer_pixels_to_fewer_nodes() {
    let g = graph(&TURNS);
    assert!(g.len() == 9);
    let l = breadth_first_search(&g);
    assert!(items(&l) == vec![p(4, 8), p(4, 7), p(2, 7), p(2, 6), p(1, 6), p(1, 1)]);
    assert!(pixels(&g, &l) == 11);
    assert!(is_simple_solution(&g, &l));
    let t = try_breadth_first_search(&g).expect("solvable");
    assert!(items(&t) == items(&l));
}

/// The rounds of `bfs2` and `pbfs2` take both branches of `TURNS` together,
/// and the round that reaches (4, 7) along the right side first also makes
/// the exit's node: they return the 17-pixel route that `bfs` passes over.
fn turns_round_route() -> Vec<Pos> {
    vec![p(4, 8), p(4, 7), p(7, 7), p(7, 1), p(1, 1)]
}

#[test]
fn bfs2_rounds_return_the_route_found_first_in_round_order() {
    let g = graph(&TURNS);
    let l = double_breadth_first_search(graph(&TURNS));
    assert!(items(&l) == turns_round_route());
    assert!(pixels(&g, &l) == 17);
    let t = try_double_breadth_first_search(&g).expect("solvable");
    assert!(items(&t) == turns_round_route());
}

#[test]
fn pbfs2_rounds_return_the_route_found_first_in_round_order() {
    let g = graph(&TURNS);
    let l = semi_parallel_breadth_first_search(graph(&TURNS));
    assert!(items(&l) == turns_round_route());
    let t = try_semi_parallel_breadth_first_search(&g).expect("solvable");
    assert!(items(&t) == turns_round_route());
}

#[test]
fn bfs2_takes_the_cheaper_branch_of_a_loop() {
    let g = graph(&LOOP);
    let l = double_breadth_first_search(graph(&LOOP));
    assert!(items(&l) == loop_route());
    assert!(is_simple_solution(&g, &l));
}

#[test]
fn pbfs2_takes_the_cheaper_branch_of_a_loop() {
    let g = graph(&LOOP);
    let l = semi_parallel_breadth_first_search(graph(&LOOP));
    assert!(items(&l) == loop_route());
    assert!(is_simple_solution(&g, &l));
}

#[test]
fn pbfs_finds_a_shortest_route() {
    let g = graph(&LOOP);
    let l = parallel_breadth_first_search(graph(&LOOP));
    assert!(items(&l) == loop_route());
    assert!(is_simple_solution(&g, &l));
}

#[test]
fn unreachable_exit_is_reported_by_every_search() {
    let g = graph(&SPLIT);
    assert!(g.len() == 5);
    assert!(try_breadth_first_search(&g).is_none());
    assert!(try_double_breadth_first_search(&g).is_none());
    assert!(try_semi_parallel_breadth_first_search(&g).is_none());
}

#[test]
fn pbfs_gives_the_origin_when_the_exit_is_unreachable() {
    let l = parallel_breadth_first_search(graph(&SPLIT));
    assert!(items(&l) == vec![p(0, 0)]);
}

#[test]
fn try_searches_find_a_route_when_there_is_one() {
    let g = graph(&LOOP);
    let a = try_breadth_first_search(&g).expect("route");
    let b = try_double_breadth_first_search(&g).expect("route");
    let c = try_semi_parallel_breadth_first_search(&g).expect("route");
    assert!(is_simple_solution(&g, &a));
    assert!(is_simple_solution(&g, &b));
    assert!(is_simple_solution(&g, &c));
}

/// A winding corridor of `blocks` turns of four corners each: its exit lies
/// `4 * blocks + 1` steps from the entrance.
fn snake(blocks: usize) -> Vec<&'static str> {
    let mut picture = vec!["#.###"];
    for _ in 0..blocks {
        picture.extend_from_slice(&["#...#", "###.#", "#...#", "#.###"]);
    }
    picture
}

#[test]
fn pbfs_finds_an_exit_ninety_seven_steps_away() {
    let g = graph(&snake(24));
    let l = parallel_breadth_first_search(graph(&snake(24)));
    assert!(l.len() == 97);
    assert!(is_simple_solution(&g, &l));
    assert!(breadth_first_search(&g).len() == 97);
}

#[test]
fn pbfs_gives_up_on_an_exit_a_hundred_and_one_steps_away() {
    let g = graph(&snake(25));
    let l = breadth_first_search(&g);
    assert!(l.len() == 101);
    assert!(is_simple_solution(&g, &l));
    let far = parallel_breadth_first_search(graph(&snake(25)));
    assert!(items(&far) == vec![p(0, 0)]);
}

/// Runs a level search to its end: the sizes of the levels it explored, and
/// the route it found, if any.
fn run_levels(g: Graph) -> (Vec<usize>, Option<ConsList<Pos>>, LevelSearch) {
    let mut s = LevelSearch::new(g);
    let mut sizes = Vec::new();
    loop {
        let (next, step) = s.step();
        s = next;
        match step {
            LevelStep::Next(n) => sizes.push(n),
            LevelStep::Found(n, l) => {
                sizes.push(n);
                return (sizes, Some(l), s);
            },
            LevelStep::GaveUp(l) => {
                assert!(items(&l) == vec![p(0, 0)]);
                return (sizes, None, s);
            },
        }
    }
}

#[test]
fn level_search_reports_the_size_of_each_level() {
    let (sizes, route, s) = run_levels(graph(&WINDING));
    assert!(sizes == vec![1, 1, 1, 1, 1]);
    assert!(items(&route.expect("found")) == winding_route());
    // Once the exit is found, the search is over.
    let (_, step) = s.step();
    assert!(matches!(step, LevelStep::GaveUp(_)));
}

#[test]
fn level_search_gives_up_when_the_exit_is_out_of_reach() {
    let (sizes, route, _) = run_levels(graph(&SPLIT));
    assert!(route.is_none());
    assert!(!sizes.is_empty());
}

#[test]
fn level_search_sizes_grow_with_branches() {
    let (sizes, route, _) = run_levels(graph(&LOOP));
    assert!(sizes[0] == 1);
    assert!(items(&route.expect("found")) == loop_route());
}

/// Two routes of 7 pixels reach (5, 3): the search explores it from one and
/// then takes it out again from the other, and skips it.
const TWICE: [&str; 9] = [
    "#.#####",
    "#.....#",
    "#.###.#",
    "#.....#",
    "#####.#",
    "#####.#",
    "###...#",
    "###.###",
    "###.###",
];

#[test]
fn bfs_counts_the_nodes_it_skips() {
    let g = graph(&TWICE);
    let (route, skips) = breadth_first_search_noting_skips(&g);
    let l = route.expect("solvable");
    assert!(skips == 1);
    assert!(pixels(&g, &l) == 14);
    assert!(is_simple_solution(&g, &l));
    let (_, none) = breadth_first_search_noting_skips(&graph(&TURNS));
    assert!(none == 0);
}
