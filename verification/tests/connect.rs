use srither::connect_analysis::{find_disconn_area, get_articulation, run, splits};
use srither::connect_map::{Area, ConnectMap};
use srither::geom::{CellId, Point};
use srither::model::State;
use srither::puzzle::{Edge, Puzzle, Side};
use srither::side_map::SideMap;

#[test]
fn areas_join_and_count() {
    let puzzle = "__\n".parse::<Puzzle>().unwrap();
    let mut map = SideMap::from_puzzle(&puzzle);
    let mut conn = ConnectMap::new(&puzzle, &mut map);
    assert_eq!(3, conn.cell_len());
    assert_eq!(3, conn.count_area());
    map.set_same(CellId::new(1), CellId::new(2));
    conn.sync(&mut map).unwrap();
    assert_eq!(2, conn.count_area());
    assert_eq!(conn.get(CellId::new(1)).coord(), conn.get(CellId::new(2)).coord());
    assert_eq!(CellId::new(1), conn.get(CellId::new(2)).coord());
    map.set_outside(CellId::new(1));
    conn.sync(&mut map).unwrap();
    assert_eq!(1, conn.count_area());
    assert_eq!(State::Fixed(Side::Out), conn.get(CellId::new(2)).side());
}

#[test]
fn articulation_of_a_path() {
    // 0 - 1 - 2, and 3 alone
    let graph = vec![vec![1], vec![0, 2], vec![1], vec![]];
    let mut arts = vec![];
    let mut gvisited = vec![false; 4];
    let visited = get_articulation(&graph, 0, &mut arts, &mut gvisited);
    assert_eq!(vec![true, true, true, false], visited);
    assert_eq!(vec![true, true, true, false], gvisited);
    assert_eq!(vec![1], arts);
}

#[test]
fn splitting_vertices() {
    let graph = vec![vec![1], vec![0, 2], vec![1]];
    let sides = vec![State::Fixed(Side::In), State::Unknown, State::Fixed(Side::In)];
    assert!(splits(&graph, 1, &sides, Side::In));
    assert!(!splits(&graph, 0, &sides, Side::In));
    assert!(!splits(&graph, 1, &sides, Side::Out));
}

#[test]
fn disconnected_areas_without_hints() {
    assert_eq!(Vec::<usize>::new(), find_disconn_area(&vec![1, 2], &vec![true, true]));
    assert_eq!(vec![1], find_disconn_area(&vec![1, 0], &vec![true, false]));
    assert_eq!(vec![0], find_disconn_area(&vec![0, 3], &vec![true, false]));
    assert_eq!(Vec::<usize>::new(), find_disconn_area(&vec![1, 3], &vec![true, false]));
}

#[test]
fn analysis_runs_once_per_revision() {
    let puzzle = "_3_\n".parse::<Puzzle>().unwrap();
    let mut map = SideMap::from_puzzle(&puzzle);
    let mut conn = ConnectMap::new(&puzzle, &mut map);
    let mut last_rev = None;
    run(&mut map, &mut conn, &mut last_rev).unwrap();
    let rev = map.revision();
    assert!(last_rev.is_some());
    run(&mut map, &mut conn, &mut last_rev).unwrap();
    if last_rev == Some(rev) {
        assert_eq!(rev, map.revision());
    }
}

#[test]
fn single_cell_areas_list_unknown_edges() {
    let puzzle = "1__\n___\n".parse::<Puzzle>().unwrap();
    let mut map = SideMap::from_puzzle(&puzzle);
    let area = Area::new(Point(0, 0), &puzzle, &mut map);
    assert_eq!(1, area.sum_of_hint());
    assert_eq!(CellId::new(1), area.coord());
    let ids: Vec<usize> = area.unknown_edge().iter().map(|c| c.id()).collect();
    assert_eq!(vec![0, 2, 4], ids);

    let outside = Area::new(Point(-1, -1), &puzzle, &mut map);
    assert_eq!(0, outside.sum_of_hint());
    let ids: Vec<usize> = outside.unknown_edge().iter().map(|c| c.id()).collect();
    assert_eq!(vec![1, 2, 3, 4, 5, 6], ids);

    map.set_edge(CellId::new(1), CellId::new(2), Edge::Line);
    let area = Area::new(Point(0, 0), &puzzle, &mut map);
    let ids: Vec<usize> = area.unknown_edge().iter().map(|c| c.id()).collect();
    assert_eq!(vec![0, 4], ids);
}

#[test]
fn articulation_of_a_triangle_with_tails() {
    // 0 - 1 - 2 - 0 form a triangle; 3 hangs on 2, and 4 hangs on 3
    let graph = vec![vec![1, 2], vec![0, 2], vec![1, 0, 3], vec![2, 4], vec![3]];
    let mut arts = vec![];
    let mut gvisited = vec![false; 5];
    get_articulation(&graph, 0, &mut arts, &mut gvisited);
    arts.sort();
    assert_eq!(vec![2, 3], arts);

    // started from a tail end, the same vertices are found
    let mut arts = vec![];
    let mut gvisited = vec![false; 5];
    get_articulation(&graph, 4, &mut arts, &mut gvisited);
    arts.sort();
    assert_eq!(vec![2, 3], arts);
}

#[test]
fn articulation_of_empty_graph() {
    let graph: Vec<Vec<usize>> = vec![];
    let mut arts = vec![];
    let mut gvisited: Vec<bool> = vec![];
    let visited = get_articulation(&graph, 0, &mut arts, &mut gvisited);
    assert!(visited.is_empty());
    assert!(arts.is_empty());
    assert!(gvisited.is_empty());
}

#[test]
fn area_hint_sums_add_up() {
    let puzzle = "23\n".parse::<Puzzle>().unwrap();
    let mut map = SideMap::from_puzzle(&puzzle);
    let mut conn = ConnectMap::new(&puzzle, &mut map);
    assert_eq!(2, conn.get(CellId::new(1)).sum_of_hint());
    assert_eq!(3, conn.get(CellId::new(2)).sum_of_hint());
    map.set_same(CellId::new(1), CellId::new(2));
    conn.sync(&mut map).unwrap();
    assert_eq!(5, conn.get(CellId::new(1)).sum_of_hint());
    assert_eq!(5, conn.get(CellId::new(2)).sum_of_hint());
    assert_eq!(2, conn.get(CellId::new(1)).size());
    assert_eq!(1, conn.get(CellId::new(0)).size());
}

#[test]
fn cut_off_area_without_hint_goes_outside() {
    let puzzle = "__1\n".parse::<Puzzle>().unwrap();
    let mut map = SideMap::from_puzzle(&puzzle);
    let mut conn = ConnectMap::new(&puzzle, &mut map);
    map.set_outside(CellId::new(2));
    let mut last_rev = None;
    run(&mut map, &mut conn, &mut last_rev).unwrap();
    assert_eq!(State::Fixed(Side::Out), map.get_side(CellId::new(1)));
}
