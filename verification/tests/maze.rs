use maze_field::coord::{Coord, Direction, RectRange};
use maze_field::maze::{
    dig_maze, keep_or_replace, DigError, DigSite, RandomSource, Register, Trace,
};

/// A small linear congruential generator.
struct Lcg(u64);

impl RandomSource for Lcg {
    fn does_happen(&mut self, n: u32) -> bool {
        self.0 = self.0.wrapping_mul(6364136223846793005).wrapping_add(1442695040888963407);
        ((self.0 >> 33) % (n as u64)) == 0
    }
}

/// Answers every draw alike, and counts the draws.
struct Fixed {
    answer: bool,
    asked: Vec<u32>,
}

impl RandomSource for Fixed {
    fn does_happen(&mut self, n: u32) -> bool {
        self.asked.push(n);
        self.answer
    }
}

/// Marks carved cells in a grid of booleans.
struct Buffer {
    cells: Vec<Vec<bool>>,
}

impl Register for Buffer {
    type Error = String;

    fn register(&mut self, cd: Coord) -> Result<(), String> {
        self.cells[cd.y as usize][cd.x as usize] = true;
        Ok(())
    }
}

/// Takes cells until `limit` calls were made; the call number `limit` fails.
struct Failing {
    limit: usize,
    seen: Vec<Coord>,
    calls: usize,
}

impl Register for Failing {
    type Error = String;

    fn register(&mut self, cd: Coord) -> Result<(), String> {
        self.calls += 1;
        if self.calls == self.limit {
            return Err(format!("refused ({}, {})", cd.x, cd.y));
        }
        self.seen.push(cd);
        Ok(())
    }
}

/// Carves `range` into a list of coordinates.
fn carve_into_list<R: RandomSource>(range: RectRange, rng: &mut R) -> Vec<Coord> {
    let mut trace = Trace::new(Vec::new());
    dig_maze(range, rng, &mut trace).unwrap();
    trace.into_inner()
}

fn range(x_min: i32, y_min: i32, x_max: i32, y_max: i32) -> RectRange {
    RectRange::new(x_min, y_min, x_max, y_max).unwrap()
}

fn cd(x: i32, y: i32) -> Coord {
    Coord::new(x, y)
}

fn has_duplicates(cells: &Vec<Coord>) -> bool {
    for i in 0..cells.len() {
        for j in (i + 1)..cells.len() {
            if cells[i] == cells[j] {
                return true;
            }
        }
    }
    false
}

fn one_step_apart(a: Coord, b: Coord) -> bool {
    (a.x == b.x && (a.y - b.y).abs() == 1) || (a.y == b.y && (a.x - b.x).abs() == 1)
}

#[test]
fn print_maze() {
    let mut rng = Lcg(1);
    let range = range(20, 10, 50, 20);
    let mut buffer = Trace::new(Buffer { cells: vec![vec![false; 80]; 24] });
    dig_maze(range, &mut rng, &mut buffer).unwrap();
    for v in buffer.into_inner().cells {
        let mut line = String::new();
        for f in v {
            if f {
                line.push('#');
            } else {
                line.push(' ');
            }
        }
        println!("{}", line);
    }
}

#[test]
fn twenty_by_ten_from_origin() {
    let mut rng = Lcg(42);
    let range = range(0, 0, 20, 10);
    let cells = carve_into_list(range, &mut rng);
    assert_eq!(cells[0], cd(0, 0));
    assert!(!has_duplicates(&cells));
    for c in &cells {
        assert!(range.contains(*c));
    }
    // 10 x 5 lattice points, and one cell for each of the 49 edges of the tree
    assert_eq!(cells.len(), 50 + 49);
    assert!(cells.len() < 20 * 10);
    for i in 0..10 {
        for j in 0..5 {
            assert!(cells.contains(&cd(2 * i, 2 * j)));
        }
    }
}

#[test]
fn every_lattice_point_is_carved_once() {
    for seed in 0..20u64 {
        let mut rng = Lcg(seed);
        let range = range(-3, 7, 6, 14);
        let cells = carve_into_list(range, &mut rng);
        for i in 0..5 {
            for j in 0..4 {
                let p = cd(-3 + 2 * i, 7 + 2 * j);
                assert_eq!(cells.iter().filter(|c| **c == p).count(), 1);
            }
        }
        assert!(!has_duplicates(&cells));
        assert_eq!(cells.len(), 20 + 19);
    }
}

#[test]
fn carved_cells_form_a_tree() {
    let mut rng = Lcg(7);
    let range = range(0, 0, 9, 9);
    let cells = carve_into_list(range, &mut rng);
    // every cell but the first hangs on an earlier one
    for j in 1..cells.len() {
        assert!((0..j).any(|p| one_step_apart(cells[p], cells[j])));
    }
    // cells with two odd offsets are never carved: they stay walls
    for c in &cells {
        assert!(c.x % 2 == 0 || c.y % 2 == 0);
    }
    let edges = cells.iter().filter(|c| c.x % 2 != 0 || c.y % 2 != 0).count();
    let nodes = cells.len() - edges;
    assert_eq!(nodes, 25);
    assert_eq!(edges, nodes - 1);
}

#[test]
fn carving_goes_deep_before_it_comes_back() {
    for seed in 0..10u64 {
        let mut rng = Lcg(seed);
        let range = range(0, 0, 11, 7);
        let cells = carve_into_list(range, &mut rng);
        let mut j = 1;
        while j < cells.len() {
            // the edge at j joins the node at j + 1 to the node at p
            let p = (0..j)
                .find(|p| {
                    p % 2 == 0
                        && cells[*p].x + cells[j + 1].x == 2 * cells[j].x
                        && cells[*p].y + cells[j + 1].y == 2 * cells[j].y
                })
                .unwrap();
            // every node carved in between had no way left
            let mut q = p + 2;
            while q < j {
                for (dx, dy) in [(0, -2), (2, 0), (-2, 0), (0, 2)] {
                    let n = cd(cells[q].x + dx, cells[q].y + dy);
                    if range.contains(n) {
                        assert!(cells[..j].contains(&n));
                    }
                }
                q += 2;
            }
            j += 2;
        }
    }
}

#[test]
fn carving_stays_inside_the_range() {
    for seed in 0..10u64 {
        let mut rng = Lcg(seed);
        let range = range(20, 10, 50, 20);
        let cells = carve_into_list(range, &mut rng);
        for c in &cells {
            assert!(20 <= c.x && c.x < 50 && 10 <= c.y && c.y < 20);
        }
    }
}

#[test]
fn single_cell_range_carves_the_corner_only() {
    let mut rng = Fixed { answer: true, asked: Vec::new() };
    let cells = carve_into_list(range(5, 5, 6, 6), &mut rng);
    assert_eq!(cells, vec![cd(5, 5)]);
    assert!(rng.asked.is_empty());
}

#[test]
fn carving_has_one_cell_less_than_twice_the_lattice_points() {
    for w in 1..8i32 {
        for h in 1..6i32 {
            let mut rng = Lcg((w * 10 + h) as u64);
            let cells = carve_into_list(range(-2, 3, -2 + w, 3 + h), &mut rng);
            let n = ((w + 1) / 2) * ((h + 1) / 2);
            assert_eq!(cells.len() as i32, 2 * n - 1);
        }
    }
}

#[test]
fn two_by_two_range_asks_for_no_draw() {
    let mut rng = Fixed { answer: true, asked: Vec::new() };
    let cells = carve_into_list(range(0, 0, 2, 2), &mut rng);
    assert_eq!(cells, vec![cd(0, 0)]);
    assert!(rng.asked.is_empty());
}

#[test]
fn draws_are_numbered_from_one_in_each_round() {
    let mut rng = Fixed { answer: false, asked: Vec::new() };
    let cells = carve_into_list(range(0, 0, 5, 5), &mut rng);
    assert_eq!(cells.len(), 9 + 8);
    assert_eq!(rng.asked[0], 1);
    for k in 1..rng.asked.len() {
        assert!(rng.asked[k] == 1 || rng.asked[k] == rng.asked[k - 1] + 1);
        assert!(1 <= rng.asked[k] && rng.asked[k] <= 4);
    }
}

#[test]
fn range_at_the_edge_of_the_coordinates() {
    let mut rng = Lcg(3);
    let cells = carve_into_list(range(i32::MAX - 3, i32::MIN, i32::MAX, i32::MIN + 3), &mut rng);
    assert_eq!(cells.len(), 7);
    assert_eq!(cells[0], cd(i32::MAX - 3, i32::MIN));
}

#[test]
fn draws_that_always_fail_take_the_first_eligible_direction() {
    let mut rng = Fixed { answer: false, asked: Vec::new() };
    let cells = carve_into_list(range(0, 0, 3, 3), &mut rng);
    assert_eq!(
        cells,
        vec![cd(0, 0), cd(1, 0), cd(2, 0), cd(2, 1), cd(2, 2), cd(1, 2), cd(0, 2)]
    );
    // two eligible directions at the corner, one at each of the next two points
    assert_eq!(rng.asked, vec![1, 2, 1, 1]);
}

#[test]
fn draws_that_always_succeed_take_the_last_eligible_direction() {
    let mut rng = Fixed { answer: true, asked: Vec::new() };
    let cells = carve_into_list(range(0, 0, 3, 3), &mut rng);
    assert_eq!(
        cells,
        vec![cd(0, 0), cd(0, 1), cd(0, 2), cd(1, 2), cd(2, 2), cd(2, 1), cd(2, 0)]
    );
    assert_eq!(rng.asked, vec![1, 2, 1, 1]);
}

#[test]
fn failure_on_the_first_registration() {
    let mut rng = Lcg(1);
    let mut trace = Trace::new(Failing { limit: 1, seen: Vec::new(), calls: 0 });
    let err: DigError<String> = dig_maze(range(0, 0, 9, 9), &mut rng, &mut trace).unwrap_err();
    let sink = trace.into_inner();
    assert_eq!(sink.calls, 1);
    assert!(sink.seen.is_empty());
    assert_eq!(err.cause, "refused (0, 0)");
    assert_eq!(err.trail, vec![DigSite::DigMaze]);
}

#[test]
fn failure_on_a_later_registration_stops_the_carving() {
    for k in 2..20usize {
        let mut rng = Lcg(11);
        let mut trace = Trace::new(Failing { limit: k, seen: Vec::new(), calls: 0 });
        let err = dig_maze(range(0, 0, 9, 9), &mut rng, &mut trace).unwrap_err();
        let sink = trace.into_inner();
        assert_eq!(sink.calls, k);
        assert_eq!(sink.seen.len(), k - 1);
        assert!(err.cause.starts_with("refused"));
        assert_eq!(err.trail, vec![DigSite::DigImpl, DigSite::DigMaze]);
    }
}

#[test]
fn no_failure_when_the_limit_is_never_reached() {
    let mut rng = Lcg(11);
    let mut trace = Trace::new(Failing { limit: 1000, seen: Vec::new(), calls: 0 });
    assert!(dig_maze(range(0, 0, 9, 9), &mut rng, &mut trace).is_ok());
    assert_eq!(trace.sink().calls, 25 + 24);
}

#[test]
fn first_draw_cannot_stop_the_carving() {
    // a source that refuses even the certain event still leaves no lattice point out
    let mut rng = Fixed { answer: false, asked: Vec::new() };
    let cells = carve_into_list(range(0, 0, 7, 5), &mut rng);
    assert_eq!(cells.len(), 12 + 11);
    for i in 0..4 {
        for j in 0..3 {
            assert!(cells.contains(&cd(2 * i, 2 * j)));
        }
    }
}

#[test]
fn site_labels() {
    assert_eq!(DigSite::DigMaze.label(), "[maze::dig_maze]");
    assert_eq!(DigSite::DigImpl.label(), "[maze::dig_impl]");
}

#[test]
fn trace_hands_every_coordinate_on() {
    let mut trace = Trace::new(Failing { limit: 2, seen: Vec::new(), calls: 0 });
    assert_eq!(trace.register(cd(1, 2)), Ok(()));
    assert_eq!(trace.register(cd(3, 4)), Err("refused (3, 4)".to_string()));
    assert_eq!(trace.register(cd(5, 6)), Ok(()));
    assert_eq!(trace.sink().seen, vec![cd(1, 2), cd(5, 6)]);
    assert_eq!(trace.into_inner().calls, 3);
}

#[test]
fn list_of_coordinates_registers_in_order() {
    let mut cells: Vec<Coord> = Vec::new();
    assert_eq!(cells.register(cd(1, 2)), Ok(()));
    assert_eq!(cells.register(cd(3, 4)), Ok(()));
    assert_eq!(cells, vec![cd(1, 2), cd(3, 4)]);
}

#[test]
fn first_candidate_always_stands() {
    assert_eq!(keep_or_replace(None, 1, 'a', false), Some('a'));
    assert_eq!(keep_or_replace(None, 1, 'a', true), Some('a'));
}

#[test]
fn later_candidate_replaces_on_a_hit_only() {
    assert_eq!(keep_or_replace(Some('a'), 2, 'b', false), Some('a'));
    assert_eq!(keep_or_replace(Some('a'), 2, 'b', true), Some('b'));
    assert_eq!(keep_or_replace(Some('b'), 3, 'c', false), Some('b'));
}

#[test]
fn directions_in_scanning_order() {
    assert_eq!(Direction::from_index(0), Direction::Up);
    assert_eq!(Direction::from_index(1), Direction::Right);
    assert_eq!(Direction::from_index(2), Direction::Left);
    assert_eq!(Direction::from_index(3), Direction::Down);
    assert_eq!(Direction::Up.to_cd(), cd(0, -1));
    assert_eq!(Direction::Right.to_cd(), cd(1, 0));
    assert_eq!(Direction::Left.to_cd(), cd(-1, 0));
    assert_eq!(Direction::Down.to_cd(), cd(0, 1));
}

#[test]
fn steps_and_their_limits() {
    assert_eq!(cd(3, 4).step(Direction::Up, 2), Some(cd(3, 2)));
    assert_eq!(cd(3, 4).step(Direction::Down, 2), Some(cd(3, 6)));
    assert_eq!(cd(3, 4).step(Direction::Left, 2), Some(cd(1, 4)));
    assert_eq!(cd(3, 4).step(Direction::Right, 2), Some(cd(5, 4)));
    assert_eq!(cd(i32::MAX - 1, 0).step(Direction::Right, 2), None);
    assert_eq!(cd(0, i32::MIN).step(Direction::Up, 1), None);
    assert_eq!(cd(3, 4).moved(Direction::Right, 1), cd(4, 4));
}

#[test]
fn ranges_must_not_be_empty() {
    assert!(RectRange::new(0, 0, 0, 5).is_none());
    assert!(RectRange::new(0, 5, 3, 5).is_none());
    assert!(RectRange::new(2, 0, 1, 5).is_none());
    let r = RectRange::new(1, 2, 4, 6).unwrap();
    assert_eq!(r.upper_left(), cd(1, 2));
    assert!(r.contains(cd(1, 2)));
    assert!(r.contains(cd(3, 5)));
    assert!(!r.contains(cd(4, 5)));
    assert!(!r.contains(cd(3, 6)));
    assert!(!r.contains(cd(0, 2)));
}
