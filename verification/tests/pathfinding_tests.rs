use mazepath::pathfinding::{AStar, GridMaze, Maze};

struct Grid {
    width: usize,
    height: usize,
    blocked: Vec<(usize, usize)>,
}

impl Maze for Grid {
    // the trait's spec functions are ordinary trait items to this crate;
    // answer them exactly like the executable ones
    fn spec_width(&self) -> usize {
        self.width
    }

    fn spec_height(&self) -> usize {
        self.height
    }

    fn spec_solid(&self, x: usize, y: usize) -> bool {
        self.blocked.contains(&(x, y))
    }

    fn width(&self) -> usize {
        self.width
    }

    fn height(&self) -> usize {
        self.height
    }

    fn solid(&self, x: usize, y: usize) -> bool {
        self.blocked.contains(&(x, y))
    }
}

fn astar(width: usize, height: usize, blocked: Vec<(usize, usize)>) -> AStar<Grid> {
    AStar { maze: Box::new(Grid { width, height, blocked }) }
}

fn king_adjacent(a: (usize, usize), b: (usize, usize)) -> bool {
    let dx: i64 = b.0 as i64 - a.0 as i64;
    let dy: i64 = b.1 as i64 - a.1 as i64;
    (-1..=1).contains(&dx) && (-1..=1).contains(&dy) && !(dx == 0 && dy == 0)
}

#[test]
fn open_grid_diagonal() {
    let mut search = astar(5, 5, vec![]);
    let route = search.path((0, 0), (4, 4)).expect("an open grid has a route");
    assert_eq!(route, vec![(0, 0), (1, 1), (2, 2), (3, 3), (4, 4)]);
}

#[test]
fn center_blocked_detour() {
    let mut search = astar(3, 3, vec![(1, 1)]);
    let route = search.path((0, 1), (2, 1)).expect("a detour around the center exists");
    assert_eq!(route.len(), 3);
    assert_eq!(route[0], (0, 1));
    assert_eq!(route[2], (2, 1));
    assert!(route[1] == (1, 0) || route[1] == (1, 2));
    assert!(!route.contains(&(1, 1)));
    assert_eq!(route, vec![(0, 1), (1, 0), (2, 1)]);
}

#[test]
fn single_cell_identity() {
    let mut search = astar(1, 1, vec![]);
    assert_eq!(search.path((0, 0), (0, 0)), Some(vec![(0, 0)]));
}

#[test]
fn identity_on_larger_grid() {
    let mut search = astar(4, 3, vec![(2, 2)]);
    assert_eq!(search.path((3, 1), (3, 1)), Some(vec![(3, 1)]));
}

#[test]
fn blocked_goal_no_route() {
    let mut search = astar(2, 1, vec![(1, 0)]);
    assert_eq!(search.path((0, 0), (1, 0)), None);
}

#[test]
fn walled_off_no_route() {
    let mut search = astar(3, 3, vec![(1, 0), (1, 1), (1, 2)]);
    assert_eq!(search.path((0, 1), (2, 1)), None);
}

#[test]
fn repeated_calls_identical() {
    let mut search = astar(5, 5, vec![(2, 1), (2, 2), (2, 3)]);
    let first = search.path((0, 2), (4, 2));
    let second = search.path((0, 2), (4, 2));
    let third = search.path((0, 2), (4, 2));
    assert!(first.is_some());
    assert_eq!(first, second);
    assert_eq!(second, third);
}

#[test]
fn route_stays_on_grid_and_walkable() {
    let blocked = vec![(1, 1), (3, 0), (2, 3), (0, 2)];
    let mut search = astar(4, 4, blocked.clone());
    let route = search.path((0, 0), (3, 3)).expect("a route across the grid exists");
    assert_eq!(route[0], (0, 0));
    assert_eq!(*route.last().unwrap(), (3, 3));
    for cell in &route {
        assert!(cell.0 < 4 && cell.1 < 4);
        assert!(!blocked.contains(cell));
    }
    for pair in route.windows(2) {
        assert!(king_adjacent(pair[0], pair[1]));
    }
}

#[test]
fn one_by_one_grid_has_no_neighbours() {
    // on a 1x1 grid nothing outside the single cell is ever touched
    let mut search = astar(1, 1, vec![]);
    let route = search.path((0, 0), (0, 0)).expect("the single cell is its own route");
    for cell in &route {
        assert!(cell.0 < 1 && cell.1 < 1);
    }
}

#[test]
fn grid_maze_route() {
    // row-major cells, true being solid: the center of a 3x3 is walled
    let cells = vec![
        false, false, false,
        false, true, false,
        false, false, false,
    ];
    let grid = GridMaze::new(3, 3, cells).expect("a 3x3 grid takes nine cells");
    let mut search = AStar { maze: Box::new(grid) };
    assert_eq!(search.path((0, 1), (2, 1)), Some(vec![(0, 1), (1, 0), (2, 1)]));
}

#[test]
fn grid_maze_rejects_wrong_cell_count() {
    assert!(GridMaze::new(3, 3, vec![false; 8]).is_none());
    assert!(GridMaze::new(0, 3, vec![]).is_none());
    assert!(GridMaze::new(3, 0, vec![]).is_none());
    assert!(GridMaze::new(2, 2, vec![false; 4]).is_some());
}

#[test]
fn solid_start_is_never_inspected() {
    // the search checks walkability only on cells it steps onto, never
    // on the start cell itself
    let mut search = astar(2, 1, vec![(0, 0)]);
    assert_eq!(search.path((0, 0), (1, 0)), Some(vec![(0, 0), (1, 0)]));
}

#[test]
fn corridor_route() {
    // a single open row: the route must walk it cell by cell
    let mut search = astar(5, 1, vec![]);
    let route = search.path((0, 0), (4, 0)).expect("a straight corridor has a route");
    assert_eq!(route, vec![(0, 0), (1, 0), (2, 0), (3, 0), (4, 0)]);
}
