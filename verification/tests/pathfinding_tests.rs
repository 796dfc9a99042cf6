use ped_nav::grid::{make_navigable_matrix, NavigableGrid, Object, ObjectType};
use ped_nav::navigation_point::NavigationPoint;
use ped_nav::pathfinding::astar;
use ped_nav::utility_types::{NavError, Num2D};

fn cell(x: i64, y: i64) -> Num2D {
    Num2D { x, y }
}

fn empty_grid(w: usize, h: usize) -> NavigableGrid {
    make_navigable_matrix(w, h, &Vec::new())
}

fn obstacle(id: u32, x: i64, y: i64) -> Object {
    Object::new(id, ObjectType::Obstacle, cell(x, y))
}

#[test]
fn same_origin_and_destination_gives_empty_path() {
    let grid = empty_grid(3, 3);
    let path = astar(cell(1, 1), cell(1, 1), &grid).unwrap();
    assert_eq!(path.len(), 0);
}

#[test]
fn open_grid_path_has_manhattan_length() {
    let grid = empty_grid(5, 5);
    let path = astar(cell(0, 0), cell(4, 2), &grid).unwrap();
    assert_eq!(path.len(), 6);
    assert_eq!(path[0], cell(0, 0));
}

#[test]
fn path_steps_are_unit_moves_on_traversable_cells() {
    let mut objects = Vec::new();
    objects.push(obstacle(0, 2, 2));
    objects.push(obstacle(1, 1, 3));
    let grid = make_navigable_matrix(5, 5, &objects);
    let origin = cell(0, 4);
    let destination = cell(4, 0);
    let mut path = astar(origin, destination, &grid).unwrap();
    path.push(destination);
    assert_eq!(path[0], origin);
    for w in path.windows(2) {
        let dx = (w[0].x - w[1].x).abs();
        let dy = (w[0].y - w[1].y).abs();
        assert_eq!(dx + dy, 1);
    }
    for p in path.iter().skip(1) {
        assert!(grid.is_traversable(*p));
    }
}

#[test]
fn single_obstacle_forces_detour() {
    let mut objects = Vec::new();
    objects.push(obstacle(0, 2, 2));
    let grid = make_navigable_matrix(5, 5, &objects);
    let path = astar(cell(0, 2), cell(4, 2), &grid).unwrap();
    assert_eq!(path.len(), 6);
}

#[test]
fn enclosed_destination_is_unreachable() {
    let mut objects = Vec::new();
    let ring = [(1, 1), (2, 1), (3, 1), (1, 2), (3, 2), (1, 3), (2, 3), (3, 3)];
    for (i, (x, y)) in ring.iter().enumerate() {
        objects.push(obstacle(i as u32, *x, *y));
    }
    let grid = make_navigable_matrix(5, 5, &objects);
    assert_eq!(astar(cell(0, 0), cell(2, 2), &grid), Err(NavError::NoPathFound));
}

#[test]
fn blocked_destination_is_unreachable() {
    let mut objects = Vec::new();
    objects.push(obstacle(0, 1, 0));
    let grid = make_navigable_matrix(2, 1, &objects);
    assert_eq!(astar(cell(0, 0), cell(1, 0), &grid), Err(NavError::NoPathFound));
}

#[test]
fn out_of_bounds_endpoint_is_reported() {
    let grid = empty_grid(3, 3);
    assert_eq!(astar(cell(9, 9), cell(0, 0), &grid), Err(NavError::OutOfBounds));
    assert_eq!(astar(cell(0, 0), cell(-1, 0), &grid), Err(NavError::OutOfBounds));
}

#[test]
fn path_objects_do_not_block() {
    let mut objects = Vec::new();
    objects.push(Object::new(0, ObjectType::Path, cell(1, 0)));
    let grid = make_navigable_matrix(3, 1, &objects);
    let path = astar(cell(0, 0), cell(2, 0), &grid).unwrap();
    assert_eq!(path.len(), 2);
}

#[test]
fn objects_outside_the_extent_are_ignored() {
    let mut objects = Vec::new();
    objects.push(obstacle(0, 7, 7));
    let grid = make_navigable_matrix(3, 3, &objects);
    for y in 0..3 {
        for x in 0..3 {
            assert!(grid.is_traversable(cell(x, y)));
        }
    }
}

#[test]
fn navigation_point_distances() {
    let a = cell(0, 0);
    let b = cell(3, 4);
    assert_eq!(a.euclidean_distance(&b), Ok(5));
    assert_eq!(a.manhattan_distance(&b), Ok(7));
    assert_eq!(a.euclidean_distance(&cell(1, 1)), Ok(1));
    assert_eq!(b.x(), 3);
    assert_eq!(b.y(), 4);
}

#[test]
fn navigation_point_pathfinding_matches_search() {
    let grid = empty_grid(4, 4);
    let a = cell(0, 0);
    let b = cell(3, 3);
    let path = Num2D::path_to_destination(&a, &b, &grid).unwrap();
    assert_eq!(path.len(), 6);
    assert_eq!(path[0], a);
}
