use msweeper::{Dot, Field, Point};

fn mines_around(f: &Field, x: usize, y: usize) -> u8 {
    let mut n = 0;
    for dy in [-1i64, 0, 1] {
        for dx in [-1i64, 0, 1] {
            if dx == 0 && dy == 0 {
                continue;
            }
            let u = x as i64 + dx;
            let v = y as i64 + dy;
            if u < 0 || v < 0 || u >= f.x_size as i64 || v >= f.y_size as i64 {
                continue;
            }
            if f.field[v as usize][u as usize] == Dot::Mine {
                n += 1;
            }
        }
    }
    n
}

fn check_generated(f: &Field, x_size: usize, y_size: usize, mines: u32) {
    assert_eq!(f.x_size, x_size);
    assert_eq!(f.y_size, y_size);
    assert_eq!(f.mines, mines);
    assert_eq!(f.field.len(), y_size);
    assert_eq!(f.opened.len(), y_size);
    let mut found = 0;
    for y in 0..y_size {
        assert_eq!(f.field[y].len(), x_size);
        assert_eq!(f.opened[y].len(), x_size);
        for x in 0..x_size {
            assert!(!f.opened[y][x]);
            match &f.field[y][x] {
                Dot::Mine => found += 1,
                Dot::Safe(n) => assert_eq!(*n, mines_around(f, x, y)),
                other => panic!("cell ({}, {}) holds {:?}", x, y, other),
            }
        }
    }
    assert_eq!(found, mines);
}

#[test]
fn new_field_has_the_mines_it_was_made_for() {
    for _ in 0..20 {
        let f = Field::new(10, 8, 10, Point::new(5, 5));
        check_generated(&f, 10, 8, 10);
        assert_eq!(f.position, Point::new(5, 5));
        assert_eq!(f.open_count(), 0);
    }
}

#[test]
fn new_field_without_mines_is_all_blank() {
    let f = Field::new(3, 1, 0, Point::new(0, 0));
    check_generated(&f, 3, 1, 0);
    assert_eq!(f.field, vec![vec![Dot::Safe(0), Dot::Safe(0), Dot::Safe(0)]]);
}

#[test]
fn new_field_with_one_free_cell() {
    for _ in 0..10 {
        let f = Field::new(3, 3, 8, Point::new(0, 0));
        check_generated(&f, 3, 3, 8);
    }
}

#[test]
fn new_field_of_one_cell() {
    let f = Field::new(1, 1, 0, Point::new(2, 3));
    assert_eq!(f.field, vec![vec![Dot::Safe(0)]]);
    assert_eq!(f.opened, vec![vec![false]]);
}

#[test]
fn new_fields_differ_in_where_the_mines_lie() {
    // With the points left in row order the one mine would always lie at the
    // first cell.
    let mut elsewhere = false;
    for _ in 0..40 {
        let f = Field::new(10, 10, 1, Point::new(0, 0));
        check_generated(&f, 10, 10, 1);
        if f.field[0][0] != Dot::Mine {
            elsewhere = true;
        }
    }
    assert!(elsewhere);
}

#[test]
fn grid_points_lists_the_field_row_by_row() {
    let points = Field::grid_points(3, 2);
    assert_eq!(
        points,
        vec![
            Point::new(0, 0),
            Point::new(1, 0),
            Point::new(2, 0),
            Point::new(0, 1),
            Point::new(1, 1),
            Point::new(2, 1),
        ]
    );
    assert_eq!(Field::grid_points(0, 4), vec![]);
    assert_eq!(Field::grid_points(4, 0), vec![]);
}

#[test]
fn with_order_lays_the_first_points_as_mines() {
    let order = vec![Point::new(1, 1), Point::new(3, 0), Point::new(0, 0)];
    let f = Field::with_order(4, 3, 2, Point::new(7, 9), &order);
    check_generated(&f, 4, 3, 2);
    assert_eq!(f.position, Point::new(7, 9));
    assert_eq!(
        f.field,
        vec![
            vec![Dot::Safe(1), Dot::Safe(1), Dot::Safe(2), Dot::Mine],
            vec![Dot::Safe(1), Dot::Mine, Dot::Safe(2), Dot::Safe(1)],
            vec![Dot::Safe(1), Dot::Safe(1), Dot::Safe(1), Dot::Safe(0)],
        ]
    );
}

#[test]
fn with_order_counts_up_to_eight() {
    let order = vec![
        Point::new(0, 0),
        Point::new(1, 0),
        Point::new(2, 0),
        Point::new(0, 1),
        Point::new(2, 1),
        Point::new(0, 2),
        Point::new(1, 2),
        Point::new(2, 2),
    ];
    let f = Field::with_order(3, 3, 8, Point::new(0, 0), &order);
    assert_eq!(f.field[1][1], Dot::Safe(8));
    assert_eq!(f.count_mine(Point::new(1, 1)), 8);
    assert_eq!(f.count_mine(Point::new(0, 0)), 2);
    assert_eq!(f.count_mine(Point::new(1, 0)), 4);
}

#[test]
fn count_mine_sees_a_mine_under_a_flag() {
    let order = vec![Point::new(1, 0)];
    let mut f = Field::with_order(3, 1, 1, Point::new(0, 0), &order);
    assert_eq!(f.count_mine(Point::new(0, 0)), 1);
    assert_eq!(f.count_mine(Point::new(1, 0)), 0);
    f.set_flag(Point::new(1, 0));
    assert_eq!(f.count_mine(Point::new(0, 0)), 1);
    assert_eq!(f.count_mine(Point::new(2, 0)), 1);
}

#[test]
fn get_around_stays_on_the_field() {
    let f = Field::with_order(4, 3, 0, Point::new(0, 0), &vec![]);
    assert_eq!(f.get_around(Point::new(0, 0)), (0, 1, 1, 0));
    assert_eq!(f.get_around(Point::new(3, 2)), (1, 3, 2, 2));
    assert_eq!(f.get_around(Point::new(1, 1)), (0, 2, 2, 0));
    assert_eq!(f.get_around(Point::new(3, 0)), (0, 3, 1, 2));
    let one = Field::with_order(1, 1, 0, Point::new(0, 0), &vec![]);
    assert_eq!(one.get_around(Point::new(0, 0)), (0, 0, 0, 0));
}

#[test]
fn point_new_keeps_its_coordinates() {
    let p = Point::new(3, 4);
    assert_eq!(p.x, 3);
    assert_eq!(p.y, 4);
}
