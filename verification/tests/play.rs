use msweeper::{Dot, Field, Point};

fn opened_cells(f: &Field) -> Vec<(usize, usize)> {
    let mut cells = Vec::new();
    for y in 0..f.y_size {
        for x in 0..f.x_size {
            if f.opened[y][x] {
                cells.push((x, y));
            }
        }
    }
    cells
}

#[test]
fn opening_a_blank_cell_floods_the_row() {
    let mut f = Field::new(3, 1, 0, Point::new(0, 0));
    assert_eq!(f.field, vec![vec![Dot::Safe(0), Dot::Safe(0), Dot::Safe(0)]]);
    assert!(f.open(Point::new(0, 0)));
    assert_eq!(f.opened, vec![vec![true, true, true]]);
    assert_eq!(f.open_count(), 3);
    assert!(f.is_won());
}

#[test]
fn flood_stops_at_the_numbers() {
    // 0 1 x 1 0
    let mut f = Field::with_order(5, 1, 1, Point::new(0, 0), &vec![Point::new(2, 0)]);
    assert!(f.open(Point::new(0, 0)));
    assert_eq!(opened_cells(&f), vec![(0, 0), (1, 0)]);
    assert_eq!(f.open_count(), 2);
    assert!(!f.is_won());
    assert!(f.open(Point::new(4, 0)));
    assert_eq!(opened_cells(&f), vec![(0, 0), (1, 0), (3, 0), (4, 0)]);
    assert_eq!(f.open_count(), 4);
    assert!(f.is_won());
}

#[test]
fn flood_opens_the_region_and_its_border() {
    // 0 0 0 0
    // 0 0 0 0
    // 0 0 1 1
    // 0 0 1 x
    let mut f = Field::with_order(4, 4, 1, Point::new(0, 0), &vec![Point::new(3, 3)]);
    assert!(f.open(Point::new(0, 0)));
    assert_eq!(f.open_count(), 15);
    assert!(!f.opened[3][3]);
    assert!(f.is_won());
}

#[test]
fn flood_does_not_cross_a_wall_of_numbers() {
    // 0 1 x 1 0
    // 0 1 1 1 0
    // 0 0 0 0 0   <- the regions join below the mine
    let mut joined = Field::with_order(5, 3, 1, Point::new(0, 0), &vec![Point::new(2, 0)]);
    assert!(joined.open(Point::new(0, 0)));
    assert_eq!(joined.open_count(), 14);

    // 0 1 x 1 0
    // 0 1 x 1 0
    let wall = vec![Point::new(2, 0), Point::new(2, 1)];
    let mut apart = Field::with_order(5, 2, 2, Point::new(0, 0), &wall);
    assert!(apart.open(Point::new(0, 1)));
    assert_eq!(opened_cells(&apart), vec![(0, 0), (1, 0), (0, 1), (1, 1)]);
}

#[test]
fn flood_winds_through_a_long_passage() {
    // a field of 200 by 200 without mines is opened in one step
    let mut f = Field::with_order(200, 200, 0, Point::new(0, 0), &vec![]);
    assert!(f.open(Point::new(100, 100)));
    assert_eq!(f.open_count(), 40000);
}

#[test]
fn opening_a_number_opens_one_cell() {
    let mut f = Field::with_order(3, 3, 1, Point::new(0, 0), &vec![Point::new(0, 0)]);
    assert_eq!(f.field[1][1], Dot::Safe(1));
    assert!(f.open(Point::new(1, 1)));
    assert_eq!(opened_cells(&f), vec![(1, 1)]);
    assert_eq!(f.open_count(), 1);
}

#[test]
fn opening_an_opened_cell_changes_nothing() {
    let mut f = Field::with_order(5, 1, 1, Point::new(0, 0), &vec![Point::new(2, 0)]);
    assert!(f.open(Point::new(1, 0)));
    assert_eq!(f.open_count(), 1);
    let cells = f.field.clone();
    let opened = f.opened.clone();
    assert!(f.open(Point::new(1, 0)));
    assert_eq!(f.open_count(), 1);
    assert_eq!(f.field, cells);
    assert_eq!(f.opened, opened);

    // an opened blank cell too
    assert!(f.open(Point::new(0, 0)));
    assert_eq!(f.open_count(), 2);
    assert!(f.open(Point::new(0, 0)));
    assert_eq!(f.open_count(), 2);
}

#[test]
fn opening_a_mine_is_reported_and_opens_nothing() {
    let mut f = Field::with_order(2, 2, 1, Point::new(0, 0), &vec![Point::new(1, 0)]);
    assert!(!f.open(Point::new(1, 0)));
    assert_eq!(f.open_count(), 0);
    assert_eq!(f.opened, vec![vec![false, false], vec![false, false]]);
}

#[test]
fn opening_a_flagged_mine_is_reported_too() {
    let mut f = Field::with_order(2, 2, 1, Point::new(0, 0), &vec![Point::new(1, 0)]);
    f.set_flag(Point::new(1, 0));
    assert_eq!(f.field[0][1], Dot::Flag(Box::new(Dot::Mine)));
    assert!(!f.open(Point::new(1, 0)));
    assert_eq!(f.open_count(), 0);
    f.set_flag(Point::new(1, 0));
    assert!(!f.open(Point::new(1, 0)));
}

#[test]
fn opening_off_the_field_is_harmless() {
    let mut f = Field::with_order(2, 2, 1, Point::new(0, 0), &vec![Point::new(1, 0)]);
    assert!(f.open(Point::new(2, 0)));
    assert!(f.open(Point::new(0, 2)));
    assert!(f.open(Point::new(usize::MAX, usize::MAX)));
    assert_eq!(f.open_count(), 0);
}

#[test]
fn win_on_two_by_two_with_one_mine() {
    for _ in 0..10 {
        let mut f = Field::new(2, 2, 1, Point::new(0, 0));
        for y in 0..2 {
            for x in 0..2 {
                if f.field[y][x] != Dot::Mine {
                    assert!(!f.is_won());
                    assert!(f.open(Point::new(x, y)));
                }
            }
        }
        assert_eq!(f.open_count(), 3);
        assert_eq!(4 - f.open_count(), f.mines);
        assert!(f.is_won());
    }
}

#[test]
fn flood_ignores_flags() {
    let mut f = Field::with_order(3, 1, 0, Point::new(0, 0), &vec![]);
    f.set_flag(Point::new(1, 0));
    assert!(f.open(Point::new(0, 0)));
    assert_eq!(f.opened, vec![vec![true, true, true]]);

    // a flagged blank cell is opened like any other
    let mut g = Field::with_order(3, 1, 0, Point::new(0, 0), &vec![]);
    g.set_flag(Point::new(0, 0));
    assert!(g.open(Point::new(0, 0)));
    assert_eq!(g.opened, vec![vec![true, true, true]]);
    assert_eq!(g.field[0][0], Dot::Flag(Box::new(Dot::Safe(0))));
}

#[test]
fn open_if_zero_only_works_on_closed_blank_cells() {
    let mut f = Field::with_order(5, 1, 1, Point::new(0, 0), &vec![Point::new(2, 0)]);
    assert!(!f.open_if_zero(Point::new(1, 0)));
    assert!(!f.open_if_zero(Point::new(2, 0)));
    assert_eq!(f.open_count(), 0);
    assert!(f.open_if_zero(Point::new(0, 0)));
    assert_eq!(opened_cells(&f), vec![(0, 0), (1, 0)]);
    assert!(!f.open_if_zero(Point::new(0, 0)));
    assert_eq!(f.open_count(), 2);
}

#[test]
fn is_opened_reads_the_marks() {
    let mut f = Field::with_order(3, 3, 1, Point::new(0, 0), &vec![Point::new(0, 0)]);
    assert!(!f.is_opened(Point::new(1, 1)));
    f.open(Point::new(1, 1));
    assert!(f.is_opened(Point::new(1, 1)));
    assert!(!f.is_opened(Point::new(2, 2)));
}

#[test]
fn flag_toggles_on_and_off() {
    let mut f = Field::with_order(2, 2, 1, Point::new(0, 0), &vec![Point::new(1, 0)]);
    let cells = f.field.clone();
    let opened = f.opened.clone();
    f.set_flag(Point::new(0, 1));
    assert_eq!(f.field[1][0], Dot::Flag(Box::new(Dot::Safe(1))));
    assert_eq!(f.opened, opened);
    f.set_flag(Point::new(0, 1));
    assert_eq!(f.field, cells);
    assert_eq!(f.opened, opened);

    f.set_flag(Point::new(1, 0));
    assert_eq!(f.field[0][1], Dot::Flag(Box::new(Dot::Mine)));
    f.set_flag(Point::new(1, 0));
    assert_eq!(f.field, cells);
}

#[test]
fn flag_on_an_opened_cell_does_nothing() {
    let mut f = Field::with_order(2, 2, 1, Point::new(0, 0), &vec![Point::new(1, 0)]);
    assert!(f.open(Point::new(0, 0)));
    let cells = f.field.clone();
    let opened = f.opened.clone();
    f.set_flag(Point::new(0, 0));
    assert_eq!(f.field, cells);
    assert_eq!(f.opened, opened);
    assert_eq!(f.open_count(), 1);
}

#[test]
fn flag_off_the_field_does_nothing() {
    let mut f = Field::with_order(2, 2, 1, Point::new(0, 0), &vec![Point::new(1, 0)]);
    let cells = f.field.clone();
    f.set_flag(Point::new(2, 0));
    f.set_flag(Point::new(0, 5));
    assert_eq!(f.field, cells);
}

#[test]
fn flags_do_not_count_as_opened() {
    let mut f = Field::with_order(2, 2, 1, Point::new(0, 0), &vec![Point::new(1, 0)]);
    f.set_flag(Point::new(0, 0));
    f.set_flag(Point::new(1, 0));
    assert_eq!(f.open_count(), 0);
    assert!(!f.is_won());
}

#[test]
fn open_count_counts_every_row() {
    let mut f = Field::with_order(3, 3, 1, Point::new(0, 0), &vec![Point::new(1, 1)]);
    assert_eq!(f.open_count(), 0);
    f.open(Point::new(0, 0));
    f.open(Point::new(2, 1));
    f.open(Point::new(1, 2));
    assert_eq!(f.open_count(), 3);
}

#[test]
fn a_region_opens_the_same_from_any_of_its_cells() {
    // 0 0 1 x 1
    // 0 0 1 1 1
    // 0 0 0 0 0
    let mines = vec![Point::new(3, 0)];
    let mut first = Field::with_order(5, 3, 1, Point::new(0, 0), &mines);
    let mut second = Field::with_order(5, 3, 1, Point::new(0, 0), &mines);
    assert!(first.open(Point::new(0, 0)));
    assert!(second.open(Point::new(4, 2)));
    assert_eq!(first.opened, second.opened);
    assert_eq!(
        first.opened,
        vec![
            vec![true, true, true, false, false],
            vec![true, true, true, true, true],
            vec![true, true, true, true, true],
        ]
    );
}
