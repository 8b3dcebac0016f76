use msweeper::{Dot, Field, Point};

fn text(rows: Vec<Vec<char>>) -> Vec<String> {
    rows.into_iter().map(|row| row.into_iter().collect()).collect()
}

#[test]
fn closed_field_is_drawn_as_dots() {
    let f = Field::with_order(4, 2, 1, Point::new(0, 0), &vec![Point::new(3, 1)]);
    assert_eq!(text(f.print()), vec!["....", "...."]);
}

#[test]
fn opened_cells_show_what_they_hold() {
    // 0 0 1 x
    // 0 0 1 1
    let mut f = Field::with_order(4, 2, 1, Point::new(0, 0), &vec![Point::new(3, 0)]);
    f.set_flag(Point::new(3, 0));
    f.open(Point::new(0, 0));
    assert_eq!(text(f.print()), vec!["  1f", "  1."]);
    f.set_flag(Point::new(3, 1));
    assert_eq!(text(f.print()), vec!["  1f", "  1f"]);
    f.set_flag(Point::new(3, 1));
    f.open(Point::new(3, 1));
    assert_eq!(text(f.print()), vec!["  1f", "  11"]);
}

#[test]
fn a_flag_left_on_an_opened_cell_does_not_show() {
    let mut f = Field::with_order(3, 1, 0, Point::new(0, 0), &vec![]);
    f.set_flag(Point::new(2, 0));
    f.open(Point::new(0, 0));
    assert_eq!(text(f.print()), vec!["   "]);
}

#[test]
fn glyphs_of_single_cells() {
    assert_eq!(Dot::Mine.to_char(true), 'x');
    assert_eq!(Dot::Mine.to_char(false), '.');
    assert_eq!(Dot::Safe(0).to_char(true), ' ');
    assert_eq!(Dot::Safe(0).to_char(false), '.');
    assert_eq!(Dot::Safe(1).to_char(true), '1');
    assert_eq!(Dot::Safe(8).to_char(true), '8');
    assert_eq!(Dot::Safe(9).to_char(true), '9');
    assert_eq!(Dot::Safe(10).to_char(true), '_');
    assert_eq!(Dot::Null.to_char(true), '_');
    assert_eq!(Dot::Null.to_char(false), '.');
    assert_eq!(Dot::Flag(Box::new(Dot::Mine)).to_char(false), 'f');
    assert_eq!(Dot::Flag(Box::new(Dot::Safe(3))).to_char(false), 'f');
    assert_eq!(Dot::Flag(Box::new(Dot::Mine)).to_char(true), 'x');
    assert_eq!(Dot::Flag(Box::new(Dot::Safe(3))).to_char(true), '3');
    assert_eq!(Dot::Flag(Box::new(Dot::Safe(0))).to_char(true), ' ');
}

#[test]
fn cells_know_what_lies_under_a_flag() {
    assert!(Dot::Mine.is_mine());
    assert!(Dot::Flag(Box::new(Dot::Mine)).is_mine());
    assert!(!Dot::Safe(0).is_mine());
    assert!(!Dot::Flag(Box::new(Dot::Safe(2))).is_mine());
    assert!(!Dot::Null.is_mine());
    assert!(Dot::Safe(0).is_blank());
    assert!(Dot::Flag(Box::new(Dot::Safe(0))).is_blank());
    assert!(!Dot::Safe(1).is_blank());
    assert!(!Dot::Mine.is_blank());
    assert!(!Dot::Flag(Box::new(Dot::Mine)).is_blank());
}

#[test]
fn clone_copies_a_cell() {
    let d = Dot::Flag(Box::new(Dot::Safe(4)));
    assert_eq!(d.clone(), d);
    assert_eq!(Dot::Mine.clone(), Dot::Mine);
    assert_eq!(Dot::Null.clone(), Dot::Null);
}
