use qsolve::datastructure::{Coord, CoordSet, LineSet, SquareColorSet};
use qsolve::squarecolor::SquareColor;

#[test]
fn square_color_set() {
    let sqs = SquareColorSet::from_iter(&[
        SquareColor::Black,
        SquareColor::White,
        SquareColor::Black,
        SquareColor::Blue,
    ]);
    assert_eq!(sqs.len(), 3);
    assert!(!sqs.is_empty());
    assert!(sqs.contains(&SquareColor::Black));
    assert!(!sqs.contains(&SquareColor::Red));
    assert_eq!(sqs.to_string(), "[Black, Blue, White]");
}

#[test]
fn line_set() {
    let ls = LineSet::from_iter(&[0, 2, 0, 5]);
    assert_eq!(ls.len(), 3);
    assert!(!ls.is_empty());
    assert!(ls.contains(&0));
    assert!(!ls.contains(&1));
    let mut lines = Vec::new();
    let mut walk = ls.iter();
    while let Some(line) = walk.next() {
        lines.push(line);
    }
    assert_eq!(lines, vec![0, 2, 5]);
    assert_eq!(ls.to_string(), "[0, 2, 5]");
}

fn coords_of(set: &CoordSet) -> Vec<Coord> {
    let mut coords = Vec::new();
    let mut walk = set.iter();
    while let Some(coord) = walk.next() {
        coords.push(coord);
    }
    coords
}

#[test]
fn coord_set() {
    let mut cs = CoordSet::from_iter(&[(0, 0), (1, 1), (0, 0), (2, 4)]);
    assert_eq!(cs.len(), 3);
    assert!(!cs.is_empty());
    assert!(cs.contains(&(0, 0)));
    assert!(!cs.contains(&(5, 5)));
    assert_eq!(coords_of(&cs), vec![(0, 0), (1, 1), (2, 4)]);
    assert_eq!(cs.to_string(), "[(0, 0), (1, 1), (2, 4)]");
    cs.extend(&[(5, 5)]);
    assert!(cs.contains(&(5, 5)));
}

#[test]
fn empty_sets() {
    assert!(SquareColorSet::default().is_empty());
    assert_eq!(SquareColorSet::default().len(), 0);
    assert_eq!(SquareColorSet::default().to_string(), "[]");
    assert!(LineSet::default().is_empty());
    assert_eq!(LineSet::default().to_string(), "[]");
    assert!(LineSet::default().iter().next().is_none());
    assert!(CoordSet::default().is_empty());
    assert_eq!(CoordSet::default().len(), 0);
    assert_eq!(CoordSet::default().to_string(), "[]");
    assert!(CoordSet::default().iter().next().is_none());
}

#[test]
fn sets_hold_the_last_place() {
    let colors = SquareColorSet::from_iter(&[SquareColor::BrightWhite]);
    assert!(colors.contains(&SquareColor::BrightWhite));
    assert!(!colors.contains(&SquareColor::BrightCyan));
    let lines = LineSet::from_iter(&[15]);
    assert!(lines.contains(&15));
    assert_eq!(lines.to_string(), "[15]");
    let coords = CoordSet::from_iter(&[(15, 15), (15, 0), (0, 15)]);
    assert_eq!(coords_of(&coords), vec![(0, 15), (15, 0), (15, 15)]);
    assert_eq!(coords.to_string(), "[(0, 15), (15, 0), (15, 15)]");
}

#[test]
fn coord_set_algebra() {
    let cs1 = CoordSet::from_iter(&[(1, 1), (2, 2), (3, 3), (4, 4)]);
    let cs2 = CoordSet::from_iter(&[(3, 3), (4, 4), (5, 5), (6, 6)]);
    assert_eq!(cs1.intersection(&cs2), CoordSet::from_iter(&[(3, 3), (4, 4)]));
    assert_eq!(
        cs1.union(&cs2),
        CoordSet::from_iter(&[(1, 1), (2, 2), (3, 3), (4, 4), (5, 5), (6, 6)])
    );
    assert_eq!(cs1.difference(&cs2), CoordSet::from_iter(&[(1, 1), (2, 2)]));
    let mut cs = CoordSet::from_iter(&[(1, 1)]);
    assert_eq!(cs.len(), 1);
    cs.add((1, 3));
    assert_eq!(cs.len(), 2);
    assert!(cs.contains(&(1, 3)));
    cs.add((1, 3));
    assert_eq!(cs.len(), 2);
}
