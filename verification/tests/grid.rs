use qsolve::grid::{find_grid_gaps, ranges_near_median, square_colors};
use qsolve::image::Pixel;
use qsolve::squarecolor::SquareColor;

fn flags(text: &str) -> Vec<bool> {
    text.chars().map(|ch| ch == '#').collect()
}

fn pixel(r: u8, g: u8, b: u8) -> Pixel {
    Pixel { r, g, b }
}

#[test]
fn gaps_lie_between_thin_lines() {
    let black = flags("..##....#...###.");
    assert_eq!(find_grid_gaps(&black), vec![(4, 8), (9, 12)]);
}

#[test]
fn gaps_need_two_lines() {
    assert_eq!(find_grid_gaps(&flags("")), vec![]);
    assert_eq!(find_grid_gaps(&flags("......")), vec![]);
    assert_eq!(find_grid_gaps(&flags("..#...")), vec![]);
    assert_eq!(find_grid_gaps(&flags("######")), vec![]);
}

#[test]
fn gaps_start_and_end_at_lines() {
    assert_eq!(find_grid_gaps(&flags("#..#")), vec![(1, 3)]);
    assert_eq!(find_grid_gaps(&flags("#.#.#")), vec![(1, 2), (3, 4)]);
}

#[test]
fn gaps_pass_over_thick_lines() {
    let thick = "#".repeat(20);
    let thin = "#".repeat(19);
    let black = flags(&format!("#...{thick}..#"));
    assert_eq!(find_grid_gaps(&black), vec![(1, 26)]);
    let black = flags(&format!("#...{thin}..#"));
    assert_eq!(find_grid_gaps(&black), vec![(1, 4), (23, 25)]);
}

#[test]
fn ranges_near_the_median_stay() {
    let ranges = vec![(0, 3), (10, 110), (120, 215), (220, 339), (340, 460), (470, 550)];
    // The lengths are 3, 100, 95, 119, 120 and 80, the median is 100: what
    // stays is longer than 80 and shorter than 120.
    assert_eq!(
        ranges_near_median(&ranges),
        vec![(10, 110), (120, 215), (220, 339)]
    );
}

#[test]
fn of_two_middle_lengths_the_second_is_the_median() {
    let ranges = vec![(0, 100), (100, 230)];
    // The median is 130: what stays is longer than 104 and shorter than 156.
    assert_eq!(ranges_near_median(&ranges), vec![(100, 230)]);
}

#[test]
fn a_range_that_ends_before_it_starts_has_no_length() {
    let ranges = vec![(10, 0), (0, 10), (20, 30)];
    assert_eq!(ranges_near_median(&ranges), vec![(0, 10), (20, 30)]);
    let ranges = vec![(10, 0), (30, 20), (20, 30)];
    assert_eq!(ranges_near_median(&ranges), vec![]);
}

#[test]
fn square_colors_follow_the_matching() {
    let red = pixel(160, 10, 10);
    let blue = pixel(90, 90, 250);
    let colors = vec![red, blue, blue, red];
    assert_eq!(
        square_colors(2, &colors),
        Some(vec![
            SquareColor::Red,
            SquareColor::BrightBlue,
            SquareColor::BrightBlue,
            SquareColor::Red,
        ])
    );
}

#[test]
fn square_colors_need_as_many_colors_as_rows() {
    let red = pixel(250, 10, 10);
    let blue = pixel(10, 10, 250);
    let green = pixel(10, 250, 10);
    assert_eq!(square_colors(2, &vec![red, red, red, red]), None);
    assert_eq!(square_colors(2, &vec![red, blue, green, red]), None);
    assert_eq!(square_colors(0, &vec![]), Some(vec![]));
}
