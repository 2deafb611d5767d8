use qsolve::image::{color_distance, is_black, terminal_color, Pixel};

#[test]
fn black_is_below_the_threshold_in_every_part() {
    assert!(is_black(&Pixel { r: 0, g: 0, b: 0 }));
    assert!(is_black(&Pixel { r: 49, g: 49, b: 49 }));
    assert!(!is_black(&Pixel { r: 50, g: 0, b: 0 }));
    assert!(!is_black(&Pixel { r: 0, g: 50, b: 0 }));
    assert!(!is_black(&Pixel { r: 0, g: 0, b: 50 }));
}

#[test]
fn distance_is_the_sum_of_squares() {
    let a = Pixel { r: 10, g: 200, b: 30 };
    let b = Pixel { r: 13, g: 196, b: 30 };
    assert_eq!(color_distance(a, b), 9 + 16);
    assert_eq!(color_distance(b, a), 25);
    assert_eq!(color_distance(a, a), 0);
    let black = Pixel { r: 0, g: 0, b: 0 };
    let white = Pixel { r: 255, g: 255, b: 255 };
    assert_eq!(color_distance(black, white), 195075);
}

#[test]
fn terminal_colors() {
    assert_eq!(terminal_color(0), Pixel { r: 0, g: 0, b: 0 });
    assert_eq!(terminal_color(3), Pixel { r: 170, g: 85, b: 0 });
    assert_eq!(terminal_color(8), Pixel { r: 85, g: 85, b: 85 });
    assert_eq!(terminal_color(15), Pixel { r: 255, g: 255, b: 255 });
}

use qsolve::image::{get_dominant_color, map_image_to_square_colors};
use qsolve::squarecolor::SquareColor;

#[test]
fn image_colors_get_the_closest_terminal_colors() {
    let colors = [
        Pixel { r: 250, g: 250, b: 250 },
        Pixel { r: 160, g: 10, b: 10 },
        Pixel { r: 90, g: 90, b: 250 },
    ];
    let mapping = map_image_to_square_colors(&colors);
    assert_eq!(mapping[0], SquareColor::BrightWhite);
    assert_eq!(mapping[1], SquareColor::Red);
    assert_eq!(mapping[2], SquareColor::BrightBlue);
    for rest in &mapping[3..] {
        assert_eq!(*rest, SquareColor::Black);
    }
}

#[test]
fn image_colors_never_share_a_terminal_color() {
    // Two near whites: the closer one gets bright white, the other the
    // next closest color that is left.
    let colors = [Pixel { r: 240, g: 240, b: 240 }, Pixel { r: 255, g: 255, b: 255 }];
    let mapping = map_image_to_square_colors(&colors);
    assert_eq!(mapping[1], SquareColor::BrightWhite);
    assert_eq!(mapping[0], SquareColor::White);
    let none: [Pixel; 0] = [];
    assert_eq!(map_image_to_square_colors(&none), [SquareColor::Black; 16]);
    let sixteen = [Pixel { r: 1, g: 2, b: 3 }; 16];
    let all = map_image_to_square_colors(&sixteen);
    for place in 0..16 {
        assert_eq!(all.iter().filter(|c| c.place() == place).count(), 1);
    }
    assert_eq!(all[0], SquareColor::Black);
}

#[test]
fn dominant_color_is_the_most_frequent_that_is_not_black() {
    let red = Pixel { r: 200, g: 0, b: 0 };
    let blue = Pixel { r: 0, g: 0, b: 200 };
    let black = Pixel { r: 10, g: 20, b: 30 };
    assert_eq!(get_dominant_color(&[]), None);
    assert_eq!(get_dominant_color(&[black, black]), None);
    assert_eq!(get_dominant_color(&[black, red, blue, blue, black, black, black]), Some(blue));
    // Of two colors that occur as often, the one that was first seen later.
    assert_eq!(get_dominant_color(&[red, blue, blue, red]), Some(blue));
    assert_eq!(get_dominant_color(&[blue, red, blue, red]), Some(red));
}

#[test]
fn dominant_color_counts_a_thousand_colors_only() {
    let mut pixels = Vec::new();
    for k in 0..1000u32 {
        pixels.push(Pixel { r: 100, g: (k / 250) as u8 + 60, b: (k % 250) as u8 });
    }
    let late = Pixel { r: 222, g: 222, b: 222 };
    pixels.push(late);
    pixels.push(late);
    pixels.push(late);
    let first = pixels[0];
    pixels.push(first);
    assert_eq!(get_dominant_color(&pixels), Some(first));
}
