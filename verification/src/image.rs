use vstd::prelude::*;

use crate::squarecolor::{color_at_place, SquareColor};

verus! {

/// The color of a point of a picture: how much red, green and blue it has.
#[derive(Clone, Copy, Debug, PartialEq, Eq, Hash, Structural)]
pub struct Pixel {
    /// The red part.
    pub r: u8,
    /// The green part.
    pub g: u8,
    /// The blue part.
    pub b: u8,
}

/// A point counts as black where each of its parts is below this.
pub const BLACK_THRESHOLD: u8 = 50;

/// Whether a point counts as black: whether each of its parts is below
/// the threshold.
pub open spec fn spec_is_black(pixel: Pixel) -> bool {
    pixel.r < BLACK_THRESHOLD && pixel.g < BLACK_THRESHOLD && pixel.b < BLACK_THRESHOLD
}

/// How far two colors are apart: the sum of the squares of the
/// differences of their parts.
pub open spec fn spec_color_distance(a: Pixel, b: Pixel) -> int {
    (a.r - b.r) * (a.r - b.r) + (a.g - b.g) * (a.g - b.g) + (a.b - b.b) * (a.b - b.b)
}

/// The color that a terminal shows for the color at a place.
pub open spec fn spec_terminal_color(place: int) -> Pixel {
    if place == 0 {
        Pixel { r: 0, g: 0, b: 0 }
    } else if place == 1 {
        Pixel { r: 170, g: 0, b: 0 }
    } else if place == 2 {
        Pixel { r: 0, g: 170, b: 0 }
    } else if place == 3 {
        Pixel { r: 170, g: 85, b: 0 }
    } else if place == 4 {
        Pixel { r: 0, g: 0, b: 170 }
    } else if place == 5 {
        Pixel { r: 170, g: 0, b: 170 }
    } else if place == 6 {
        Pixel { r: 0, g: 170, b: 170 }
    } else if place == 7 {
        Pixel { r: 170, g: 170, b: 170 }
    } else if place == 8 {
        Pixel { r: 85, g: 85, b: 85 }
    } else if place == 9 {
        Pixel { r: 255, g: 85, b: 85 }
    } else if place == 10 {
        Pixel { r: 85, g: 255, b: 85 }
    } else if place == 11 {
        Pixel { r: 255, g: 255, b: 85 }
    } else if place == 12 {
        Pixel { r: 85, g: 85, b: 255 }
    } else if place == 13 {
        Pixel { r: 255, g: 85, b: 255 }
    } else if place == 14 {
        Pixel { r: 85, g: 255, b: 255 }
    } else {
        Pixel { r: 255, g: 255, b: 255 }
    }
}

/// Whether a point counts as black.
pub fn is_black(pixel: &Pixel) -> (black: bool)
    ensures
        black == spec_is_black(*pixel),
{
    pixel.r < BLACK_THRESHOLD && pixel.g < BLACK_THRESHOLD && pixel.b < BLACK_THRESHOLD
}

fn part_distance(a: u8, b: u8) -> (d: u32)
    ensures
        d == (a - b) * (a - b),
        d <= 65025,
{
    let diff: u32 = if a >= b {
        (a - b) as u32
    } else {
        (b - a) as u32
    };
    assert(diff * diff <= 65025 && diff * diff == (a - b) * (a - b)) by (nonlinear_arith)
        requires
            0 <= diff <= 255,
            diff == a - b || diff == b - a,
    ;
    diff * diff
}

/// How far two colors are apart.
pub fn color_distance(rgb1: Pixel, rgb2: Pixel) -> (distance: u32)
    ensures
        distance == spec_color_distance(rgb1, rgb2),
        distance <= 195075,
{
    part_distance(rgb1.r, rgb2.r) + part_distance(rgb1.g, rgb2.g) + part_distance(rgb1.b, rgb2.b)
}

/// The color that a terminal shows for the color at a place.
pub fn terminal_color(place: usize) -> (pixel: Pixel)
    requires
        place < 16,
    ensures
        pixel == spec_terminal_color(place as int),
{
    if place == 0 {
        Pixel { r: 0, g: 0, b: 0 }
    } else if place == 1 {
        Pixel { r: 170, g: 0, b: 0 }
    } else if place == 2 {
        Pixel { r: 0, g: 170, b: 0 }
    } else if place == 3 {
        Pixel { r: 170, g: 85, b: 0 }
    } else if place == 4 {
        Pixel { r: 0, g: 0, b: 170 }
    } else if place == 5 {
        Pixel { r: 170, g: 0, b: 170 }
    } else if place == 6 {
        Pixel { r: 0, g: 170, b: 170 }
    } else if place == 7 {
        Pixel { r: 170, g: 170, b: 170 }
    } else if place == 8 {
        Pixel { r: 85, g: 85, b: 85 }
    } else if place == 9 {
        Pixel { r: 255, g: 85, b: 85 }
    } else if place == 10 {
        Pixel { r: 85, g: 255, b: 85 }
    } else if place == 11 {
        Pixel { r: 255, g: 255, b: 85 }
    } else if place == 12 {
        Pixel { r: 85, g: 85, b: 255 }
    } else if place == 13 {
        Pixel { r: 255, g: 85, b: 255 }
    } else if place == 14 {
        Pixel { r: 85, g: 255, b: 255 }
    } else {
        Pixel { r: 255, g: 255, b: 255 }
    }
}

/// How far a matching of the colors of a picture with the colors of a
/// terminal has come: the color that each color of the picture has got,
/// and which colors of the picture and of the terminal are settled.
pub struct Matching {
    /// The color that each color of the picture has got so far.
    pub colors: Seq<SquareColor>,
    /// The places of the colors of the picture that are settled.
    pub used_images: Set<int>,
    /// The places of the colors of the terminal that are taken.
    pub used_squares: Set<int>,
}

/// Whether a color of the picture and a color of the terminal are both
/// still to be matched.
pub open spec fn is_free(images: Seq<Pixel>, matching: Matching, image: int, square: int) -> bool {
    0 <= image < images.len() && !matching.used_images.contains(image) && 0 <= square < 16
        && !matching.used_squares.contains(square)
}

/// How far a color of the picture is from a color of the terminal.
pub open spec fn pair_distance(images: Seq<Pixel>, image: int, square: int) -> int {
    spec_color_distance(images[image], spec_terminal_color(square))
}

/// Whether a color of the picture and a color of the terminal are the
/// closest of those still to be matched: the first such pair, counting the
/// colors of the picture before those of the terminal.
pub open spec fn is_closest(images: Seq<Pixel>, matching: Matching, image: int, square: int) -> bool {
    &&& is_free(images, matching, image, square)
    &&& forall|other: int, place: int| #[trigger]
        is_free(images, matching, other, place) ==> {
            ||| pair_distance(images, other, place) > pair_distance(images, image, square)
            ||| (pair_distance(images, other, place) == pair_distance(images, image, square) && (
            other > image || (other == image && place >= square)))
        }
}

/// A matching after one more round: the closest colors still to be
/// matched are matched. Where nothing is left to match, the first color of
/// the picture gets black.
pub open spec fn after_round(images: Seq<Pixel>, matching: Matching) -> Matching {
    if exists|pair: (int, int)| is_closest(images, matching, pair.0, pair.1) {
        let pair = choose|pair: (int, int)| is_closest(images, matching, pair.0, pair.1);
        Matching {
            colors: matching.colors.update(pair.0, color_at_place(pair.1)),
            used_images: matching.used_images.insert(pair.0),
            used_squares: matching.used_squares.insert(pair.1),
        }
    } else {
        Matching {
            colors: matching.colors.update(0, SquareColor::Black),
            used_images: matching.used_images.insert(0),
            used_squares: matching.used_squares.insert(0),
        }
    }
}

/// The matching after some rounds. Before the first round every color of
/// the picture has black.
pub open spec fn matched(images: Seq<Pixel>, rounds: nat) -> Matching
    decreases rounds,
{
    if rounds == 0 {
        Matching {
            colors: Seq::new(16, |k: int| SquareColor::Black),
            used_images: Set::empty(),
            used_squares: Set::empty(),
        }
    } else {
        after_round(images, matched(images, (rounds - 1) as nat))
    }
}

/// Matches the colors of a picture with colors of a terminal: as many
/// rounds as the picture has colors, and in each round the closest two
/// colors that are still to be matched get each other.
pub fn map_image_to_square_colors(image_colors: &[Pixel]) -> (colors: [SquareColor; 16])
    requires
        image_colors@.len() <= 16,
    ensures
        colors@ == matched(image_colors@, image_colors@.len()).colors,
{
    let mut image_to_square_color = [
        SquareColor::Black,
        SquareColor::Black,
        SquareColor::Black,
        SquareColor::Black,
        SquareColor::Black,
        SquareColor::Black,
        SquareColor::Black,
        SquareColor::Black,
        SquareColor::Black,
        SquareColor::Black,
        SquareColor::Black,
        SquareColor::Black,
        SquareColor::Black,
        SquareColor::Black,
        SquareColor::Black,
        SquareColor::Black,
    ];
    let mut used_square_colors = [
        false,
        false,
        false,
        false,
        false,
        false,
        false,
        false,
        false,
        false,
        false,
        false,
        false,
        false,
        false,
        false,
    ];
    let mut used_image_colors = [
        false,
        false,
        false,
        false,
        false,
        false,
        false,
        false,
        false,
        false,
        false,
        false,
        false,
        false,
        false,
        false,
    ];
    let ghost images = image_colors@;
    let ghost mut matching = matched(images, 0);
    assert(image_to_square_color@ =~= matching.colors);
    for round in 0..image_colors.len()
        invariant
            images == image_colors@,
            images.len() <= 16,
            matching == matched(images, round as nat),
            image_to_square_color@ == matching.colors,
            matching.colors.len() == 16,
            forall|k: int| 0 <= k < 16 ==> used_image_colors@[k] == matching.used_images.contains(k),
            forall|k: int|
                0 <= k < 16 ==> used_square_colors@[k] == matching.used_squares.contains(k),
    {
        let mut min_distance = u32::MAX;
        let mut best_square_color_idx: usize = 0;
        let mut best_image_color_idx: usize = 0;
        let ghost mut found = false;
        for image_color_idx in 0..image_colors.len()
            invariant
                images == image_colors@,
                images.len() <= 16,
                forall|k: int|
                    0 <= k < 16 ==> used_image_colors@[k] == matching.used_images.contains(k),
                forall|k: int|
                    0 <= k < 16 ==> used_square_colors@[k] == matching.used_squares.contains(k),
                best_image_color_idx < 16,
                best_square_color_idx < 16,
                !found ==> min_distance == u32::MAX && best_image_color_idx == 0
                    && best_square_color_idx == 0,
                !found ==> forall|other: int, place: int| #[trigger]
                    is_free(images, matching, other, place) ==> other >= image_color_idx,
                found ==> is_free(
                    images,
                    matching,
                    best_image_color_idx as int,
                    best_square_color_idx as int,
                ) && min_distance == pair_distance(
                    images,
                    best_image_color_idx as int,
                    best_square_color_idx as int,
                ),
                found ==> best_image_color_idx < image_color_idx,
                found ==> forall|other: int, place: int| #[trigger]
                    is_free(images, matching, other, place) && other < image_color_idx ==> {
                        ||| pair_distance(images, other, place) > min_distance
                        ||| (pair_distance(images, other, place) == min_distance && (other
                            > best_image_color_idx || (other == best_image_color_idx && place
                            >= best_square_color_idx)))
                    },
        {
            if !used_image_colors[image_color_idx] {
                let image_rgb = image_colors[image_color_idx];
                for square_color_idx in 0..16usize
                    invariant
                        images == image_colors@,
                        images.len() <= 16,
                        image_color_idx < images.len(),
                        image_rgb == images[image_color_idx as int],
                        !matching.used_images.contains(image_color_idx as int),
                        forall|k: int|
                            0 <= k < 16 ==> used_image_colors@[k] == matching.used_images.contains(
                                k,
                            ),
                        forall|k: int|
                            0 <= k < 16 ==> used_square_colors@[k]
                                == matching.used_squares.contains(k),
                        best_image_color_idx < 16,
                        best_square_color_idx < 16,
                        !found ==> min_distance == u32::MAX && best_image_color_idx == 0
                            && best_square_color_idx == 0,
                        !found ==> forall|other: int, place: int| #[trigger]
                            is_free(images, matching, other, place) ==> other > image_color_idx
                                || (other == image_color_idx && place >= square_color_idx),
                        found ==> is_free(
                            images,
                            matching,
                            best_image_color_idx as int,
                            best_square_color_idx as int,
                        ) && min_distance == pair_distance(
                            images,
                            best_image_color_idx as int,
                            best_square_color_idx as int,
                        ),
                        found ==> best_image_color_idx < image_color_idx || (
                        best_image_color_idx == image_color_idx && best_square_color_idx
                            < square_color_idx),
                        found ==> forall|other: int, place: int| #[trigger]
                            is_free(images, matching, other, place) && (other < image_color_idx
                                || (other == image_color_idx && place < square_color_idx)) ==> {
                                ||| pair_distance(images, other, place) > min_distance
                                ||| (pair_distance(images, other, place) == min_distance && (other
                                    > best_image_color_idx || (other == best_image_color_idx
                                    && place >= best_square_color_idx)))
                            },
                {
                    if !used_square_colors[square_color_idx] {
                        let distance = color_distance(image_rgb, terminal_color(square_color_idx));
                        assert(is_free(
                            images,
                            matching,
                            image_color_idx as int,
                            square_color_idx as int,
                        ));
                        if distance < min_distance {
                            min_distance = distance;
                            best_square_color_idx = square_color_idx;
                            best_image_color_idx = image_color_idx;
                            proof {
                                found = true;
                            }
                        }
                    }
                }
            }
        }
        proof {
            if found {
                let pair = (best_image_color_idx as int, best_square_color_idx as int);
                assert(is_closest(images, matching, pair.0, pair.1));
                let chosen = choose|pair: (int, int)|
                    is_closest(images, matching, pair.0, pair.1);
                assert(is_free(images, matching, chosen.0, chosen.1));
                assert(is_free(images, matching, pair.0, pair.1));
                assert(chosen == pair);
            } else {
                assert forall|pair: (int, int)| !is_closest(
                    images,
                    matching,
                    pair.0,
                    pair.1,
                ) by {
                    if is_free(images, matching, pair.0, pair.1) {
                        assert(pair.0 >= images.len());
                    }
                }
            }
            matching = after_round(images, matching);
        }
        image_to_square_color[best_image_color_idx] = SquareColor::at_place(best_square_color_idx);
        used_square_colors[best_square_color_idx] = true;
        used_image_colors[best_image_color_idx] = true;
        assert(image_to_square_color@ =~= matching.colors);
    }
    image_to_square_color
}

/// At most this many colors of a part of a picture are counted.
pub const MAX_COLORS_TO_TRACK: usize = 1000;

/// How often a color occurs in a list of points.
pub open spec fn occurrences(pixels: Seq<Pixel>, color: Pixel) -> nat
    decreases pixels.len(),
{
    if pixels.len() == 0 {
        0
    } else {
        occurrences(pixels.drop_last(), color) + if pixels.last() == color {
            1nat
        } else {
            0nat
        }
    }
}

/// The colors of a list of points that are counted: the colors that are
/// not black, in the order in which they first occur, and no more than
/// the first thousand.
pub open spec fn tracked_colors(pixels: Seq<Pixel>) -> Seq<Pixel>
    decreases pixels.len(),
{
    if pixels.len() == 0 {
        Seq::empty()
    } else {
        let earlier = tracked_colors(pixels.drop_last());
        let pixel = pixels.last();
        if spec_is_black(pixel) || earlier.contains(pixel) || earlier.len()
            >= MAX_COLORS_TO_TRACK {
            earlier
        } else {
            earlier.push(pixel)
        }
    }
}

/// Whether every color of a list of points that is not black is among
/// some colors, unless those are a thousand.
pub open spec fn all_counted(pixels: Seq<Pixel>, colors: Seq<Pixel>) -> bool {
    colors.len() >= MAX_COLORS_TO_TRACK || forall|k: int|
        0 <= k < pixels.len() && !spec_is_black(#[trigger] pixels[k]) ==> colors.contains(
            pixels[k],
        )
}

/// A color that is at no place of a list of points does not occur in it.
pub proof fn lemma_no_occurrence(pixels: Seq<Pixel>, color: Pixel)
    requires
        forall|k: int| 0 <= k < pixels.len() ==> pixels[k] != color,
    ensures
        occurrences(pixels, color) == 0,
    decreases pixels.len(),
{
    if pixels.len() > 0 {
        assert(pixels.last() == pixels[pixels.len() - 1]);
        lemma_no_occurrence(pixels.drop_last(), color);
    }
}

/// Whether the counted color at a place is the dominant one: no counted
/// color occurs more often, and none after it as often.
pub open spec fn is_dominant(pixels: Seq<Pixel>, place: int) -> bool {
    let colors = tracked_colors(pixels);
    &&& 0 <= place < colors.len()
    &&& forall|other: int|
        0 <= other < colors.len() ==> if other <= place {
            occurrences(pixels, #[trigger] colors[other]) <= occurrences(pixels, colors[place])
        } else {
            occurrences(pixels, colors[other]) < occurrences(pixels, colors[place])
        }
}

/// The dominant color of a part of a picture: of the colors that are
/// counted, the one that occurs most often, and of several such the last.
/// Where every point is black there is none.
pub fn get_dominant_color(pixels: &[Pixel]) -> (dominant: Option<Pixel>)
    ensures
        match dominant {
            Some(color) => exists|place: int|
                is_dominant(pixels@, place) && tracked_colors(pixels@)[place] == color,
            None => tracked_colors(pixels@).len() == 0,
        },
{
    let mut colors: Vec<Pixel> = Vec::new();
    let mut counts: Vec<usize> = Vec::new();
    for k in 0..pixels.len()
        invariant
            colors@ == tracked_colors(pixels@.take(k as int)),
            counts@.len() == colors@.len(),
            colors@.len() <= MAX_COLORS_TO_TRACK,
            forall|i: int|
                0 <= i < colors@.len() ==> counts@[i] == occurrences(
                    pixels@.take(k as int),
                    #[trigger] colors@[i],
                ),
            forall|i: int| 0 <= i < colors@.len() ==> counts@[i] <= k,
            forall|i: int| 0 <= i < colors@.len() ==> !spec_is_black(#[trigger] colors@[i]),
            forall|i: int, j: int|
                0 <= i < j < colors@.len() ==> #[trigger] colors@[i] != #[trigger] colors@[j],
            all_counted(pixels@.take(k as int), colors@),
    {
        let pixel = pixels[k];
        let ghost before = pixels@.take(k as int);
        let ghost after = pixels@.take(k + 1);
        let ghost old_colors = colors@;
        let ghost old_counts = counts@;
        proof {
            assert(after.drop_last() =~= before);
            assert(after.last() == pixel);
        }
        if !is_black(&pixel) {
            let mut found: Option<usize> = None;
            for i in 0..colors.len()
                invariant
                    match found {
                        Some(at) => at < i && colors@[at as int] == pixel,
                        None => forall|j: int| 0 <= j < i ==> colors@[j] != pixel,
                    },
            {
                if found.is_none() && colors[i].r == pixel.r && colors[i].g == pixel.g
                    && colors[i].b == pixel.b {
                    found = Some(i);
                }
            }
            match found {
                Some(at) => {
                    let count = counts[at];
                    counts.set(at, count + 1);
                    proof {
                        assert(old_colors.contains(pixel));
                    }
                },
                None => {
                    proof {
                        assert(!old_colors.contains(pixel));
                    }
                    if colors.len() < MAX_COLORS_TO_TRACK {
                        proof {
                            assert forall|j: int| 0 <= j < before.len() implies before[j]
                                != pixel by {
                                if before[j] == pixel {
                                    assert(!spec_is_black(before[j]));
                                    assert(old_colors.contains(before[j]));
                                }
                            }
                            lemma_no_occurrence(before, pixel);
                        }
                        colors.push(pixel);
                        counts.push(1);
                    }
                },
            }
        }
        proof {
            assert(colors@ == tracked_colors(after));
            assert(colors@ == old_colors || colors@ == old_colors.push(pixel));
            if colors@.len() < MAX_COLORS_TO_TRACK {
                assert forall|j: int|
                    0 <= j < after.len() && !spec_is_black(#[trigger] after[j]) implies colors@.contains(
                    after[j],
                ) by {
                    if j < before.len() {
                        assert(after[j] == before[j]);
                        assert(old_colors.contains(before[j]));
                        let at = choose|at: int| 0 <= at < old_colors.len() && old_colors[at]
                            == before[j];
                        assert(colors@[at] == after[j]);
                    } else {
                        assert(after[j] == pixel);
                        if old_colors.contains(pixel) {
                            let at = choose|at: int| 0 <= at < old_colors.len() && old_colors[at]
                                == pixel;
                            assert(colors@[at] == pixel);
                        } else {
                            assert(colors@[colors@.len() - 1] == pixel);
                        }
                    }
                }
            }
        }
    }
    assert(pixels@.take(pixels@.len() as int) =~= pixels@);
    if colors.len() == 0 {
        return None;
    }
    let mut best: usize = 0;
    for i in 1..colors.len()
        invariant
            counts@.len() == colors@.len(),
            best < i,
            forall|other: int|
                0 <= other < i ==> if other <= best {
                    counts@[other] <= counts@[best as int]
                } else {
                    counts@[other] < counts@[best as int]
                },
    {
        if counts[i] >= counts[best] {
            best = i;
        }
    }
    assert(is_dominant(pixels@, best as int));
    Some(colors[best])
}

} // verus!
