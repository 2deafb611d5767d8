use vstd::prelude::*;

use itertools::Itertools;

use crate::board::first_occurrences;
use crate::datastructure::lemma_push_to_set;
use crate::image::{map_image_to_square_colors, matched, Pixel};
use crate::squarecolor::SquareColor;

verus! {

/// A black line of a grid is thinner than this many points. A thicker
/// stretch of black is taken for a border round the picture.
pub const MAX_LINE_THICKNESS: usize = 20;

/// By how many hundredths the side of a square of a grid may differ from
/// the median side.
pub const GRID_LENGTH_VARIANCE: usize = 20;

/// The runs of a list of flags: for each stretch of equal flags, as long
/// as it can be, its length and its flag.
pub open spec fn runs(flags: Seq<bool>) -> Seq<(usize, bool)>
    decreases flags.len(),
{
    if flags.len() == 0 {
        Seq::empty()
    } else {
        let earlier = runs(flags.drop_last());
        if earlier.len() > 0 && earlier.last().1 == flags.last() {
            earlier.drop_last().push(((earlier.last().0 + 1) as usize, flags.last()))
        } else {
            earlier.push((1usize, flags.last()))
        }
    }
}

/// The runs of a list of flags.
///
/// Trusted: this calls `Itertools::dedup_with_count` on the flags, and
/// claims that it hands out, for each stretch of equal flags in turn, the
/// number of flags in the stretch and the flag.
#[verifier::external_body]
fn runs_of(flags: &Vec<bool>) -> (found: Vec<(usize, bool)>)
    ensures
        found@ == runs(flags@),
{
    flags.iter().copied().dedup_with_count().collect()
}

/// The number of flags that some runs have together.
pub open spec fn run_total(runs: Seq<(usize, bool)>) -> int
    decreases runs.len(),
{
    if runs.len() == 0 {
        0
    } else {
        run_total(runs.drop_last()) + runs.last().0
    }
}

/// The thin lines among some runs: for each run of set flags that is
/// shorter than [`MAX_LINE_THICKNESS`], the place where it starts and the
/// place where it ends.
pub open spec fn thin_lines(runs: Seq<(usize, bool)>) -> Seq<(usize, usize)>
    decreases runs.len(),
{
    if runs.len() == 0 {
        Seq::empty()
    } else {
        let earlier = thin_lines(runs.drop_last());
        if runs.last().1 && runs.last().0 < MAX_LINE_THICKNESS {
            earlier.push((run_total(runs.drop_last()) as usize, run_total(runs) as usize))
        } else {
            earlier
        }
    }
}

/// The stretches between lines that follow one another: each from the end
/// of a line to the start of the next.
pub open spec fn gaps(lines: Seq<(usize, usize)>) -> Seq<(usize, usize)> {
    Seq::new(
        if lines.len() > 0 {
            (lines.len() - 1) as nat
        } else {
            0
        },
        |k: int| (lines[k].1, lines[k + 1].0),
    )
}

/// The stretches between the thin black lines of a picture, of which
/// `black` says for each line of points whether it is black.
pub open spec fn grid_gaps(black: Seq<bool>) -> Seq<(usize, usize)> {
    gaps(thin_lines(runs(black)))
}

/// Runs have no fewer flags together than the first of them have.
pub proof fn lemma_run_total_grows(runs: Seq<(usize, bool)>, k: int)
    requires
        0 <= k <= runs.len(),
    ensures
        0 <= run_total(runs.take(k)) <= run_total(runs),
    decreases runs.len(),
{
    if runs.len() == 0 || k == runs.len() {
        assert(runs.take(k) =~= runs);
        if runs.len() > 0 {
            lemma_run_total_grows(runs.drop_last(), k - 1);
        }
    } else {
        lemma_run_total_grows(runs.drop_last(), k);
        assert(runs.drop_last().take(k) =~= runs.take(k));
    }
}

/// The runs of a list of flags have together as many flags as the list.
pub proof fn lemma_runs_total(flags: Seq<bool>)
    requires
        flags.len() <= usize::MAX,
    ensures
        run_total(runs(flags)) == flags.len(),
    decreases flags.len(),
{
    if flags.len() > 0 {
        lemma_runs_total(flags.drop_last());
        let earlier = runs(flags.drop_last());
        if earlier.len() > 0 && earlier.last().1 == flags.last() {
            let rest = earlier.drop_last();
            let longer = rest.push(((earlier.last().0 + 1) as usize, flags.last()));
            assert(rest.take(rest.len() as int) =~= rest);
            lemma_run_total_grows(rest, rest.len() as int);
            assert(longer.drop_last() =~= rest);
        } else {
            let longer = earlier.push((1usize, flags.last()));
            assert(longer.drop_last() =~= earlier);
        }
    }
}

/// The stretches between the thin black lines of a picture, from the
/// first line to the last. `black` says for each line of points of the
/// picture, from one side to the other, whether it counts as black.
pub fn find_grid_gaps(black: &Vec<bool>) -> (found: Vec<(usize, usize)>)
    ensures
        found@ == grid_gaps(black@),
{
    let count = black.len();
    let runs = runs_of(black);
    proof {
        lemma_runs_total(black@);
    }
    let mut found: Vec<(usize, usize)> = Vec::new();
    let mut start: usize = 0;
    let mut last_end: Option<usize> = None;
    assert(found@ =~= gaps(thin_lines(runs@.take(0))));
    for k in 0..runs.len()
        invariant
            run_total(runs@) == count,
            start == run_total(runs@.take(k as int)),
            last_end == (if thin_lines(runs@.take(k as int)).len() > 0 {
                Some(thin_lines(runs@.take(k as int)).last().1)
            } else {
                None
            }),
            found@ == gaps(thin_lines(runs@.take(k as int))),
    {
        let (length, flag) = runs[k];
        let ghost lines = thin_lines(runs@.take(k as int));
        proof {
            lemma_run_total_grows(runs@, k + 1);
            assert(runs@.take(k + 1).drop_last() =~= runs@.take(k as int));
        }
        let end = start + length;
        if flag && length < MAX_LINE_THICKNESS {
            if let Some(before) = last_end {
                found.push((before, start));
            }
            last_end = Some(end);
            assert(found@ =~= gaps(lines.push((start, end))));
        }
        start = end;
    }
    assert(runs@.take(runs@.len() as int) =~= runs@);
    found
}

/// How long a stretch is. One that ends before it starts has no length.
pub open spec fn span(range: (usize, usize)) -> int {
    if range.0 <= range.1 {
        range.1 - range.0
    } else {
        0
    }
}

/// The lengths of some stretches.
pub open spec fn spans(ranges: Seq<(usize, usize)>) -> Seq<usize> {
    Seq::new(ranges.len(), |k: int| span(ranges[k]) as usize)
}

/// How many numbers of a list are below a bound.
pub open spec fn count_below(items: Seq<usize>, bound: int) -> int
    decreases items.len(),
{
    if items.len() == 0 {
        0
    } else {
        count_below(items.drop_last(), bound) + if items.last() < bound {
            1int
        } else {
            0int
        }
    }
}

/// Whether a number is the one that stands at a place once a list is
/// sorted: it is in the list, no more numbers than the place says are
/// below it, and more than that are not above it.
pub open spec fn is_nth_smallest(items: Seq<usize>, index: int, item: usize) -> bool {
    items.contains(item) && count_below(items, item as int) <= index < count_below(
        items,
        item + 1,
    )
}

/// The number that stands at a place once a list is sorted.
///
/// Trusted: this calls `select_nth_unstable` of slices, which reorders the
/// list so that the number at the place is the one that a sort would put
/// there, with none above it before and none below it after, and claims
/// that the number it hands out is that one. The place must be in the
/// list: the call panics on any other.
#[verifier::external_body]
fn nth_smallest(items: Vec<usize>, index: usize) -> (item: usize)
    requires
        index < items@.len(),
    ensures
        is_nth_smallest(items@, index as int, item),
{
    let mut reordered = items;
    *reordered.select_nth_unstable(index).1
}

/// A higher bound has no fewer numbers below it.
pub proof fn lemma_count_below_grows(items: Seq<usize>, low: int, high: int)
    requires
        low <= high,
    ensures
        count_below(items, low) <= count_below(items, high),
    decreases items.len(),
{
    if items.len() > 0 {
        lemma_count_below_grows(items.drop_last(), low, high);
    }
}

/// Only one number stands at a place once a list is sorted.
pub proof fn lemma_nth_smallest_is_one(items: Seq<usize>, index: int, a: usize, b: usize)
    requires
        is_nth_smallest(items, index, a),
        is_nth_smallest(items, index, b),
    ensures
        a == b,
{
    if a < b {
        lemma_count_below_grows(items, a + 1, b as int);
    } else if b < a {
        lemma_count_below_grows(items, b + 1, a as int);
    }
}

/// The median length of some stretches: the length that stands in the
/// middle once the lengths are sorted, and of two in the middle the
/// second.
pub open spec fn median_span(ranges: Seq<(usize, usize)>) -> usize {
    let middle = ranges.len() as int / 2;
    choose|median: usize| is_nth_smallest(spans(ranges), middle, median)
}

/// Whether the length of a stretch is near a median: above the median
/// less [`GRID_LENGTH_VARIANCE`] hundredths of it, and below the median
/// and as many hundredths of it, each rounded down.
pub open spec fn is_near(range: (usize, usize), median: usize) -> bool {
    (median * (100 - GRID_LENGTH_VARIANCE)) / 100 < span(range) < (median * (100
        + GRID_LENGTH_VARIANCE)) / 100
}

/// Of some stretches, those whose length is near a median, in their
/// order.
pub open spec fn near_median(ranges: Seq<(usize, usize)>, median: usize) -> Seq<(usize, usize)>
    decreases ranges.len(),
{
    if ranges.len() == 0 {
        Seq::empty()
    } else {
        let earlier = near_median(ranges.drop_last(), median);
        if is_near(ranges.last(), median) {
            earlier.push(ranges.last())
        } else {
            earlier
        }
    }
}

/// How long a stretch is.
fn span_of(range: (usize, usize)) -> (length: usize)
    ensures
        length == span(range),
{
    if range.0 <= range.1 {
        range.1 - range.0
    } else {
        0
    }
}

/// Of some stretches, those whose length is near the median length: the
/// squares of a grid, without what a frame or a caption left between two
/// lines.
pub fn ranges_near_median(ranges: &Vec<(usize, usize)>) -> (kept: Vec<(usize, usize)>)
    requires
        ranges@.len() > 0,
    ensures
        kept@ == near_median(ranges@, median_span(ranges@)),
{
    let mut lengths: Vec<usize> = Vec::new();
    for k in 0..ranges.len()
        invariant
            lengths@ == spans(ranges@.take(k as int)),
    {
        lengths.push(span_of(ranges[k]));
        assert(lengths@ =~= spans(ranges@.take(k + 1)));
    }
    assert(ranges@.take(ranges@.len() as int) =~= ranges@);
    let median = nth_smallest(lengths, ranges.len() / 2);
    proof {
        lemma_nth_smallest_is_one(
            spans(ranges@),
            ranges@.len() as int / 2,
            median,
            median_span(ranges@),
        );
    }
    let low: u128 = (median as u128 * (100 - GRID_LENGTH_VARIANCE) as u128) / 100;
    let high: u128 = (median as u128 * (100 + GRID_LENGTH_VARIANCE) as u128) / 100;
    let mut kept: Vec<(usize, usize)> = Vec::new();
    for k in 0..ranges.len()
        invariant
            low == (median * (100 - GRID_LENGTH_VARIANCE)) / 100,
            high == (median * (100 + GRID_LENGTH_VARIANCE)) / 100,
            kept@ == near_median(ranges@.take(k as int), median),
    {
        let length: u128 = span_of(ranges[k]) as u128;
        assert(ranges@.take(k + 1).drop_last() =~= ranges@.take(k as int));
        if low < length && length < high {
            kept.push(ranges[k]);
        }
    }
    assert(ranges@.take(ranges@.len() as int) =~= ranges@);
    kept
}

/// The colors of the squares of a board that was read from a picture.
/// `colors` holds the color of the picture at each square. Each color of
/// the picture gets the terminal color that the matching gives it.
pub open spec fn grid_colors(colors: Seq<Pixel>) -> Seq<SquareColor> {
    let firsts = first_occurrences(colors);
    let table = matched(firsts, firsts.len()).colors;
    Seq::new(colors.len(), |k: int| table[firsts.index_of_first(colors[k]).unwrap()])
}

/// Every item of a list is among its first occurrences.
pub proof fn lemma_first_occurrences_hold_all<T>(items: Seq<T>)
    ensures
        first_occurrences(items).to_set() == items.to_set(),
    decreases items.len(),
{
    if items.len() == 0 {
        assert(first_occurrences(items).to_set() =~= items.to_set());
    } else {
        lemma_first_occurrences_hold_all(items.drop_last());
        let earlier = first_occurrences(items.drop_last());
        assert(items.drop_last().push(items.last()) =~= items);
        lemma_push_to_set(items.drop_last(), items.last());
        if earlier.contains(items.last()) {
            assert(earlier.to_set().insert(items.last()) =~= earlier.to_set());
        } else {
            lemma_push_to_set(earlier, items.last());
        }
    }
}

/// The first place of a color in a list, if it is in the list.
fn first_place(colors: &Vec<Pixel>, color: Pixel) -> (place: Option<usize>)
    ensures
        colors@.index_of_first(color) == match place {
            Some(found) => Some(found as int),
            None => None,
        },
{
    for k in 0..colors.len()
        invariant
            forall|j: int| 0 <= j < k ==> colors@[j] != color,
    {
        if colors[k] == color {
            proof {
                colors@.index_of_first_ensures(color);
                assert(colors@[k as int] == color);
                assert(colors@.contains(color));
            }
            return Some(k);
        }
    }
    proof {
        colors@.index_of_first_ensures(color);
    }
    None
}

/// The colors of the squares of a board of a size that was read from a
/// picture, where `colors` holds the color of the picture at each square:
/// each color of the picture gets the terminal color that the matching
/// gives it. There are none unless the picture has as many colors as the
/// board has rows.
pub fn square_colors(size: usize, colors: &Vec<Pixel>) -> (mapped: Option<Vec<SquareColor>>)
    requires
        size <= 16,
    ensures
        match mapped {
            Some(found) => first_occurrences(colors@).len() == size && found@ == grid_colors(
                colors@,
            ),
            None => first_occurrences(colors@).len() != size,
        },
{
    let mut firsts: Vec<Pixel> = Vec::new();
    for k in 0..colors.len()
        invariant
            firsts@ == first_occurrences(colors@.take(k as int)),
    {
        assert(colors@.take(k + 1).drop_last() =~= colors@.take(k as int));
        let known = first_place(&firsts, colors[k]);
        proof {
            firsts@.index_of_first_ensures(colors@[k as int]);
        }
        if known.is_none() {
            firsts.push(colors[k]);
        }
    }
    assert(colors@.take(colors@.len() as int) =~= colors@);
    if firsts.len() != size {
        return None;
    }
    let table = map_image_to_square_colors(firsts.as_slice());
    let mut found: Vec<SquareColor> = Vec::new();
    proof {
        lemma_first_occurrences_hold_all(colors@);
    }
    for k in 0..colors.len()
        invariant
            firsts@ == first_occurrences(colors@),
            firsts@.len() <= 16,
            firsts@.to_set() == colors@.to_set(),
            table@ == matched(firsts@, firsts@.len()).colors,
            found@ == grid_colors(colors@).take(k as int),
    {
        let place = first_place(&firsts, colors[k]);
        proof {
            firsts@.index_of_first_ensures(colors@[k as int]);
            assert(colors@.to_set().contains(colors@[k as int]));
            assert(firsts@.to_set().contains(colors@[k as int]));
        }
        found.push(table[place.unwrap()]);
        assert(found@ =~= grid_colors(colors@).take(k + 1));
    }
    assert(grid_colors(colors@).take(colors@.len() as int) =~= grid_colors(colors@));
    Some(found)
}

} // verus!
