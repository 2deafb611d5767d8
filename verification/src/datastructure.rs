use vstd::prelude::*;

use crate::squarecolor::{color_at_place, color_name, color_place, SquareColor};
use crate::text::{bracketed, decimal, joined, lemma_joined_push, push_decimal, push_text};

verus! {

/// A square of the board: its row, then its column, both counted from zero
/// and from the upper left corner.
pub type Coord = (usize, usize);

/// Whether bit `i` of a 16-bit word is set. No bit outside 0..16 is.
pub open spec fn bit(word: u16, i: int) -> bool {
    0 <= i < 16 && (word >> (i as u16)) & 1u16 == 1u16
}

/// The place of a square in the order in which the squares of a 16 by 16
/// grid are walked: row by row, each row from the left.
pub open spec fn coord_rank(coord: Coord) -> int {
    coord.0 * 16 + coord.1
}

proof fn lemma_bit_shifted(word: u16, i: u16, j: u16)
    by (bit_vector)
    requires
        i < 16,
        j < 16,
    ensures
        ((word | (1u16 << i)) >> j) & 1u16 == 1u16 <==> ((word >> j) & 1u16 == 1u16 || j == i),
{
}

proof fn lemma_bit_masked(a: u16, b: u16, j: u16)
    by (bit_vector)
    requires
        j < 16,
    ensures
        ((a & b) >> j) & 1u16 == 1u16 <==> ((a >> j) & 1u16 == 1u16 && (b >> j) & 1u16 == 1u16),
{
}

proof fn lemma_bit_joined(a: u16, b: u16, j: u16)
    by (bit_vector)
    requires
        j < 16,
    ensures
        ((a | b) >> j) & 1u16 == 1u16 <==> ((a >> j) & 1u16 == 1u16 || (b >> j) & 1u16 == 1u16),
{
}

proof fn lemma_bit_cleared(a: u16, b: u16, j: u16)
    by (bit_vector)
    requires
        j < 16,
    ensures
        ((a & !b) >> j) & 1u16 == 1u16 <==> ((a >> j) & 1u16 == 1u16 && (b >> j) & 1u16 != 1u16),
{
}

proof fn lemma_bit_of_zero(j: u16)
    by (bit_vector)
    requires
        j < 16,
    ensures
        (0u16 >> j) & 1u16 != 1u16,
{
}

proof fn lemma_some_bit(word: u16)
    by (bit_vector)
    requires
        word != 0,
    ensures
        (word >> 0u16) & 1u16 == 1u16 || (word >> 1u16) & 1u16 == 1u16 || (word >> 2u16) & 1u16
            == 1u16 || (word >> 3u16) & 1u16 == 1u16 || (word >> 4u16) & 1u16 == 1u16 || (word
            >> 5u16) & 1u16 == 1u16 || (word >> 6u16) & 1u16 == 1u16 || (word >> 7u16) & 1u16
            == 1u16 || (word >> 8u16) & 1u16 == 1u16 || (word >> 9u16) & 1u16 == 1u16 || (word
            >> 10u16) & 1u16 == 1u16 || (word >> 11u16) & 1u16 == 1u16 || (word >> 12u16) & 1u16
            == 1u16 || (word >> 13u16) & 1u16 == 1u16 || (word >> 14u16) & 1u16 == 1u16 || (word
            >> 15u16) & 1u16 == 1u16,
{
}

/// Setting bit `i` of a word sets that bit and changes no other.
pub proof fn lemma_bit_set(word: u16, i: u16)
    requires
        i < 16,
    ensures
        forall|j: int| bit(word | (1u16 << i), j) == (bit(word, j) || j == i),
{
    assert forall|j: int| bit(word | (1u16 << i), j) == (bit(word, j) || j == i) by {
        if 0 <= j < 16 {
            lemma_bit_shifted(word, i, j as u16);
        }
    }
}

/// The bits of `a & b` are those set in both words.
pub proof fn lemma_bit_and(a: u16, b: u16)
    ensures
        forall|j: int| bit(a & b, j) == (bit(a, j) && bit(b, j)),
{
    assert forall|j: int| bit(a & b, j) == (bit(a, j) && bit(b, j)) by {
        if 0 <= j < 16 {
            lemma_bit_masked(a, b, j as u16);
        }
    }
}

/// The bits of `a | b` are those set in either word.
pub proof fn lemma_bit_or(a: u16, b: u16)
    ensures
        forall|j: int| bit(a | b, j) == (bit(a, j) || bit(b, j)),
{
    assert forall|j: int| bit(a | b, j) == (bit(a, j) || bit(b, j)) by {
        if 0 <= j < 16 {
            lemma_bit_joined(a, b, j as u16);
        }
    }
}

/// The bits of `a & !b` are those set in `a` and not in `b`.
pub proof fn lemma_bit_and_not(a: u16, b: u16)
    ensures
        forall|j: int| bit(a & !b, j) == (bit(a, j) && !bit(b, j)),
{
    assert forall|j: int| bit(a & !b, j) == (bit(a, j) && !bit(b, j)) by {
        if 0 <= j < 16 {
            lemma_bit_cleared(a, b, j as u16);
        }
    }
}

/// A word is zero exactly when none of its bits is set.
pub proof fn lemma_bit_zero(word: u16)
    ensures
        word == 0 <==> forall|j: int| !bit(word, j),
{
    if word == 0 {
        assert forall|j: int| !bit(word, j) by {
            if 0 <= j < 16 {
                lemma_bit_of_zero(j as u16);
            }
        }
    } else {
        lemma_some_bit(word);
        assert(bit(word, 0) || bit(word, 1) || bit(word, 2) || bit(word, 3) || bit(word, 4) || bit(
            word,
            5,
        ) || bit(word, 6) || bit(word, 7) || bit(word, 8) || bit(word, 9) || bit(word, 10) || bit(
            word,
            11,
        ) || bit(word, 12) || bit(word, 13) || bit(word, 14) || bit(word, 15));
    }
}

/// The number of bits set in a word, with the set of their positions.
fn count_bits(word: u16) -> (count: usize)
    ensures
        Set::new(|i: int| bit(word, i)).finite(),
        count == Set::new(|i: int| bit(word, i)).len(),
        count <= 16,
{
    let mut count: usize = 0;
    let ghost mut seen: Set<int> = Set::empty();
    for i in 0..16usize
        invariant
            count <= i,
            seen.finite(),
            seen.len() == count,
            seen == Set::new(|j: int| bit(word, j) && j < i),
    {
        if (word >> (i as u16)) & 1 == 1 {
            count += 1;
            proof {
                seen = seen.insert(i as int);
            }
        }
        assert(seen =~= Set::new(|j: int| bit(word, j) && j < i + 1));
    }
    assert(seen =~= Set::new(|i: int| bit(word, i)));
    count
}

/// A set of colors.
///
/// There are 16 colors, so one 16-bit word holds the set: bit `i` says
/// whether the color at place `i` is in it.
#[derive(Clone, Copy, Debug, PartialEq, Eq)]
pub struct SquareColorSet {
    bits: u16,
}

impl View for SquareColorSet {
    type V = Set<SquareColor>;

    closed spec fn view(&self) -> Set<SquareColor> {
        Set::new(|color: SquareColor| bit(self.bits, color_place(color)))
    }
}

impl Default for SquareColorSet {
    /// The empty set.
    fn default() -> (set: SquareColorSet)
        ensures
            set@ == Set::<SquareColor>::empty(),
    {
        let set = SquareColorSet { bits: 0 };
        proof {
            lemma_bit_zero(0);
            assert(set@ =~= Set::<SquareColor>::empty());
        }
        set
    }
}

impl SquareColorSet {
    /// The set of the colors that occur in a list.
    pub fn from_iter(colors: &[SquareColor]) -> (set: SquareColorSet)
        ensures
            set@ == colors@.to_set(),
    {
        let mut set = SquareColorSet::default();
        for k in 0..colors.len()
            invariant
                set@ == colors@.take(k as int).to_set(),
        {
            set.add(colors[k]);
            proof {
                lemma_take_next_to_set(colors@, k as int);
            }
        }
        assert(colors@.take(colors@.len() as int) =~= colors@);
        set
    }

    /// Puts a color into the set.
    pub fn add(&mut self, color: SquareColor)
        ensures
            final(self)@ == old(self)@.insert(color),
    {
        let place = color.place();
        let shift = place as u16;
        let word = self.bits | (1u16 << shift);
        self.bits = word;
        proof {
            assert forall|other: SquareColor|
                self@.contains(other) == old(self)@.insert(color).contains(other) by {
                assert(color_at_place(color_place(other)) == other);
                assert(color_at_place(color_place(color)) == color);
                lemma_bit_shifted(old(self).bits, shift, color_place(other) as u16);
            }
            assert(self@ =~= old(self)@.insert(color));
        }
    }

    /// The number of colors in the set.
    pub fn len(&self) -> (count: usize)
        ensures
            self@.finite(),
            count == self@.len(),
            count <= 16,
    {
        let count = count_bits(self.bits);
        proof {
            let places = Set::new(|i: int| bit(self.bits, i));
            assert(places.map(|i: int| color_at_place(i)) =~= self@) by {
                assert forall|color: SquareColor| self@.contains(color) implies places.map(
                    |i: int| color_at_place(i),
                ).contains(color) by {
                    assert(places.contains(color_place(color)));
                    assert(color_at_place(color_place(color)) == color);
                }
            }
            assert(vstd::relations::injective_on(|i: int| color_at_place(i), places));
            vstd::set_lib::lemma_map_size(places, self@, |i: int| color_at_place(i));
            places.lemma_map_finite(|i: int| color_at_place(i));
        }
        count
    }

    /// Whether the set holds no color.
    pub fn is_empty(&self) -> (empty: bool)
        ensures
            empty == (self@ == Set::<SquareColor>::empty()),
    {
        proof {
            lemma_bit_zero(self.bits);
            if self.bits == 0 {
                assert(self@ =~= Set::<SquareColor>::empty());
            } else {
                let j = choose|j: int| bit(self.bits, j);
                assert(self@.contains(color_at_place(j)));
            }
        }
        self.bits == 0
    }

    /// Whether a color is in the set.
    pub fn contains(&self, color: &SquareColor) -> (found: bool)
        ensures
            found == self@.contains(*color),
    {
        let place = color.place();
        (self.bits >> (place as u16)) & 1 == 1
    }
}

/// A set of lines, that is of rows or of columns, each named by its number.
///
/// A board has at most 16 lines each way, so one 16-bit word holds the set:
/// bit `i` says whether line `i` is in it.
#[derive(Clone, Copy, Debug, PartialEq, Eq)]
pub struct LineSet {
    bits: u16,
}

impl View for LineSet {
    type V = Set<usize>;

    closed spec fn view(&self) -> Set<usize> {
        Set::new(|line: usize| bit(self.bits, line as int))
    }
}

impl Default for LineSet {
    /// The empty set.
    fn default() -> (set: LineSet)
        ensures
            set@ == Set::<usize>::empty(),
    {
        let set = LineSet { bits: 0 };
        proof {
            lemma_bit_zero(0);
            assert(set@ =~= Set::<usize>::empty());
        }
        set
    }
}

impl LineSet {
    /// The set of the lines that occur in a list.
    pub fn from_iter(lines: &[usize]) -> (set: LineSet)
        requires
            forall|k: int| 0 <= k < lines@.len() ==> lines@[k] < 16,
        ensures
            set@ == lines@.to_set(),
    {
        let mut set = LineSet::default();
        for k in 0..lines.len()
            invariant
                forall|k: int| 0 <= k < lines@.len() ==> lines@[k] < 16,
                set@ == lines@.take(k as int).to_set(),
        {
            set.add(lines[k]);
            proof {
                lemma_take_next_to_set(lines@, k as int);
            }
        }
        assert(lines@.take(lines@.len() as int) =~= lines@);
        set
    }

    /// Puts a line into the set.
    pub fn add(&mut self, line: usize)
        requires
            line < 16,
        ensures
            final(self)@ == old(self)@.insert(line),
    {
        let shift = line as u16;
        let word = self.bits | (1u16 << shift);
        self.bits = word;
        proof {
            assert forall|other: usize|
                self@.contains(other) == old(self)@.insert(line).contains(other) by {
                if other < 16 {
                    lemma_bit_shifted(old(self).bits, shift, other as u16);
                }
            }
            assert(self@ =~= old(self)@.insert(line));
        }
    }

    /// The number of lines in the set.
    pub fn len(&self) -> (count: usize)
        ensures
            self@.finite(),
            count == self@.len(),
            count <= 16,
    {
        let count = count_bits(self.bits);
        proof {
            let places = Set::new(|i: int| bit(self.bits, i));
            assert(places.map(|i: int| i as usize) =~= self@) by {
                assert forall|line: usize| self@.contains(line) implies places.map(
                    |i: int| i as usize,
                ).contains(line) by {
                    assert(places.contains(line as int));
                }
            }
            assert(vstd::relations::injective_on(|i: int| i as usize, places));
            vstd::set_lib::lemma_map_size(places, self@, |i: int| i as usize);
            places.lemma_map_finite(|i: int| i as usize);
        }
        count
    }

    /// Whether the set holds no line.
    pub fn is_empty(&self) -> (empty: bool)
        ensures
            empty == (self@ == Set::<usize>::empty()),
    {
        proof {
            lemma_bit_zero(self.bits);
            if self.bits == 0 {
                assert(self@ =~= Set::<usize>::empty());
            } else {
                let j = choose|j: int| bit(self.bits, j);
                assert(self@.contains(j as usize));
            }
        }
        self.bits == 0
    }

    /// Whether a line is in the set.
    pub fn contains(&self, line: &usize) -> (found: bool)
        requires
            *line < 16,
        ensures
            found == self@.contains(*line),
    {
        (self.bits >> (*line as u16)) & 1 == 1
    }

    /// A walk over the lines of the set, from the lowest up.
    pub fn iter(&self) -> (walk: LineSetIter<'_>)
        ensures
            walk.set() == self@,
            walk.position() == 0,
    {
        LineSetIter { line_set: self, idx: 0 }
    }
}

/// A walk over a [`LineSet`], from the lowest line up.
pub struct LineSetIter<'a> {
    line_set: &'a LineSet,
    idx: usize,
}

impl<'a> LineSetIter<'a> {
    /// The set that is walked.
    pub closed spec fn set(&self) -> Set<usize> {
        self.line_set@
    }

    /// The walk has passed every line below this number.
    pub closed spec fn position(&self) -> int {
        self.idx as int
    }

    /// The lowest line of the set that the walk has not passed, or `None`
    /// once it has passed them all.
    pub fn next(&mut self) -> (item: Option<usize>)
        ensures
            final(self).set() == old(self).set(),
            match item {
                Some(line) => {
                    &&& old(self).position() <= line < 16
                    &&& old(self).set().contains(line)
                    &&& final(self).position() == line + 1
                    &&& forall|other: usize|
                        old(self).position() <= other < line ==> !old(self).set().contains(other)
                },
                None => {
                    &&& final(self).position() >= 16
                    &&& final(self).position() >= old(self).position()
                    &&& forall|other: usize|
                        old(self).position() <= other ==> !old(self).set().contains(other)
                },
            },
    {
        while self.idx < 16
            invariant
                self.line_set == old(self).line_set,
                old(self).idx <= self.idx,
                forall|other: usize|
                    old(self).position() <= other < self.idx ==> !old(self).set().contains(other),
            decreases 16 - self.idx,
        {
            if self.line_set.contains(&self.idx) {
                self.idx += 1;
                return Some((self.idx - 1) as usize);
            }
            self.idx += 1;
        }
        None
    }
}

/// The set of a list with one more item at its end is the set of the list
/// with that item put in.
pub proof fn lemma_push_to_set<T>(items: Seq<T>, item: T)
    ensures
        items.push(item).to_set() == items.to_set().insert(item),
{
    let longer = items.push(item);
    assert forall|c: T| longer.to_set().contains(c) implies items.to_set().insert(item).contains(
        c,
    ) by {
        let i = choose|i: int| 0 <= i < longer.len() && longer[i] == c;
        if i < items.len() {
            assert(items[i] == c);
        }
    }
    assert forall|c: T| items.to_set().insert(item).contains(c) implies longer.to_set().contains(
        c,
    ) by {
        if c == item {
            assert(longer[items.len() as int] == c);
        } else {
            let i = choose|i: int| 0 <= i < items.len() && items[i] == c;
            assert(longer[i] == c);
        }
    }
    assert(longer.to_set() =~= items.to_set().insert(item));
}

/// The set of the first `k + 1` items of a list is the set of the first
/// `k` with item `k` put in.
pub proof fn lemma_take_next_to_set<T>(items: Seq<T>, k: int)
    requires
        0 <= k < items.len(),
    ensures
        items.take(k + 1).to_set() == items.take(k).to_set().insert(items[k]),
{
    assert(items.take(k + 1) =~= items.take(k).push(items[k]));
    lemma_push_to_set(items.take(k), items[k]);
}

/// A set of squares of a grid of at most 16 rows and 16 columns.
///
/// One 16-bit word for each row holds the set: bit `c` of word `r` says
/// whether the square in row `r` and column `c` is in it.
#[derive(Clone, Copy, Debug, PartialEq, Eq)]
pub struct CoordSet {
    rows: [u16; 16],
}

impl View for CoordSet {
    type V = Set<Coord>;

    closed spec fn view(&self) -> Set<Coord> {
        Set::new(|coord: Coord| coord.0 < 16 && bit(self.rows[coord.0 as int], coord.1 as int))
    }
}

impl Default for CoordSet {
    /// The empty set.
    fn default() -> (set: CoordSet)
        ensures
            set@ == Set::<Coord>::empty(),
    {
        let set = CoordSet { rows: [0, 0, 0, 0, 0, 0, 0, 0, 0, 0, 0, 0, 0, 0, 0, 0] };
        proof {
            lemma_bit_zero(0);
            assert forall|coord: Coord| !set@.contains(coord) by {
                if coord.0 < 16 {
                    assert(set.rows@[coord.0 as int] == 0);
                }
            }
            assert(set@ =~= Set::<Coord>::empty());
        }
        set
    }
}

impl CoordSet {
    /// The set of the squares that occur in a list.
    pub fn from_iter(coords: &[Coord]) -> (set: CoordSet)
        requires
            forall|k: int| 0 <= k < coords@.len() ==> coords@[k].0 < 16 && coords@[k].1 < 16,
        ensures
            set@ == coords@.to_set(),
    {
        let mut set = CoordSet::default();
        for k in 0..coords.len()
            invariant
                forall|k: int| 0 <= k < coords@.len() ==> coords@[k].0 < 16 && coords@[k].1 < 16,
                set@ == coords@.take(k as int).to_set(),
        {
            set.add(coords[k]);
            proof {
                lemma_take_next_to_set(coords@, k as int);
            }
        }
        assert(coords@.take(coords@.len() as int) =~= coords@);
        set
    }

    /// The number of squares in the set.
    pub fn len(&self) -> (count: usize)
        ensures
            self@.finite(),
            count == self@.len(),
            count <= 256,
    {
        let mut count: usize = 0;
        let ghost mut seen: Set<Coord> = Set::empty();
        for r in 0..16usize
            invariant
                count <= 16 * r,
                seen.finite(),
                seen.len() == count,
                seen == Set::new(|coord: Coord| self@.contains(coord) && coord.0 < r),
        {
            let word = self.rows[r];
            for c in 0..16usize
                invariant
                    r < 16,
                    word == self.rows[r as int],
                    count <= 16 * r + c,
                    seen.finite(),
                    seen.len() == count,
                    seen == Set::new(
                        |coord: Coord|
                            self@.contains(coord) && (coord.0 < r || (coord.0 == r && coord.1 < c)),
                    ),
            {
                if (word >> (c as u16)) & 1 == 1 {
                    count += 1;
                    proof {
                        seen = seen.insert((r, c));
                    }
                }
                assert(seen =~= Set::new(
                    |coord: Coord|
                        self@.contains(coord) && (coord.0 < r || (coord.0 == r && coord.1 < c + 1)),
                ));
            }
            assert(seen =~= Set::new(|coord: Coord| self@.contains(coord) && coord.0 < r + 1));
        }
        assert(seen =~= self@);
        count
    }

    /// Whether the set holds no square.
    pub fn is_empty(&self) -> (empty: bool)
        ensures
            empty == (self@ == Set::<Coord>::empty()),
    {
        for r in 0..16usize
            invariant
                forall|coord: Coord| self@.contains(coord) ==> coord.0 >= r,
        {
            if self.rows[r] != 0 {
                proof {
                    lemma_bit_zero(self.rows[r as int]);
                    let j = choose|j: int| bit(self.rows[r as int], j);
                    assert(self@.contains((r, j as usize)));
                }
                return false;
            }
            proof {
                lemma_bit_zero(self.rows[r as int]);
            }
        }
        assert(self@ =~= Set::<Coord>::empty());
        true
    }

    /// Whether a square is in the set.
    pub fn contains(&self, coord: &Coord) -> (found: bool)
        requires
            coord.0 < 16,
            coord.1 < 16,
        ensures
            found == self@.contains(*coord),
    {
        (self.rows[coord.0] >> (coord.1 as u16)) & 1 == 1
    }

    /// Puts a square into the set.
    pub fn add(&mut self, c: Coord)
        requires
            c.0 < 16,
            c.1 < 16,
        ensures
            final(self)@ == old(self)@.insert(c),
    {
        let shift = c.1 as u16;
        proof {
            lemma_bit_set(self.rows[c.0 as int], shift);
        }
        let word = self.rows[c.0] | (1u16 << shift);
        self.rows[c.0] = word;
        proof {
            assert forall|other: Coord|
                self@.contains(other) == old(self)@.insert(c).contains(other) by {
                if other.0 == c.0 {
                    assert(bit(word, other.1 as int) == (bit(
                        old(self).rows[c.0 as int],
                        other.1 as int,
                    ) || other.1 as int == shift));
                } else if other.0 < 16 {
                    assert(self.rows[other.0 as int] == old(self).rows[other.0 as int]);
                }
            }
            assert(self@ =~= old(self)@.insert(c));
        }
    }

    /// Puts every square of a list into the set.
    pub fn extend(&mut self, coords: &[Coord])
        requires
            forall|k: int| 0 <= k < coords@.len() ==> coords@[k].0 < 16 && coords@[k].1 < 16,
        ensures
            final(self)@ == old(self)@.union(coords@.to_set()),
    {
        for k in 0..coords.len()
            invariant
                forall|k: int| 0 <= k < coords@.len() ==> coords@[k].0 < 16 && coords@[k].1 < 16,
                self@ == old(self)@.union(coords@.take(k as int).to_set()),
        {
            self.add(coords[k]);
            proof {
                lemma_take_next_to_set(coords@, k as int);
                assert(self@ =~= old(self)@.union(coords@.take(k + 1).to_set()));
            }
        }
        assert(coords@.take(coords@.len() as int) =~= coords@);
    }

    /// The squares that are in both sets.
    pub fn intersection(&self, other: &CoordSet) -> (both: CoordSet)
        ensures
            both@ == self@.intersect(other@),
    {
        let mut both = CoordSet::default();
        for a in 0..16usize
            invariant
                forall|r: int| 0 <= r < a ==> both.rows[r] == self.rows[r] & other.rows[r],
        {
            let word = self.rows[a] & other.rows[a];
            both.rows[a] = word;
        }
        proof {
            assert forall|coord: Coord| both@.contains(coord) == (self@.contains(coord)
                && other@.contains(coord)) by {
                if coord.0 < 16 {
                    lemma_bit_and(self.rows[coord.0 as int], other.rows[coord.0 as int]);
                }
            }
            assert(both@ =~= self@.intersect(other@));
        }
        both
    }

    /// The squares that are in either set.
    pub fn union(&self, other: &CoordSet) -> (either: CoordSet)
        ensures
            either@ == self@.union(other@),
    {
        let mut either = CoordSet::default();
        for a in 0..16usize
            invariant
                forall|r: int| 0 <= r < a ==> either.rows[r] == self.rows[r] | other.rows[r],
        {
            let word = self.rows[a] | other.rows[a];
            either.rows[a] = word;
        }
        proof {
            assert forall|coord: Coord| either@.contains(coord) == (self@.contains(coord)
                || other@.contains(coord)) by {
                if coord.0 < 16 {
                    lemma_bit_or(self.rows[coord.0 as int], other.rows[coord.0 as int]);
                }
            }
            assert(either@ =~= self@.union(other@));
        }
        either
    }

    /// The squares that are in this set and not in the other.
    pub fn difference(&self, other: &CoordSet) -> (rest: CoordSet)
        ensures
            rest@ == self@.difference(other@),
    {
        let mut rest = CoordSet::default();
        for a in 0..16usize
            invariant
                forall|r: int| 0 <= r < a ==> rest.rows[r] == self.rows[r] & !other.rows[r],
        {
            let word = self.rows[a] & !other.rows[a];
            rest.rows[a] = word;
        }
        proof {
            assert forall|coord: Coord| rest@.contains(coord) == (self@.contains(coord)
                && !other@.contains(coord)) by {
                if coord.0 < 16 {
                    lemma_bit_and_not(self.rows[coord.0 as int], other.rows[coord.0 as int]);
                }
            }
            assert(rest@ =~= self@.difference(other@));
        }
        rest
    }

    /// A walk over the squares of the set: row by row from the top, each
    /// row from the left.
    pub fn iter(&self) -> (walk: CoordSetIter<'_>)
        ensures
            walk.set() == self@,
            walk.position() == 0,
    {
        CoordSetIter { coord_set: self, idx: 0 }
    }

    /// Every square in a set has its row and its column below 16.
    pub proof fn lemma_coords_in_range(self)
        ensures
            forall|coord: Coord| self@.contains(coord) ==> coord.0 < 16 && coord.1 < 16,
    {
    }

    /// Two sets that hold the same squares are the same set.
    pub proof fn lemma_same_squares(self, other: CoordSet)
        requires
            self@ == other@,
        ensures
            self == other,
    {
        assert forall|r: int| 0 <= r < 16 implies self.rows[r] == other.rows[r] by {
            let a = self.rows[r];
            let b = other.rows[r];
            assert forall|j: int| bit(a ^ b, j) == (bit(a, j) != bit(b, j)) by {
                if 0 <= j < 16 {
                    lemma_bit_differs(a, b, j as u16);
                }
            }
            assert forall|j: int| !bit(a ^ b, j) by {
                if 0 <= j < 16 {
                    let coord = (r as usize, j as usize);
                    assert(self@.contains(coord) == other@.contains(coord));
                    assert(self@.contains(coord) == bit(a, j));
                    assert(other@.contains(coord) == bit(b, j));
                }
            }
            lemma_bit_zero(a ^ b);
            lemma_xor_zero(a, b);
        }
        assert(self.rows =~= other.rows);
    }
}

proof fn lemma_bit_differs(a: u16, b: u16, j: u16)
    by (bit_vector)
    requires
        j < 16,
    ensures
        ((a ^ b) >> j) & 1u16 == 1u16 <==> (((a >> j) & 1u16 == 1u16) != ((b >> j) & 1u16 == 1u16)),
{
}

proof fn lemma_xor_zero(a: u16, b: u16)
    by (bit_vector)
    requires
        a ^ b == 0,
    ensures
        a == b,
{
}

/// A walk over a [`CoordSet`]: row by row from the top, each row from the
/// left.
pub struct CoordSetIter<'a> {
    coord_set: &'a CoordSet,
    idx: usize,
}

impl<'a> CoordSetIter<'a> {
    /// The set that is walked.
    pub closed spec fn set(&self) -> Set<Coord> {
        self.coord_set@
    }

    /// The walk has passed every square whose rank is below this number.
    pub closed spec fn position(&self) -> int {
        self.idx as int
    }

    /// The first square of the set that the walk has not passed, or `None`
    /// once it has passed them all.
    pub fn next(&mut self) -> (item: Option<Coord>)
        ensures
            final(self).set() == old(self).set(),
            match item {
                Some(coord) => {
                    &&& coord.0 < 16
                    &&& coord.1 < 16
                    &&& old(self).position() <= coord_rank(coord)
                    &&& old(self).set().contains(coord)
                    &&& final(self).position() == coord_rank(coord) + 1
                    &&& forall|other: Coord|
                        old(self).set().contains(other) ==> !(old(self).position() <= coord_rank(
                            other,
                        ) < coord_rank(coord))
                },
                None => {
                    &&& final(self).position() >= 256
                    &&& final(self).position() >= old(self).position()
                    &&& forall|other: Coord|
                        old(self).set().contains(other) ==> coord_rank(other) < old(
                            self,
                        ).position()
                },
            },
    {
        while self.idx < 256
            invariant
                self.coord_set == old(self).coord_set,
                old(self).idx <= self.idx,
                forall|other: Coord|
                    old(self).set().contains(other) ==> !(old(self).position() <= coord_rank(other)
                        < self.idx),
            decreases 256 - self.idx,
        {
            let a = self.idx / 16;
            let b = self.idx % 16;
            if self.coord_set.contains(&(a, b)) {
                self.idx += 1;
                return Some((a, b));
            }
            proof {
                assert forall|other: Coord| old(self).set().contains(other) implies !(old(
                    self,
                ).position() <= coord_rank(other) < self.idx + 1) by {
                    if coord_rank(other) == self.idx {
                        assert(other.0 == a && other.1 == b);
                    }
                }
            }
            self.idx += 1;
        }
        None
    }
}

/// The colors of a set whose place is below `n`, in the order of their
/// places.
pub open spec fn colors_below(set: Set<SquareColor>, n: nat) -> Seq<SquareColor>
    decreases n,
{
    if n == 0 {
        Seq::empty()
    } else {
        let earlier = colors_below(set, (n - 1) as nat);
        if set.contains(color_at_place(n - 1)) {
            earlier.push(color_at_place(n - 1))
        } else {
            earlier
        }
    }
}

/// The lines of a set below `n`, from the lowest up.
pub open spec fn lines_below(set: Set<usize>, n: nat) -> Seq<usize>
    decreases n,
{
    if n == 0 {
        Seq::empty()
    } else {
        let earlier = lines_below(set, (n - 1) as nat);
        if set.contains((n - 1) as usize) {
            earlier.push((n - 1) as usize)
        } else {
            earlier
        }
    }
}

/// The squares of a set whose rank is below `n`, in the order of their
/// ranks.
pub open spec fn coords_below(set: Set<Coord>, n: nat) -> Seq<Coord>
    decreases n,
{
    if n == 0 {
        Seq::empty()
    } else {
        let earlier = coords_below(set, (n - 1) as nat);
        let coord = (((n - 1) / 16) as usize, ((n - 1) % 16) as usize);
        if set.contains(coord) {
            earlier.push(coord)
        } else {
            earlier
        }
    }
}

/// A square as it is written: its row and its column in round brackets.
pub open spec fn coord_text(coord: Coord) -> Seq<char> {
    seq!['('] + decimal(coord.0 as nat) + seq![',', ' '] + decimal(coord.1 as nat) + seq![')']
}

/// A set of colors as it is written: the names of its colors, in the order
/// of their places.
pub open spec fn color_set_text(set: Set<SquareColor>) -> Seq<char> {
    bracketed(colors_below(set, 16).map_values(|color: SquareColor| color_name(color)))
}

/// A set of lines as it is written: the numbers of its lines, from the
/// lowest up.
pub open spec fn line_set_text(set: Set<usize>) -> Seq<char> {
    bracketed(lines_below(set, 16).map_values(|line: usize| decimal(line as nat)))
}

/// A set of squares as it is written: its squares, row by row from the
/// top, each row from the left.
pub open spec fn coord_set_text(set: Set<Coord>) -> Seq<char> {
    bracketed(coords_below(set, 256).map_values(|coord: Coord| coord_text(coord)))
}

impl SquareColorSet {
    /// The set as it is written.
    pub fn to_string(&self) -> (text: String)
        ensures
            text@ == color_set_text(self@),
    {
        let mut text = String::new();
        push_text(&mut text, "[");
        let ghost mut items: Seq<Seq<char>> = Seq::empty();
        proof {
            reveal_strlit("[");
            reveal_strlit(", ");
            reveal_strlit("]");
            assert(text@ =~= seq!['['] + joined(items));
            assert(items =~= colors_below(self@, 0).map_values(
                |color: SquareColor| color_name(color),
            ));
        }
        let mut first = true;
        for place in 0..16usize
            invariant
                ", "@ == seq![',', ' '],
                "]"@ == seq![']'],
                first == (items.len() == 0),
                items == colors_below(self@, place as nat).map_values(
                    |color: SquareColor| color_name(color),
                ),
                text@ == seq!['['] + joined(items),
        {
            let color = SquareColor::at_place(place);
            if self.contains(&color) {
                proof {
                    lemma_joined_push(items, color_name(color));
                }
                if !first {
                    push_text(&mut text, ", ");
                }
                push_text(&mut text, color.name());
                first = false;
                proof {
                    items = items.push(color_name(color));
                    assert(text@ =~= seq!['['] + joined(items));
                    assert(items =~= colors_below(self@, (place + 1) as nat).map_values(
                        |color: SquareColor| color_name(color),
                    ));
                }
            }
        }
        push_text(&mut text, "]");
        assert(text@ =~= color_set_text(self@));
        text
    }
}

impl LineSet {
    /// The set as it is written.
    pub fn to_string(&self) -> (text: String)
        ensures
            text@ == line_set_text(self@),
    {
        let mut text = String::new();
        push_text(&mut text, "[");
        let ghost mut items: Seq<Seq<char>> = Seq::empty();
        proof {
            reveal_strlit("[");
            reveal_strlit(", ");
            reveal_strlit("]");
            assert(text@ =~= seq!['['] + joined(items));
            assert(items =~= lines_below(self@, 0).map_values(|line: usize| decimal(line as nat)));
        }
        let mut first = true;
        for line in 0..16usize
            invariant
                ", "@ == seq![',', ' '],
                "]"@ == seq![']'],
                first == (items.len() == 0),
                items == lines_below(self@, line as nat).map_values(
                    |line: usize| decimal(line as nat),
                ),
                text@ == seq!['['] + joined(items),
        {
            if self.contains(&line) {
                proof {
                    lemma_joined_push(items, decimal(line as nat));
                }
                if !first {
                    push_text(&mut text, ", ");
                }
                push_decimal(&mut text, line);
                first = false;
                proof {
                    items = items.push(decimal(line as nat));
                    assert(text@ =~= seq!['['] + joined(items));
                    assert(items =~= lines_below(self@, (line + 1) as nat).map_values(
                        |line: usize| decimal(line as nat),
                    ));
                }
            }
        }
        push_text(&mut text, "]");
        assert(text@ =~= line_set_text(self@));
        text
    }
}

impl CoordSet {
    /// The set as it is written.
    pub fn to_string(&self) -> (text: String)
        ensures
            text@ == coord_set_text(self@),
    {
        let mut text = String::new();
        push_text(&mut text, "[");
        let ghost mut items: Seq<Seq<char>> = Seq::empty();
        proof {
            reveal_strlit("[");
            reveal_strlit(", ");
            reveal_strlit("]");
            reveal_strlit("(");
            reveal_strlit(")");
            assert(text@ =~= seq!['['] + joined(items));
            assert(items =~= coords_below(self@, 0).map_values(|coord: Coord| coord_text(coord)));
        }
        let mut first = true;
        for rank in 0..256usize
            invariant
                ", "@ == seq![',', ' '],
                "]"@ == seq![']'],
                "("@ == seq!['('],
                ")"@ == seq![')'],
                first == (items.len() == 0),
                items == coords_below(self@, rank as nat).map_values(
                    |coord: Coord| coord_text(coord),
                ),
                text@ == seq!['['] + joined(items),
        {
            let coord = (rank / 16, rank % 16);
            if self.contains(&coord) {
                proof {
                    lemma_joined_push(items, coord_text(coord));
                }
                if !first {
                    push_text(&mut text, ", ");
                }
                push_text(&mut text, "(");
                push_decimal(&mut text, coord.0);
                push_text(&mut text, ", ");
                push_decimal(&mut text, coord.1);
                push_text(&mut text, ")");
                first = false;
                proof {
                    items = items.push(coord_text(coord));
                    assert(text@ =~= seq!['['] + joined(items));
                    assert(items =~= coords_below(self@, (rank + 1) as nat).map_values(
                        |coord: Coord| coord_text(coord),
                    ));
                }
            }
        }
        push_text(&mut text, "]");
        assert(text@ =~= coord_set_text(self@));
        text
    }
}

} // verus!
