use vstd::prelude::*;
use vstd::string::StringExecFns;

verus! {

/// `String::push` puts one character at the end of a string.
pub assume_specification[ String::push ](text: &mut String, ch: char)
    ensures
        final(text)@ == old(text)@.push(ch),
;

/// The character of a digit. A number above 9 has no digit; it gets `9`.
pub open spec fn digit(d: nat) -> char {
    if d == 0 {
        '0'
    } else if d == 1 {
        '1'
    } else if d == 2 {
        '2'
    } else if d == 3 {
        '3'
    } else if d == 4 {
        '4'
    } else if d == 5 {
        '5'
    } else if d == 6 {
        '6'
    } else if d == 7 {
        '7'
    } else if d == 8 {
        '8'
    } else {
        '9'
    }
}

/// A number written in decimal, without leading zeros.
pub open spec fn decimal(n: nat) -> Seq<char>
    decreases n,
{
    if n < 10 {
        seq![digit(n)]
    } else {
        decimal(n / 10).push(digit(n % 10))
    }
}

/// Texts put one after the other, with a comma and a space between them.
pub open spec fn joined(items: Seq<Seq<char>>) -> Seq<char>
    decreases items.len(),
{
    if items.len() == 0 {
        Seq::empty()
    } else if items.len() == 1 {
        items[0]
    } else {
        joined(items.drop_last()) + seq![',', ' '] + items.last()
    }
}

/// Texts put one after the other, with a comma and a space between them
/// and square brackets around them all.
pub open spec fn bracketed(items: Seq<Seq<char>>) -> Seq<char> {
    seq!['['] + joined(items) + seq![']']
}

/// Joining one more text after a list of texts puts a comma and a space
/// before it, unless it is the first.
pub proof fn lemma_joined_push(items: Seq<Seq<char>>, item: Seq<char>)
    ensures
        joined(items.push(item)) == if items.len() == 0 {
            item
        } else {
            joined(items) + seq![',', ' '] + item
        },
{
    assert(items.push(item).drop_last() =~= items);
}

/// Joining one more text to a list of texts puts a comma and a space before
/// it, unless it is the first.
pub proof fn lemma_joined_next(items: Seq<Seq<char>>, k: int)
    requires
        0 <= k < items.len(),
    ensures
        joined(items.take(k + 1)) == if k == 0 {
            items[k]
        } else {
            joined(items.take(k)) + seq![',', ' '] + items[k]
        },
{
    assert(items.take(k + 1).drop_last() =~= items.take(k));
    assert(items.take(k + 1).last() == items[k]);
}

/// The character of a digit.
pub fn digit_char(d: usize) -> (ch: char)
    requires
        d < 10,
    ensures
        ch == digit(d as nat),
{
    if d == 0 {
        '0'
    } else if d == 1 {
        '1'
    } else if d == 2 {
        '2'
    } else if d == 3 {
        '3'
    } else if d == 4 {
        '4'
    } else if d == 5 {
        '5'
    } else if d == 6 {
        '6'
    } else if d == 7 {
        '7'
    } else if d == 8 {
        '8'
    } else {
        '9'
    }
}

/// Writes a number in decimal at the end of a text.
pub fn push_decimal(text: &mut String, n: usize)
    ensures
        final(text)@ == old(text)@ + decimal(n as nat),
    decreases n,
{
    if n < 10 {
        text.push(digit_char(n));
        assert(text@ =~= old(text)@ + decimal(n as nat));
    } else {
        push_decimal(text, n / 10);
        text.push(digit_char(n % 10));
        assert(text@ =~= old(text)@ + decimal(n as nat));
    }
}

/// Writes a text at the end of another.
pub fn push_text(text: &mut String, more: &str)
    ensures
        final(text)@ == old(text)@ + more@,
{
    text.append(more);
}

/// Whether a character is white space: a character with the Unicode
/// property `White_Space`.
pub open spec fn is_space(ch: char) -> bool {
    let n = ch as u32;
    (9 <= n <= 13) || n == 0x20 || n == 0x85 || n == 0xA0 || n == 0x1680 || (0x2000 <= n
        <= 0x200A) || n == 0x2028 || n == 0x2029 || n == 0x202F || n == 0x205F || n == 0x3000
}

/// A text without the white space at its start.
pub open spec fn trim_start(text: Seq<char>) -> Seq<char>
    decreases text.len(),
{
    if text.len() > 0 && is_space(text[0]) {
        trim_start(text.drop_first())
    } else {
        text
    }
}

/// A text without the white space at its end.
pub open spec fn trim_end(text: Seq<char>) -> Seq<char>
    decreases text.len(),
{
    if text.len() > 0 && is_space(text.last()) {
        trim_end(text.drop_last())
    } else {
        text
    }
}

/// A text without the white space at its start and at its end.
pub open spec fn trimmed(text: Seq<char>) -> Seq<char> {
    trim_end(trim_start(text))
}

/// A line without the carriage return at its end, if it has one.
pub open spec fn without_return(line: Seq<char>) -> Seq<char> {
    if line.len() > 0 && line.last() == '\r' {
        line.drop_last()
    } else {
        line
    }
}

/// The lines of a text of which `current` has been read of the line at
/// hand and `text` is still to read.
pub open spec fn lines_from(text: Seq<char>, current: Seq<char>) -> Seq<Seq<char>>
    decreases text.len(),
{
    if text.len() == 0 {
        if current.len() == 0 {
            Seq::empty()
        } else {
            seq![current]
        }
    } else if text[0] == '\n' {
        seq![without_return(current)] + lines_from(text.drop_first(), Seq::empty())
    } else {
        lines_from(text.drop_first(), current.push(text[0]))
    }
}

/// The lines of a text. A line ends at a line feed, or at the end of the
/// text; a carriage return just before the line feed is not part of the
/// line; after the last line feed there is a line only if there is a
/// character.
pub open spec fn lines_of(text: Seq<char>) -> Seq<Seq<char>> {
    lines_from(text, Seq::empty())
}

/// Lines put one after the other, with a line feed between them.
pub open spec fn joined_lines(lines: Seq<Seq<char>>) -> Seq<char>
    decreases lines.len(),
{
    if lines.len() == 0 {
        Seq::empty()
    } else if lines.len() == 1 {
        lines[0]
    } else {
        joined_lines(lines.drop_last()) + seq!['\n'] + lines.last()
    }
}

/// The texts that a list of lines holds.
pub open spec fn line_views(lines: Seq<Vec<char>>) -> Seq<Seq<char>> {
    lines.map_values(|line: Vec<char>| line@)
}

/// Whether a character is white space.
pub fn is_space_char(ch: char) -> (space: bool)
    ensures
        space == is_space(ch),
{
    let n = ch as u32;
    (9 <= n && n <= 13) || n == 0x20 || n == 0x85 || n == 0xA0 || n == 0x1680 || (0x2000 <= n && n
        <= 0x200A) || n == 0x2028 || n == 0x2029 || n == 0x202F || n == 0x205F || n == 0x3000
}

/// The characters of a text.
pub fn chars_of(text: &str) -> (chars: Vec<char>)
    ensures
        chars@ == text@,
{
    let mut chars: Vec<char> = Vec::new();
    let walk = text.chars();
    for ch in it: walk
        invariant
            chars@ == it.seq().take(it.index() as int),
            it.seq() == text@,
    {
        chars.push(ch);
    }
    chars
}

/// The text of a list of characters.
pub fn text_of(chars: &Vec<char>) -> (text: String)
    ensures
        text@ == chars@,
{
    let mut text = String::new();
    for k in 0..chars.len()
        invariant
            text@ == chars@.take(k as int),
    {
        text.push(chars[k]);
        assert(chars@.take(k + 1) =~= chars@.take(k as int).push(chars@[k as int]));
    }
    assert(chars@.take(chars@.len() as int) =~= chars@);
    text
}

/// The lines of a text, once the white space at its start and at its end
/// is taken away.
pub fn trimmed_lines(chars: &Vec<char>) -> (lines: Vec<Vec<char>>)
    ensures
        line_views(lines@) == lines_of(trimmed(chars@)),
{
    let mut start: usize = 0;
    assert(chars@.skip(0) =~= chars@);
    while start < chars.len() && is_space_char(chars[start])
        invariant
            start <= chars.len(),
            trim_start(chars@) == trim_start(chars@.skip(start as int)),
        decreases chars.len() - start,
    {
        assert(chars@.skip(start as int).drop_first() =~= chars@.skip(start + 1));
        start += 1;
    }
    assert(trim_start(chars@) == chars@.skip(start as int));
    let mut end: usize = chars.len();
    assert(chars@.subrange(start as int, end as int) =~= chars@.skip(start as int));
    while end > start && is_space_char(chars[end - 1])
        invariant
            start <= end <= chars.len(),
            trimmed(chars@) == trim_end(chars@.subrange(start as int, end as int)),
        decreases end - start,
    {
        assert(chars@.subrange(start as int, end as int).drop_last() =~= chars@.subrange(
            start as int,
            end - 1,
        ));
        end -= 1;
    }
    let ghost body = chars@.subrange(start as int, end as int);
    assert(trimmed(chars@) == body);
    let mut lines: Vec<Vec<char>> = Vec::new();
    let mut current: Vec<char> = Vec::new();
    let mut at: usize = start;
    assert(body.skip(0) =~= body);
    assert(Seq::<Seq<char>>::empty() + lines_from(body, Seq::empty()) =~= lines_of(body));
    while at < end
        invariant
            start <= at <= end <= chars.len(),
            body == chars@.subrange(start as int, end as int),
            lines_of(body) == line_views(lines@) + lines_from(body.skip(at - start), current@),
        decreases end - at,
    {
        let ch = chars[at];
        let ghost rest = body.skip(at - start);
        let ghost held = current@;
        let ghost done = line_views(lines@);
        proof {
            assert(rest.len() > 0);
            assert(rest[0] == ch);
            assert(rest.drop_first() =~= body.skip(at + 1 - start));
        }
        if ch == '\n' {
            let len = current.len();
            if len > 0 && current[len - 1] == '\r' {
                current.pop();
            }
            assert(current@ =~= without_return(held));
            lines.push(current);
            current = Vec::new();
            proof {
                assert(line_views(lines@) =~= done.push(without_return(held)));
                assert(done + (seq![without_return(held)] + lines_from(
                    rest.drop_first(),
                    Seq::empty(),
                )) =~= done.push(without_return(held)) + lines_from(
                    rest.drop_first(),
                    Seq::empty(),
                ));
            }
        } else {
            current.push(ch);
        }
        at += 1;
    }
    let ghost done = line_views(lines@);
    let ghost held = current@;
    assert(body.skip(end - start).len() == 0);
    if current.len() > 0 {
        lines.push(current);
        assert(line_views(lines@) =~= done + seq![held]);
    } else {
        assert(done + Seq::<Seq<char>>::empty() =~= done);
    }
    lines
}

/// Lines put one after the other, with a line feed between them.
pub fn join_lines(lines: &Vec<Vec<char>>, from: usize, to: usize) -> (text: Vec<char>)
    requires
        from <= to <= lines@.len(),
    ensures
        text@ == joined_lines(line_views(lines@).subrange(from as int, to as int)),
{
    let ghost part = line_views(lines@).subrange(from as int, to as int);
    let mut text: Vec<char> = Vec::new();
    for k in from..to
        invariant
            from <= to <= lines@.len(),
            part == line_views(lines@).subrange(from as int, to as int),
            text@ == joined_lines(part.take(k - from)),
    {
        proof {
            lemma_joined_lines_next(part, k - from);
        }
        let ghost before = text@;
        if k > from {
            text.push('\n');
        }
        let ghost started = text@;
        let line = &lines[k];
        for c in 0..line.len()
            invariant
                text@ == started + line@.take(c as int),
        {
            text.push(line[c]);
            assert(line@.take(c + 1) =~= line@.take(c as int).push(line@[c as int]));
        }
        assert(line@.take(line@.len() as int) =~= line@);
        assert(part[k - from] == line@);
        assert(text@ =~= joined_lines(part.take(k + 1 - from)));
    }
    assert(part.take(to - from) =~= part);
    text
}

/// Joining one more line to a list of lines puts a line feed before it,
/// unless it is the first.
pub proof fn lemma_joined_lines_next(lines: Seq<Seq<char>>, k: int)
    requires
        0 <= k < lines.len(),
    ensures
        joined_lines(lines.take(k + 1)) == if k == 0 {
            lines[k]
        } else {
            joined_lines(lines.take(k)) + seq!['\n'] + lines[k]
        },
{
    assert(lines.take(k + 1).drop_last() =~= lines.take(k));
    assert(lines.take(k + 1).last() == lines[k]);
}


/// Whether a line has no line feed in it and no carriage return at its
/// end.
pub open spec fn is_plain_line(line: Seq<char>) -> bool {
    (forall|k: int| 0 <= k < line.len() ==> line[k] != '\n') && !(line.len() > 0 && line.last()
        == '\r')
}

/// A text that neither starts nor ends with white space is its own
/// trimmed text.
pub proof fn lemma_trimmed_same(text: Seq<char>)
    requires
        text.len() > 0,
        !is_space(text[0]),
        !is_space(text.last()),
    ensures
        trimmed(text) == text,
{
}

/// What is still to read of a line without a line feed, at the end of a
/// text, ends the line at hand.
pub proof fn lemma_lines_from_last(line: Seq<char>, current: Seq<char>)
    requires
        forall|k: int| 0 <= k < line.len() ==> line[k] != '\n',
    ensures
        lines_from(line, current) == if (current + line).len() == 0 {
            Seq::<Seq<char>>::empty()
        } else {
            seq![current + line]
        },
    decreases line.len(),
{
    if line.len() == 0 {
        assert(current + line =~= current);
    } else {
        lemma_lines_from_last(line.drop_first(), current.push(line[0]));
        assert(current.push(line[0]) + line.drop_first() =~= current + line);
    }
}

/// What is still to read of a line without a line feed, before a line
/// feed, ends the line at hand, and the lines of the rest follow.
pub proof fn lemma_lines_from_first(line: Seq<char>, rest: Seq<char>, current: Seq<char>)
    requires
        forall|k: int| 0 <= k < line.len() ==> line[k] != '\n',
    ensures
        lines_from(line + seq!['\n'] + rest, current) == seq![without_return(current + line)]
            + lines_from(rest, Seq::empty()),
    decreases line.len(),
{
    let text = line + seq!['\n'] + rest;
    if line.len() == 0 {
        assert(text[0] == '\n');
        assert(text.drop_first() =~= rest);
        assert(current + line =~= current);
    } else {
        assert(text[0] == line[0]);
        assert(text.drop_first() =~= line.drop_first() + seq!['\n'] + rest);
        lemma_lines_from_first(line.drop_first(), rest, current.push(line[0]));
        assert(current.push(line[0]) + line.drop_first() =~= current + line);
    }
}

/// The text of two or more lines is the first line, a line feed, and the
/// text of the other lines.
pub proof fn lemma_joined_lines_first(lines: Seq<Seq<char>>)
    requires
        lines.len() >= 2,
    ensures
        joined_lines(lines) == lines[0] + seq!['\n'] + joined_lines(lines.drop_first()),
    decreases lines.len(),
{
    if lines.len() == 2 {
        assert(lines.drop_last().len() == 1);
        assert(joined_lines(lines.drop_last()) == lines[0]);
        assert(lines.drop_first().len() == 1);
        assert(joined_lines(lines.drop_first()) == lines[1]);
    } else {
        lemma_joined_lines_first(lines.drop_last());
        assert(lines.drop_last().drop_first() =~= lines.drop_first().drop_last());
        assert(lines.drop_first().last() == lines.last());
        assert(joined_lines(lines.drop_first()) == joined_lines(lines.drop_first().drop_last())
            + seq!['\n'] + lines.last());
        assert(joined_lines(lines) =~= lines[0] + seq!['\n'] + joined_lines(lines.drop_first()));
    }
}

/// The lines of the text of plain lines, the last of which is not empty,
/// are those lines.
pub proof fn lemma_lines_of_joined(lines: Seq<Seq<char>>)
    requires
        lines.len() > 0,
        forall|k: int| 0 <= k < lines.len() ==> is_plain_line(#[trigger] lines[k]),
        lines.last().len() > 0,
    ensures
        lines_of(joined_lines(lines)) == lines,
    decreases lines.len(),
{
    if lines.len() == 1 {
        assert(is_plain_line(lines[0]));
        lemma_lines_from_last(lines[0], Seq::empty());
        assert(Seq::<char>::empty() + lines[0] =~= lines[0]);
        assert(seq![lines[0]] =~= lines);
    } else {
        let rest = lines.drop_first();
        lemma_joined_lines_first(lines);
        assert(is_plain_line(lines[0]));
        lemma_lines_from_first(lines[0], joined_lines(rest), Seq::empty());
        assert(Seq::<char>::empty() + lines[0] =~= lines[0]);
        assert forall|k: int| 0 <= k < rest.len() implies is_plain_line(#[trigger] rest[k]) by {
            assert(rest[k] == lines[k + 1]);
        }
        lemma_lines_of_joined(rest);
        assert(seq![lines[0]] + rest =~= lines);
    }
}

/// The text of lines after lines is the text of the first, a line feed,
/// and the text of the second.
pub proof fn lemma_joined_lines_concat(first: Seq<Seq<char>>, second: Seq<Seq<char>>)
    requires
        first.len() > 0,
        second.len() > 0,
    ensures
        joined_lines(first + second) == joined_lines(first) + seq!['\n'] + joined_lines(second),
    decreases second.len(),
{
    let all = first + second;
    assert(all.last() == second.last());
    if second.len() == 1 {
        assert(all.drop_last() =~= first);
    } else {
        assert(all.drop_last() =~= first + second.drop_last());
        lemma_joined_lines_concat(first, second.drop_last());
        assert(joined_lines(all) =~= joined_lines(first) + seq!['\n'] + joined_lines(second));
    }
}

/// The text of lines starts with the first character of the first line
/// and ends with the last character of the last line, where those lines
/// are not empty.
pub proof fn lemma_joined_lines_ends(lines: Seq<Seq<char>>)
    requires
        lines.len() > 0,
        lines[0].len() > 0,
        lines.last().len() > 0,
    ensures
        joined_lines(lines).len() > 0,
        joined_lines(lines)[0] == lines[0][0],
        joined_lines(lines).last() == lines.last().last(),
{
    if lines.len() >= 2 {
        lemma_joined_lines_first(lines);
    }
}

/// White space after a text is not part of the text without the white
/// space at its end.
pub proof fn lemma_trim_end_spaces(text: Seq<char>, spaces: Seq<char>)
    requires
        forall|k: int| 0 <= k < spaces.len() ==> is_space(#[trigger] spaces[k]),
    ensures
        trim_end(text + spaces) == trim_end(text),
    decreases spaces.len(),
{
    if spaces.len() == 0 {
        assert(text + spaces =~= text);
    } else {
        let all = text + spaces;
        assert(all.last() == spaces.last());
        assert(all.drop_last() =~= text + spaces.drop_last());
        lemma_trim_end_spaces(text, spaces.drop_last());
    }
}

/// The text of lines of white space is white space.
pub proof fn lemma_joined_lines_spaces(lines: Seq<Seq<char>>)
    requires
        forall|r: int, c: int|
            0 <= r < lines.len() && 0 <= c < lines[r].len() ==> is_space(#[trigger] lines[r][c]),
    ensures
        forall|k: int|
            0 <= k < joined_lines(lines).len() ==> is_space(#[trigger] joined_lines(lines)[k]),
    decreases lines.len(),
{
    if lines.len() >= 2 {
        let init = lines.drop_last();
        assert forall|r: int, c: int| 0 <= r < init.len() && 0 <= c < init[r].len() implies is_space(
            #[trigger] init[r][c],
        ) by {
            assert(init[r] == lines[r]);
        }
        lemma_joined_lines_spaces(init);
        let text = joined_lines(lines);
        assert forall|k: int| 0 <= k < text.len() implies is_space(#[trigger] text[k]) by {
            let first = joined_lines(init).len() as int;
            if k < first {
                assert(text[k] == joined_lines(init)[k]);
            } else if k == first {
                assert(text[k] == '\n');
            } else {
                assert(text[k] == lines.last()[k - first - 1]);
            }
        }
    }
}

} // verus!
