//! Text as a sequence of characters: its lines, the words of a line, and
//! the numbers that words spell.
use vstd::prelude::*;
use vstd::string::StrSliceExecFns;

verus! {

/// Whether `c` is white space, as `char::is_whitespace` tells it.
pub uninterp spec fn is_space(c: char) -> bool;

/// `char::is_whitespace`. Trusted to be a function of the character alone.
#[verifier::external_body]
pub(crate) fn is_whitespace(c: char) -> (space: bool)
    ensures
        space == is_space(c),
{
    c.is_whitespace()
}

/// The views of the texts of a list.
pub open spec fn views(texts: Seq<Vec<char>>) -> Seq<Seq<char>> {
    Seq::new(texts.len(), |i: int| texts[i]@)
}

/// The index of the first line feed at or behind `from`, or the length of
/// the text if there is none.
pub open spec fn line_end(text: Seq<char>, from: int) -> int
    decreases text.len() - from,
{
    if from < 0 || from >= text.len() {
        text.len() as int
    } else if text[from] == '\n' {
        from
    } else {
        line_end(text, from + 1)
    }
}

/// The lines of the text from index `from` on.
pub open spec fn lines_from(text: Seq<char>, from: int) -> Seq<Seq<char>>
    decreases text.len() - from,
{
    if from < 0 || from >= text.len() {
        Seq::empty()
    } else {
        let end = line_end(text, from);
        proof {
            lemma_line_end(text, from);
        }
        if end >= text.len() {
            seq![text.subrange(from, end)]
        } else {
            seq![text.subrange(from, end)] + lines_from(text, end + 1)
        }
    }
}

/// The lines of a text: the pieces between its line feeds. Nothing follows
/// the last line feed if the text ends with it, and the empty text has no
/// line.
pub open spec fn lines(text: Seq<char>) -> Seq<Seq<char>> {
    lines_from(text, 0)
}

/// The end of a line lies at or behind its start, within the text, on a
/// line feed or at the end of the text, and no line feed lies before it.
pub proof fn lemma_line_end(text: Seq<char>, from: int)
    requires
        0 <= from <= text.len(),
    ensures
        from <= line_end(text, from) <= text.len(),
        line_end(text, from) < text.len() ==> text[line_end(text, from)] == '\n',
        forall|i: int| from <= i < line_end(text, from) ==> text[i] != '\n',
    decreases text.len() - from,
{
    if from < text.len() && text[from] != '\n' {
        lemma_line_end(text, from + 1);
    }
}

/// The index of the first character at or behind `from` that is, or is
/// not, white space, as `space` says; the length of the line if there is
/// none.
pub open spec fn next_of(line: Seq<char>, from: int, space: bool) -> int
    decreases line.len() - from,
{
    if from < 0 || from >= line.len() {
        line.len() as int
    } else if is_space(line[from]) == space {
        from
    } else {
        next_of(line, from + 1, space)
    }
}

/// What `next_of` finds lies at or behind `from`, within the line, and no
/// character of the kind lies before it.
pub proof fn lemma_next_of(line: Seq<char>, from: int, space: bool)
    requires
        0 <= from <= line.len(),
    ensures
        from <= next_of(line, from, space) <= line.len(),
        next_of(line, from, space) < line.len() ==> is_space(line[next_of(line, from, space)])
            == space,
        forall|i: int| from <= i < next_of(line, from, space) ==> is_space(line[i]) != space,
    decreases line.len() - from,
{
    if from < line.len() && is_space(line[from]) != space {
        lemma_next_of(line, from + 1, space);
    }
}

/// The words of the line from index `from` on.
pub open spec fn words_from(line: Seq<char>, from: int) -> Seq<Seq<char>>
    decreases line.len() - from,
{
    if from < 0 || from >= line.len() {
        Seq::empty()
    } else {
        let start = next_of(line, from, false);
        proof {
            lemma_next_of(line, from, false);
        }
        if start >= line.len() {
            Seq::empty()
        } else {
            let end = next_of(line, start, true);
            proof {
                lemma_next_of(line, start, true);
            }
            seq![line.subrange(start, end)] + words_from(line, end)
        }
    }
}

/// The words of a line: its longest pieces without white space.
pub open spec fn words(line: Seq<char>) -> Seq<Seq<char>> {
    words_from(line, 0)
}

/// The value of a decimal digit, if `c` is one.
pub open spec fn digit_value(c: char) -> Option<nat> {
    if c == '0' {
        Some(0)
    } else if c == '1' {
        Some(1)
    } else if c == '2' {
        Some(2)
    } else if c == '3' {
        Some(3)
    } else if c == '4' {
        Some(4)
    } else if c == '5' {
        Some(5)
    } else if c == '6' {
        Some(6)
    } else if c == '7' {
        Some(7)
    } else if c == '8' {
        Some(8)
    } else if c == '9' {
        Some(9)
    } else {
        None
    }
}

/// The number that one or more decimal digits spell; `None` for anything
/// else.
pub open spec fn magnitude(digits: Seq<char>) -> Option<nat>
    decreases digits.len(),
{
    if digits.len() == 0 {
        None
    } else {
        match digit_value(digits.last()) {
            None => None,
            Some(d) => if digits.len() == 1 {
                Some(d)
            } else {
                match magnitude(digits.drop_last()) {
                    None => None,
                    Some(m) => Some(m * 10 + d),
                }
            },
        }
    }
}

/// The number that a word spells: decimal digits, with a plus or a minus
/// sign in front if one likes; `None` for anything else.
pub open spec fn number(word: Seq<char>) -> Option<int> {
    if word.len() > 0 && word[0] == '-' {
        match magnitude(word.skip(1)) {
            None => None,
            Some(m) => Some(-(m as int)),
        }
    } else if word.len() > 0 && word[0] == '+' {
        match magnitude(word.skip(1)) {
            None => None,
            Some(m) => Some(m as int),
        }
    } else {
        match magnitude(word) {
            None => None,
            Some(m) => Some(m as int),
        }
    }
}

/// The number that a word spells, if it lies between `lo` and `hi`.
pub open spec fn number_within(word: Seq<char>, lo: int, hi: int) -> Option<int> {
    match number(word) {
        None => None,
        Some(n) => if lo <= n <= hi {
            Some(n)
        } else {
            None
        },
    }
}

/// More digits never spell a smaller number: what a text spells is at
/// least what its first `k` characters spell, and it spells a number only
/// if they do.
pub proof fn lemma_magnitude_grows(digits: Seq<char>, k: int)
    requires
        1 <= k <= digits.len(),
    ensures
        magnitude(digits) matches Some(m) ==> magnitude(digits.take(k)) matches Some(part) && part
            <= m,
    decreases digits.len(),
{
    if k < digits.len() {
        assert(digits.drop_last().take(k) =~= digits.take(k));
        lemma_magnitude_grows(digits.drop_last(), k);
    } else {
        assert(digits.take(k) =~= digits);
    }
}

/// The characters of a text.
pub fn chars_of(text: &str) -> (chars: Vec<char>)
    ensures
        chars@ == text@,
{
    let mut chars: Vec<char> = Vec::new();
    for c in it: text.chars()
        invariant
            chars@ == it.seq().take(it.index() as int),
            it.seq() == text@,
    {
        chars.push(c);
    }
    chars
}

/// The piece of a text from `from` up to `to`.
pub fn piece(text: &Vec<char>, from: usize, to: usize) -> (part: Vec<char>)
    requires
        from <= to <= text@.len(),
    ensures
        part@ == text@.subrange(from as int, to as int),
{
    let mut part: Vec<char> = Vec::new();
    let mut i: usize = from;
    while i < to
        invariant
            from <= i <= to <= text@.len(),
            part@ == text@.subrange(from as int, i as int),
        decreases to - i,
    {
        part.push(text[i]);
        assert(part@ =~= text@.subrange(from as int, i as int + 1));
        i += 1;
    }
    part
}

/// Splits a text into its lines.
pub fn split_lines(text: &Vec<char>) -> (list: Vec<Vec<char>>)
    ensures
        views(list@) == lines(text@),
{
    let mut list: Vec<Vec<char>> = Vec::new();
    let mut from: usize = 0;
    assert(views(list@) + lines_from(text@, 0) =~= lines(text@));
    while from < text.len()
        invariant
            from <= text@.len(),
            views(list@) + lines_from(text@, from as int) == lines(text@),
        decreases text@.len() - from,
    {
        let mut end: usize = from;
        while end < text.len() && text[end] != '\n'
            invariant
                from <= end <= text@.len(),
                line_end(text@, end as int) == line_end(text@, from as int),
            decreases text@.len() - end,
        {
            end += 1;
        }
        let ghost before = views(list@);
        let line = piece(text, from, end);
        list.push(line);
        proof {
            lemma_line_end(text@, from as int);
            assert(views(list@) =~= before.push(text@.subrange(from as int, end as int)));
        }
        if end == text.len() {
            assert(views(list@) + lines_from(text@, end as int) =~= before + lines_from(
                text@,
                from as int,
            ));
            from = end;
        } else {
            assert(views(list@) + lines_from(text@, end as int + 1) =~= before + lines_from(
                text@,
                from as int,
            ));
            from = end + 1;
        }
    }
    assert(views(list@) + lines_from(text@, from as int) =~= views(list@));
    list
}

/// Splits a line into its words.
pub fn split_words(line: &Vec<char>) -> (list: Vec<Vec<char>>)
    ensures
        views(list@) == words(line@),
{
    let mut list: Vec<Vec<char>> = Vec::new();
    let mut from: usize = 0;
    assert(views(list@) + words_from(line@, 0) =~= words(line@));
    while from < line.len()
        invariant
            from <= line@.len(),
            views(list@) + words_from(line@, from as int) == words(line@),
        decreases line@.len() - from,
    {
        let mut start: usize = from;
        while start < line.len() && is_whitespace(line[start])
            invariant
                from <= start <= line@.len(),
                next_of(line@, start as int, false) == next_of(line@, from as int, false),
            decreases line@.len() - start,
        {
            start += 1;
        }
        if start == line.len() {
            assert(words_from(line@, from as int) =~= words_from(line@, start as int));
            from = start;
        } else {
            let mut end: usize = start + 1;
            while end < line.len() && !is_whitespace(line[end])
                invariant
                    start < end <= line@.len(),
                    next_of(line@, end as int, true) == next_of(line@, start as int, true),
                decreases line@.len() - end,
            {
                end += 1;
            }
            let ghost before = views(list@);
            let word = piece(line, start, end);
            list.push(word);
            proof {
                assert(views(list@) =~= before.push(line@.subrange(start as int, end as int)));
                assert(views(list@) + words_from(line@, end as int) =~= before + words_from(
                    line@,
                    from as int,
                ));
            }
            from = end;
        }
    }
    assert(views(list@) + words_from(line@, from as int) =~= views(list@));
    list
}

/// Whether a word is the given word.
pub fn is_word(word: &Vec<char>, other: &str) -> (same: bool)
    ensures
        same == (word@ == other@),
{
    let n = other.unicode_len();
    if word.len() != n {
        return false;
    }
    let mut i: usize = 0;
    while i < n
        invariant
            i <= n,
            n == other@.len(),
            n == word@.len(),
            word@.take(i as int) == other@.take(i as int),
        decreases n - i,
    {
        if word[i] != other.get_char(i) {
            return false;
        }
        assert(word@.take(i as int + 1) =~= word@.take(i as int).push(word@[i as int]));
        assert(other@.take(i as int + 1) =~= other@.take(i as int).push(other@[i as int]));
        i += 1;
    }
    assert(word@.take(n as int) =~= word@);
    assert(other@.take(n as int) =~= other@);
    true
}

/// The value of a decimal digit, if `c` is one.
fn value_of_digit(c: char) -> (value: Option<i64>)
    ensures
        match value {
            None => digit_value(c).is_none(),
            Some(d) => digit_value(c) == Some(d as nat) && 0 <= d <= 9,
        },
{
    if c == '0' {
        Some(0)
    } else if c == '1' {
        Some(1)
    } else if c == '2' {
        Some(2)
    } else if c == '3' {
        Some(3)
    } else if c == '4' {
        Some(4)
    } else if c == '5' {
        Some(5)
    } else if c == '6' {
        Some(6)
    } else if c == '7' {
        Some(7)
    } else if c == '8' {
        Some(8)
    } else if c == '9' {
        Some(9)
    } else {
        None
    }
}

/// The number that a word spells, if it spells one between `lo` and `hi`.
#[verifier::loop_isolation(false)]
pub fn parse_number(word: &Vec<char>, lo: i32, hi: i32) -> (value: Option<i32>)
    ensures
        match value {
            None => number_within(word@, lo as int, hi as int).is_none(),
            Some(n) => number_within(word@, lo as int, hi as int) == Some(n as int),
        },
{
    if word.len() == 0 {
        return None;
    }
    let negative = word[0] == '-';
    let signed = negative || word[0] == '+';
    let first: usize = if signed {
        1
    } else {
        0
    };
    let ghost digits = if signed {
        word@.skip(1)
    } else {
        word@
    };
    assert(word@.skip(0) =~= word@);
    if first == word.len() {
        return None;
    }
    let mut total: i64 = 0;
    let mut i: usize = first;
    while i < word.len()
        invariant
            first <= i <= word@.len(),
            first < word@.len(),
            digits == word@.skip(first as int),
            0 <= total <= 0x8000_0000,
            i > first ==> magnitude(digits.take(i - first)) == Some(total as nat),
            i == first ==> total == 0,
        decreases word@.len() - i,
    {
        let ghost k = i - first;
        proof {
            assert(digits.take(k + 1).drop_last() =~= digits.take(k));
            assert(digits.take(k + 1).last() == word@[i as int]);
        }
        match value_of_digit(word[i]) {
            None => {
                proof {
                    lemma_magnitude_grows(digits, k + 1);
                }
                return None;
            },
            Some(d) => {
                total = total * 10 + d;
            },
        }
        if total > 0x8000_0000 {
            proof {
                lemma_magnitude_grows(digits, k + 1);
            }
            return None;
        }
        i += 1;
    }
    assert(digits.take(i - first) =~= digits);
    let n: i64 = if negative {
        -total
    } else {
        total
    };
    if lo as i64 <= n && n <= hi as i64 {
        Some(n as i32)
    } else {
        None
    }
}

} // verus!
