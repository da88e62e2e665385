//! The search in words: the listings of the foldings that are left and the
//! table of the log.
use crate::path::Path;
use crate::snake::brick::{Brick, Orientation};
use crate::snake::chain::Form;
use crate::tree::{lemma_lineage, share, TreeIterator};
use vstd::prelude::*;
use vstd::string::StringExecFns;

verus! {

/// The character of a digit below ten.
pub open spec fn digit(d: nat) -> char {
    if d == 0 {
        '0'
    } else if d == 1 {
        '1'
    } else if d == 2 {
        '2'
    } else if d == 3 {
        '3'
    } else if d == 4 {
        '4'
    } else if d == 5 {
        '5'
    } else if d == 6 {
        '6'
    } else if d == 7 {
        '7'
    } else if d == 8 {
        '8'
    } else {
        '9'
    }
}

/// A number in decimal digits, without leading zeros.
pub open spec fn decimal(n: nat) -> Seq<char>
    decreases n,
{
    if n < 10 {
        seq![digit(n)]
    } else {
        decimal(n / 10).push(digit(n % 10))
    }
}

/// A number in decimal digits, with a minus sign in front if it is negative.
pub open spec fn signed_decimal(n: int) -> Seq<char> {
    if n < 0 {
        seq!['-'] + decimal((-n) as nat)
    } else {
        decimal(n as nat)
    }
}

/// The letter of a form.
pub open spec fn form_letter(form: Form) -> Seq<char> {
    match form {
        Form::Straight => "S"@,
        Form::Turn => "T"@,
    }
}

/// The letter of a direction.
pub open spec fn orientation_letter(orientation: Orientation) -> Seq<char> {
    match orientation {
        Orientation::North => "N"@,
        Orientation::South => "S"@,
        Orientation::East => "E"@,
        Orientation::West => "W"@,
        Orientation::Up => "U"@,
        Orientation::Down => "D"@,
    }
}

/// The line of a brick in the long listing: its coordinates in brackets,
/// the letter of its form and the letter of its direction.
pub open spec fn brick_line(brick: Brick) -> Seq<char> {
    "["@ + signed_decimal(brick.coordinates.x as int) + ", "@ + signed_decimal(
        brick.coordinates.y as int,
    ) + ", "@ + signed_decimal(brick.coordinates.z as int) + "]  "@ + form_letter(brick.form)
        + "  "@ + orientation_letter(brick.orientation) + "\n"@
}

/// The lines of the bricks of a lineage, the leaf first.
pub open spec fn lineage_lines(lineage: Seq<Brick>) -> Seq<char>
    decreases lineage.len(),
{
    if lineage.len() == 0 {
        Seq::empty()
    } else {
        lineage_lines(lineage.drop_last()) + brick_line(lineage.last())
    }
}

/// The lines of all lineages of a frontier, a divider behind each lineage.
pub open spec fn long_listing(frontier: Seq<Seq<Brick>>) -> Seq<char>
    decreases frontier.len(),
{
    if frontier.len() == 0 {
        Seq::empty()
    } else {
        long_listing(frontier.drop_last()) + lineage_lines(frontier.last())
            + "------------------\n"@
    }
}

/// The long report: a heading and the long listing.
pub open spec fn long_report(frontier: Seq<Seq<Brick>>) -> Seq<char> {
    "coords   form orientation\n"@ + long_listing(frontier)
}

/// Whether the brick at `index` of a lineage, counted from the leaf, points
/// another way than the brick listed before it. The leaf itself does.
pub open spec fn switches_at(lineage: Seq<Brick>, index: int) -> bool {
    index == 0 || lineage[index - 1].orientation != lineage[index].orientation
}

/// One line with the letter of its direction for each brick of the lineage
/// at which the direction switches, the leaf first.
pub open spec fn switch_lines(lineage: Seq<Brick>) -> Seq<char>
    decreases lineage.len(),
{
    if lineage.len() == 0 {
        Seq::empty()
    } else {
        let before = switch_lines(lineage.drop_last());
        if switches_at(lineage, lineage.len() - 1) {
            before + orientation_letter(lineage.last().orientation) + "\n"@
        } else {
            before
        }
    }
}

/// The switch lines of all lineages of a frontier.
pub open spec fn short_listing(frontier: Seq<Seq<Brick>>) -> Seq<char>
    decreases frontier.len(),
{
    if frontier.len() == 0 {
        Seq::empty()
    } else {
        short_listing(frontier.drop_last()) + switch_lines(frontier.last())
    }
}

/// The short report: a heading and the short listing.
pub open spec fn short_report(frontier: Seq<Seq<Brick>>) -> Seq<char> {
    "orientation_switches\n"@ + short_listing(frontier)
}

/// The row of a log entry: the number of the step, counted from 1, a tab,
/// and the number of lineages.
pub open spec fn statistics_row(entry: (usize, usize)) -> Seq<char> {
    decimal((entry.0 + 1) as nat) + "\t"@ + decimal(entry.1 as nat) + "\n"@
}

/// The rows of a log.
pub open spec fn statistics_rows(statistics: Seq<(usize, usize)>) -> Seq<char>
    decreases statistics.len(),
{
    if statistics.len() == 0 {
        Seq::empty()
    } else {
        statistics_rows(statistics.drop_last()) + statistics_row(statistics.last())
    }
}

/// The table of a log: two lines of heading and the rows.
pub open spec fn statistics_report(statistics: Seq<(usize, usize)>) -> Seq<char> {
    "statistics\n"@ + "step number_paths\n"@ + statistics_rows(statistics)
}

/// `String::push`: appends one character. Trusted to leave the text as it
/// was, with `c` behind it.
#[verifier::external_body]
pub(crate) fn push_char(text: &mut String, c: char)
    ensures
        final(text)@ == old(text)@.push(c),
{
    text.push(c);
}

/// The character of a digit below ten.
fn digit_of(d: u8) -> (c: char)
    requires
        d < 10,
    ensures
        c == digit(d as nat),
{
    if d == 0 {
        '0'
    } else if d == 1 {
        '1'
    } else if d == 2 {
        '2'
    } else if d == 3 {
        '3'
    } else if d == 4 {
        '4'
    } else if d == 5 {
        '5'
    } else if d == 6 {
        '6'
    } else if d == 7 {
        '7'
    } else if d == 8 {
        '8'
    } else {
        '9'
    }
}

/// Appends `n` in decimal digits.
pub fn write_decimal(text: &mut String, n: u128)
    ensures
        final(text)@ == old(text)@ + decimal(n as nat),
    decreases n,
{
    if n >= 10 {
        write_decimal(text, n / 10);
    }
    let d: u8 = (n % 10) as u8;
    push_char(text, digit_of(d));
    assert(text@ =~= old(text)@ + decimal(n as nat));
}

/// Appends `n` in decimal digits, with a minus sign if it is negative.
pub fn write_signed(text: &mut String, n: i8)
    ensures
        final(text)@ == old(text)@ + signed_decimal(n as int),
{
    if n < 0 {
        push_char(text, '-');
        let magnitude: i16 = -(n as i16);
        write_decimal(text, magnitude as u128);
    } else {
        write_decimal(text, n as u128);
    }
    assert(text@ =~= old(text)@ + signed_decimal(n as int));
}

/// Appends the letter of a form.
fn write_form(text: &mut String, form: Form)
    ensures
        final(text)@ == old(text)@ + form_letter(form),
{
    text.append(
        match form {
            Form::Straight => "S",
            Form::Turn => "T",
        },
    );
}

/// Appends the letter of a direction.
fn write_orientation(text: &mut String, orientation: Orientation)
    ensures
        final(text)@ == old(text)@ + orientation_letter(orientation),
{
    text.append(
        match orientation {
            Orientation::North => "N",
            Orientation::South => "S",
            Orientation::East => "E",
            Orientation::West => "W",
            Orientation::Up => "U",
            Orientation::Down => "D",
        },
    );
}

/// Appends the line of a brick.
fn write_brick(text: &mut String, brick: &Brick)
    ensures
        final(text)@ == old(text)@ + brick_line(*brick),
{
    text.append("[");
    write_signed(text, brick.coordinates.x);
    text.append(", ");
    write_signed(text, brick.coordinates.y);
    text.append(", ");
    write_signed(text, brick.coordinates.z);
    text.append("]  ");
    write_form(text, brick.form);
    text.append("  ");
    write_orientation(text, brick.orientation);
    text.append("\n");
    assert(text@ =~= old(text)@ + brick_line(*brick));
}

impl Path {
    /// Lists every lineage of the frontier with one line for each brick,
    /// the leaf first, and a divider behind each lineage.
    pub fn solution_string_long(&self) -> (output: String)
        ensures
            output@ == long_report(self.frontier()),
    {
        let ghost frontier = self.frontier();
        let mut output = String::from_str("coords   form orientation\n");
        let mut i: usize = 0;
        assert(output@ =~= "coords   form orientation\n"@ + long_listing(frontier.take(0)));
        while i < self.last_layer.len()
            invariant
                i <= self.last_layer.len(),
                frontier == self.frontier(),
                output@ == "coords   form orientation\n"@ + long_listing(frontier.take(i as int)),
            decreases self.last_layer.len() - i,
        {
            let ghost lineage = frontier[i as int];
            let ghost sofar = output@;
            let mut iter = TreeIterator::new(share(&self.last_layer[i]));
            let ghost mut k: int = 0;
            assert(output@ =~= sofar + lineage_lines(lineage.take(0)));
            loop
                invariant
                    0 <= k <= lineage.len(),
                    iter@ == lineage.skip(k),
                    output@ == sofar + lineage_lines(lineage.take(k)),
                ensures
                    output@ == sofar + lineage_lines(lineage),
                decreases lineage.len() - k,
            {
                match iter.next() {
                    None => {
                        assert(lineage.take(k) =~= lineage);
                        break ;
                    },
                    Some(rr) => {
                        proof {
                            lemma_lineage(&*rr);
                            assert(rr@[0] == lineage[k]);
                            assert(lineage.skip(k).skip(1) =~= lineage.skip(k + 1));
                            assert(lineage.take(k + 1).drop_last() =~= lineage.take(k));
                        }
                        write_brick(&mut output, &rr.value);
                        assert(output@ =~= sofar + lineage_lines(lineage.take(k + 1)));
                        proof {
                            k = k + 1;
                        }
                    },
                }
            }
            output.append("------------------\n");
            proof {
                assert(frontier.take(i as int + 1).drop_last() =~= frontier.take(i as int));
                assert(output@ =~= "coords   form orientation\n"@ + long_listing(
                    frontier.take(i as int + 1),
                ));
            }
            i += 1;
        }
        assert(frontier.take(i as int) =~= frontier);
        output
    }

    /// Lists, for every lineage of the frontier, the directions along it
    /// where they switch, the leaf first.
    pub fn solution_string_short(&self) -> (output: String)
        ensures
            output@ == short_report(self.frontier()),
    {
        let ghost frontier = self.frontier();
        let mut output = String::from_str("orientation_switches\n");
        let mut i: usize = 0;
        assert(output@ =~= "orientation_switches\n"@ + short_listing(frontier.take(0)));
        while i < self.last_layer.len()
            invariant
                i <= self.last_layer.len(),
                frontier == self.frontier(),
                output@ == "orientation_switches\n"@ + short_listing(frontier.take(i as int)),
            decreases self.last_layer.len() - i,
        {
            let ghost lineage = frontier[i as int];
            let ghost sofar = output@;
            let mut last_orientation: Option<Orientation> = None;
            let mut iter = TreeIterator::new(share(&self.last_layer[i]));
            let ghost mut k: int = 0;
            assert(output@ =~= sofar + switch_lines(lineage.take(0)));
            loop
                invariant
                    0 <= k <= lineage.len(),
                    iter@ == lineage.skip(k),
                    last_orientation == if k == 0 {
                        None
                    } else {
                        Some(lineage[k - 1].orientation)
                    },
                    output@ == sofar + switch_lines(lineage.take(k)),
                ensures
                    output@ == sofar + switch_lines(lineage),
                decreases lineage.len() - k,
            {
                match iter.next() {
                    None => {
                        assert(lineage.take(k) =~= lineage);
                        break ;
                    },
                    Some(rr) => {
                        proof {
                            lemma_lineage(&*rr);
                            assert(rr@[0] == lineage[k]);
                            assert(lineage.skip(k).skip(1) =~= lineage.skip(k + 1));
                            assert(lineage.take(k + 1).drop_last() =~= lineage.take(k));
                            assert(switches_at(lineage.take(k + 1), k) == switches_at(lineage, k));
                        }
                        let switched = match last_orientation {
                            None => true,
                            Some(last) => last != rr.value.orientation,
                        };
                        if switched {
                            write_orientation(&mut output, rr.value.orientation);
                            output.append("\n");
                        }
                        last_orientation = Some(rr.value.orientation);
                        assert(output@ =~= sofar + switch_lines(lineage.take(k + 1)));
                        proof {
                            k = k + 1;
                        }
                    },
                }
            }
            proof {
                assert(frontier.take(i as int + 1).drop_last() =~= frontier.take(i as int));
                assert(output@ =~= "orientation_switches\n"@ + short_listing(
                    frontier.take(i as int + 1),
                ));
            }
            i += 1;
        }
        assert(frontier.take(i as int) =~= frontier);
        output
    }

    /// The log as a table: one row for each layer, with the number of the
    /// step, counted from 1, and the number of lineages it left.
    pub fn solution_string_statistics(&self) -> (output: String)
        ensures
            output@ == statistics_report(self.statistics@),
    {
        let mut output = String::from_str("statistics\n");
        output.append("step number_paths\n");
        let mut i: usize = 0;
        assert(output@ =~= "statistics\n"@ + "step number_paths\n"@ + statistics_rows(
            self.statistics@.take(0),
        ));
        while i < self.statistics.len()
            invariant
                i <= self.statistics.len(),
                output@ == "statistics\n"@ + "step number_paths\n"@ + statistics_rows(
                    self.statistics@.take(i as int),
                ),
            decreases self.statistics.len() - i,
        {
            let tt = self.statistics[i];
            let ghost sofar = output@;
            write_decimal(&mut output, tt.0 as u128 + 1);
            output.append("\t");
            write_decimal(&mut output, tt.1 as u128);
            output.append("\n");
            proof {
                assert(output@ =~= sofar + statistics_row(tt));
                assert(self.statistics@.take(i as int + 1).drop_last() =~= self.statistics@.take(
                    i as int,
                ));
                assert(output@ =~= "statistics\n"@ + "step number_paths\n"@ + statistics_rows(
                    self.statistics@.take(i as int + 1),
                ));
            }
            i += 1;
        }
        assert(self.statistics@.take(i as int) =~= self.statistics@);
        output
    }
}

} // verus!
