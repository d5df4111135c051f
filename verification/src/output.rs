//! The game in large letters for the console.

use crate::game::calculation::Calculation;
use vstd::prelude::*;
use vstd::string::*;

verus! {

/// The renderer of numbers and dice.
pub struct Output {

}

/// The space at the left of every line.
pub open spec fn indent() -> Seq<char> {
    "     "@
}

/// What ends a line.
pub open spec fn line_end() -> Seq<char> {
    "\n"@
}

/// Row `row` of the large form of the decimal digit `digit`.
pub open spec fn glyph(digit: u8, row: int) -> Seq<char> {
    if digit == 0 {
        if row == 0 {
            "  ___   "@
        } else if row == 1 {
            " / _ \\  "@
        } else if row == 2 {
            "| | | | "@
        } else if row == 3 {
            "| | | | "@
        } else if row == 4 {
            "| |_| | "@
        } else {
            " \\___/  "@
        }
    } else if digit == 1 {
        if row == 0 {
            " __  "@
        } else if row == 1 {
            "/_ | "@
        } else if row == 2 {
            " | | "@
        } else if row == 3 {
            " | | "@
        } else if row == 4 {
            " | | "@
        } else {
            " |_| "@
        }
    } else if digit == 2 {
        if row == 0 {
            " ___   "@
        } else if row == 1 {
            "|__ \\  "@
        } else if row == 2 {
            "   ) | "@
        } else if row == 3 {
            "  / /  "@
        } else if row == 4 {
            " / /_  "@
        } else {
            "|____| "@
        }
    } else if digit == 3 {
        if row == 0 {
            " ____   "@
        } else if row == 1 {
            "|___ \\  "@
        } else if row == 2 {
            "  __) | "@
        } else if row == 3 {
            " |__ <  "@
        } else if row == 4 {
            " ___) | "@
        } else {
            "|____/  "@
        }
    } else if digit == 4 {
        if row == 0 {
            " _  _    "@
        } else if row == 1 {
            "| || |   "@
        } else if row == 2 {
            "| || |_  "@
        } else if row == 3 {
            "|__   _| "@
        } else if row == 4 {
            "   | |   "@
        } else {
            "   |_|   "@
        }
    } else if digit == 5 {
        if row == 0 {
            " _____  "@
        } else if row == 1 {
            "| ____| "@
        } else if row == 2 {
            "| |__   "@
        } else if row == 3 {
            "|___ \\  "@
        } else if row == 4 {
            " ___) | "@
        } else {
            "|____/  "@
        }
    } else if digit == 6 {
        if row == 0 {
            "   __   "@
        } else if row == 1 {
            "  / /   "@
        } else if row == 2 {
            " / /_   "@
        } else if row == 3 {
            "| '_ \\  "@
        } else if row == 4 {
            "| (_) | "@
        } else {
            " \\___/  "@
        }
    } else if digit == 7 {
        if row == 0 {
            " ______  "@
        } else if row == 1 {
            "|____  | "@
        } else if row == 2 {
            "    / /  "@
        } else if row == 3 {
            "   / /   "@
        } else if row == 4 {
            "  / /    "@
        } else {
            " /_/     "@
        }
    } else if digit == 8 {
        if row == 0 {
            "  ___   "@
        } else if row == 1 {
            " / _ \\  "@
        } else if row == 2 {
            "| (_) | "@
        } else if row == 3 {
            " > _ <  "@
        } else if row == 4 {
            "| (_) | "@
        } else {
            " \\___/  "@
        }
    } else {
        if row == 0 {
            "  ___   "@
        } else if row == 1 {
            " / _ \\  "@
        } else if row == 2 {
            "| (_) | "@
        } else if row == 3 {
            " \\__, | "@
        } else if row == 4 {
            "   / /  "@
        } else {
            "  /_/   "@
        }
    }
}

/// Row `row` of the heading of the target number.
pub open spec fn number_heading(row: int) -> Seq<char> {
    if row == 0 {
        "                ______     _     _         "@
    } else if row == 1 {
        "               |___  /    | |   | |  _     "@
    } else if row == 2 {
        "                  / / __ _| |__ | | (_)    "@
    } else if row == 3 {
        "                 / / / _` | '_ \\| |        "@
    } else if row == 4 {
        "                / /_| (_| | | | | |  _     "@
    } else {
        "               /_____\\__,_|_| |_|_| (_)    "@
    }
}

/// Row `row` of the heading of the dice.
pub open spec fn dice_heading(row: int) -> Seq<char> {
    if row == 0 {
        "__          ___   _       __     _         "@
    } else if row == 1 {
        "\\ \\        / (_) (_)     / _|   | |  _     "@
    } else if row == 2 {
        " \\ \\  /\\  / / _   _ _ __| |_ ___| | (_)    "@
    } else if row == 3 {
        "  \\ \\/  \\/ / | | | | '__|  _/ _ \\ |        "@
    } else if row == 4 {
        "   \\  /\\  /  | |_| | |  | ||  __/ |  _     "@
    } else {
        "    \\/  \\/    \\__,_|_|  |_| \\___|_| (_)    "@
    }
}

/// Computes [`glyph`].
fn glyph_row(digit: u8, row: usize) -> (text: &'static str)
    requires
        digit < 10,
        row < 6,
    ensures
        text@ == glyph(digit, row as int),
{
    if digit == 0 {
        if row == 0 {
            "  ___   "
        } else if row == 1 {
            " / _ \\  "
        } else if row == 2 {
            "| | | | "
        } else if row == 3 {
            "| | | | "
        } else if row == 4 {
            "| |_| | "
        } else {
            " \\___/  "
        }
    } else if digit == 1 {
        if row == 0 {
            " __  "
        } else if row == 1 {
            "/_ | "
        } else if row == 2 {
            " | | "
        } else if row == 3 {
            " | | "
        } else if row == 4 {
            " | | "
        } else {
            " |_| "
        }
    } else if digit == 2 {
        if row == 0 {
            " ___   "
        } else if row == 1 {
            "|__ \\  "
        } else if row == 2 {
            "   ) | "
        } else if row == 3 {
            "  / /  "
        } else if row == 4 {
            " / /_  "
        } else {
            "|____| "
        }
    } else if digit == 3 {
        if row == 0 {
            " ____   "
        } else if row == 1 {
            "|___ \\  "
        } else if row == 2 {
            "  __) | "
        } else if row == 3 {
            " |__ <  "
        } else if row == 4 {
            " ___) | "
        } else {
            "|____/  "
        }
    } else if digit == 4 {
        if row == 0 {
            " _  _    "
        } else if row == 1 {
            "| || |   "
        } else if row == 2 {
            "| || |_  "
        } else if row == 3 {
            "|__   _| "
        } else if row == 4 {
            "   | |   "
        } else {
            "   |_|   "
        }
    } else if digit == 5 {
        if row == 0 {
            " _____  "
        } else if row == 1 {
            "| ____| "
        } else if row == 2 {
            "| |__   "
        } else if row == 3 {
            "|___ \\  "
        } else if row == 4 {
            " ___) | "
        } else {
            "|____/  "
        }
    } else if digit == 6 {
        if row == 0 {
            "   __   "
        } else if row == 1 {
            "  / /   "
        } else if row == 2 {
            " / /_   "
        } else if row == 3 {
            "| '_ \\  "
        } else if row == 4 {
            "| (_) | "
        } else {
            " \\___/  "
        }
    } else if digit == 7 {
        if row == 0 {
            " ______  "
        } else if row == 1 {
            "|____  | "
        } else if row == 2 {
            "    / /  "
        } else if row == 3 {
            "   / /   "
        } else if row == 4 {
            "  / /    "
        } else {
            " /_/     "
        }
    } else if digit == 8 {
        if row == 0 {
            "  ___   "
        } else if row == 1 {
            " / _ \\  "
        } else if row == 2 {
            "| (_) | "
        } else if row == 3 {
            " > _ <  "
        } else if row == 4 {
            "| (_) | "
        } else {
            " \\___/  "
        }
    } else {
        if row == 0 {
            "  ___   "
        } else if row == 1 {
            " / _ \\  "
        } else if row == 2 {
            "| (_) | "
        } else if row == 3 {
            " \\__, | "
        } else if row == 4 {
            "   / /  "
        } else {
            "  /_/   "
        }
    }
}

/// Computes [`number_heading`].
fn number_heading_row(row: usize) -> (text: &'static str)
    requires
        row < 6,
    ensures
        text@ == number_heading(row as int),
{
    if row == 0 {
        "                ______     _     _         "
    } else if row == 1 {
        "               |___  /    | |   | |  _     "
    } else if row == 2 {
        "                  / / __ _| |__ | | (_)    "
    } else if row == 3 {
        "                 / / / _` | '_ \\| |        "
    } else if row == 4 {
        "                / /_| (_| | | | | |  _     "
    } else {
        "               /_____\\__,_|_| |_|_| (_)    "
    }
}

/// Computes [`dice_heading`].
fn dice_heading_row(row: usize) -> (text: &'static str)
    requires
        row < 6,
    ensures
        text@ == dice_heading(row as int),
{
    if row == 0 {
        "__          ___   _       __     _         "
    } else if row == 1 {
        "\\ \\        / (_) (_)     / _|   | |  _     "
    } else if row == 2 {
        " \\ \\  /\\  / / _   _ _ __| |_ ___| | (_)    "
    } else if row == 3 {
        "  \\ \\/  \\/ / | | | | '__|  _/ _ \\ |        "
    } else if row == 4 {
        "   \\  /\\  /  | |_| | |  | ||  __/ |  _     "
    } else {
        "    \\/  \\/    \\__,_|_|  |_| \\___|_| (_)    "
    }
}

/// The decimal digits of `num`, the leading digit first.
pub open spec fn decimal_digits(num: nat) -> Seq<u8>
    decreases num,
{
    if num < 10 {
        seq![num as u8]
    } else {
        decimal_digits(num / 10).push((num % 10) as u8)
    }
}

/// Row `row` of the digits in large form, one after the other.
pub open spec fn digits_row(digits: Seq<u8>, row: int) -> Seq<char>
    decreases digits.len(),
{
    if digits.len() == 0 {
        Seq::<char>::empty()
    } else {
        digits_row(digits.drop_last(), row) + glyph(digits.last(), row)
    }
}

/// Line `row` of a number in large form: the indent, then the digits.
pub open spec fn number_row(num: nat, row: int) -> Seq<char> {
    indent() + digits_row(decimal_digits(num), row)
}

/// Row `row` of the first `count` dice in large form, each with its indent.
pub open spec fn dice_row(dices: Seq<u64>, count: nat, row: int) -> Seq<char>
    decreases count,
{
    if count == 0 {
        Seq::<char>::empty()
    } else {
        dice_row(dices, (count - 1) as nat, row) + number_row(dices[count - 1] as nat, row)
    }
}

/// The six lines `line(0)` to `line(5)` as one text, a line end between
/// each two.
pub open spec fn six_lines(line: spec_fn(int) -> Seq<char>) -> Seq<char> {
    line(0) + line_end() + line(1) + line_end() + line(2) + line_end() + line(3) + line_end()
        + line(4) + line_end() + line(5)
}

/// The first `count` lines as one text, a line end between each two.
pub open spec fn lines_up_to(line: spec_fn(int) -> Seq<char>, count: int) -> Seq<char>
    decreases count,
{
    if count <= 0 {
        Seq::<char>::empty()
    } else if count == 1 {
        line(0)
    } else {
        lines_up_to(line, count - 1) + line_end() + line(count - 1)
    }
}

/// Six lines are the lines up to the sixth.
pub proof fn lemma_six_lines(line: spec_fn(int) -> Seq<char>)
    ensures
        lines_up_to(line, 6) == six_lines(line),
{
    reveal_with_fuel(lines_up_to, 7);
}

/// Computes [`decimal_digits`].
fn digits_of(num: u64) -> (digits: Vec<u8>)
    ensures
        digits@ == decimal_digits(num as nat),
        forall|i: int| 0 <= i < digits@.len() ==> #[trigger] digits@[i] < 10,
    decreases num,
{
    if num < 10 {
        let mut digits: Vec<u8> = Vec::new();
        digits.push(num as u8);
        proof {
            assert(digits@ =~= seq![num as u8]);
        }
        digits
    } else {
        let mut digits = digits_of(num / 10);
        digits.push((num % 10) as u8);
        digits
    }
}

/// Appends row `row` of the digits in large form to `line`.
fn append_digits(line: &mut String, digits: &Vec<u8>, row: usize)
    requires
        row < 6,
        forall|i: int| 0 <= i < digits@.len() ==> #[trigger] digits@[i] < 10,
    ensures
        final(line)@ == old(line)@ + digits_row(digits@, row as int),
{
    let ghost start = line@;
    let mut i: usize = 0;
    while i < digits.len()
        invariant
            i <= digits@.len(),
            row < 6,
            forall|j: int| 0 <= j < digits@.len() ==> #[trigger] digits@[j] < 10,
            line@ == start + digits_row(digits@.take(i as int), row as int),
        decreases digits@.len() - i,
    {
        line.append(glyph_row(digits[i], row));
        proof {
            let taken = digits@.take(i + 1);
            assert(taken.drop_last() =~= digits@.take(i as int));
            assert(taken.last() == digits@[i as int]);
            assert(line@ =~= start + digits_row(taken, row as int));
        }
        i = i + 1;
    }
    proof {
        assert(digits@.take(digits@.len() as int) =~= digits@);
        assert(start + Seq::<char>::empty() =~= start);
    }
}

/// Appends line `row` of `num` in large form to `line`.
fn append_number(line: &mut String, num: u64, row: usize)
    requires
        row < 6,
    ensures
        final(line)@ == old(line)@ + number_row(num as nat, row as int),
{
    let ghost start = line@;
    let digits = digits_of(num);
    line.append("     ");
    append_digits(line, &digits, row);
    proof {
        assert(line@ =~= start + number_row(num as nat, row as int));
    }
}

impl Output {
    /// Line `row` of [`Output::digits_string`].
    pub open spec fn digits_line(num: u64, row: int) -> Seq<char> {
        number_row(num as nat, row)
    }

    /// Line `row` of [`Output::number_string`].
    pub open spec fn number_line(num: u64, row: int) -> Seq<char> {
        indent() + number_heading(row) + number_row(num as nat, row)
    }

    /// Line `row` of [`Output::dices_string`].
    pub open spec fn dices_line(dices: Seq<u64>, row: int) -> Seq<char> {
        indent() + dice_heading(row) + dice_row(dices, dices.len(), row)
    }

    /// The target number under its heading, in six lines of large letters.
    pub fn number_string(num: u64) -> (text: String)
        ensures
            text@ == six_lines(|row: int| Self::number_line(num, row)),
    {
        let ghost line = |row: int| Self::number_line(num, row);
        let mut text = String::new();
        let mut row: usize = 0;
        while row < 6
            invariant
                row <= 6,
                line == |r: int| Self::number_line(num, r),
                text@ == lines_up_to(line, row as int),
            decreases 6 - row,
        {
            let ghost before = text@;
            if row > 0 {
                text.append("\n");
            }
            text.append("     ");
            text.append(number_heading_row(row));
            append_number(&mut text, num, row);
            proof {
                assert(line(row as int) == Self::number_line(num, row as int));
                assert(text@ =~= lines_up_to(line, row + 1));
            }
            row = row + 1;
        }
        proof {
            lemma_six_lines(line);
        }
        text
    }

    /// A number in six lines of large digits.
    pub fn digits_string(num: u64) -> (text: String)
        ensures
            text@ == six_lines(|row: int| Self::digits_line(num, row)),
    {
        let ghost line = |row: int| Self::digits_line(num, row);
        let mut text = String::new();
        let mut row: usize = 0;
        while row < 6
            invariant
                row <= 6,
                line == |r: int| Self::digits_line(num, r),
                text@ == lines_up_to(line, row as int),
            decreases 6 - row,
        {
            if row > 0 {
                text.append("\n");
            }
            append_number(&mut text, num, row);
            proof {
                assert(line(row as int) == Self::digits_line(num, row as int));
                assert(text@ =~= lines_up_to(line, row + 1));
            }
            row = row + 1;
        }
        proof {
            lemma_six_lines(line);
        }
        text
    }

    /// The dice under their heading, in six lines of large letters.
    pub fn dices_string(dices: &[u64]) -> (text: String)
        ensures
            text@ == six_lines(|row: int| Self::dices_line(dices@, row)),
    {
        let ghost line = |row: int| Self::dices_line(dices@, row);
        let mut text = String::new();
        let mut row: usize = 0;
        while row < 6
            invariant
                row <= 6,
                line == |r: int| Self::dices_line(dices@, r),
                text@ == lines_up_to(line, row as int),
            decreases 6 - row,
        {
            if row > 0 {
                text.append("\n");
            }
            text.append("     ");
            text.append(dice_heading_row(row));
            let ghost head = text@;
            let mut i: usize = 0;
            while i < dices.len()
                invariant
                    i <= dices@.len(),
                    row < 6,
                    text@ == head + dice_row(dices@, i as nat, row as int),
                decreases dices@.len() - i,
            {
                append_number(&mut text, dices[i], row);
                proof {
                    assert(text@ =~= head + dice_row(dices@, (i + 1) as nat, row as int));
                }
                i = i + 1;
            }
            proof {
                assert(head + Seq::<char>::empty() =~= head);
                assert(line(row as int) == Self::dices_line(dices@, row as int));
                assert(text@ =~= lines_up_to(line, row + 1));
            }
            row = row + 1;
        }
        proof {
            lemma_six_lines(line);
        }
        text
    }
}

/// The decimal digit `digit` as text.
pub open spec fn digit_text(digit: u8) -> Seq<char> {
    if digit == 0 {
        "0"@
    } else if digit == 1 {
        "1"@
    } else if digit == 2 {
        "2"@
    } else if digit == 3 {
        "3"@
    } else if digit == 4 {
        "4"@
    } else if digit == 5 {
        "5"@
    } else if digit == 6 {
        "6"@
    } else if digit == 7 {
        "7"@
    } else if digit == 8 {
        "8"@
    } else {
        "9"@
    }
}

/// Computes [`digit_text`].
fn digit_str(digit: u8) -> (text: &'static str)
    requires
        digit < 10,
    ensures
        text@ == digit_text(digit),
{
    if digit == 0 {
        "0"
    } else if digit == 1 {
        "1"
    } else if digit == 2 {
        "2"
    } else if digit == 3 {
        "3"
    } else if digit == 4 {
        "4"
    } else if digit == 5 {
        "5"
    } else if digit == 6 {
        "6"
    } else if digit == 7 {
        "7"
    } else if digit == 8 {
        "8"
    } else {
        "9"
    }
}

/// The digits as text, one after the other.
pub open spec fn digits_text(digits: Seq<u8>) -> Seq<char>
    decreases digits.len(),
{
    if digits.len() == 0 {
        Seq::<char>::empty()
    } else {
        digits_text(digits.drop_last()) + digit_text(digits.last())
    }
}

/// A number in decimal notation.
pub open spec fn decimal_text(num: nat) -> Seq<char> {
    digits_text(decimal_digits(num))
}

/// Appends `num` in decimal notation to `text`.
fn append_decimal(text: &mut String, num: u64)
    ensures
        final(text)@ == old(text)@ + decimal_text(num as nat),
{
    let ghost start = text@;
    let digits = digits_of(num);
    let mut i: usize = 0;
    while i < digits.len()
        invariant
            i <= digits@.len(),
            forall|j: int| 0 <= j < digits@.len() ==> #[trigger] digits@[j] < 10,
            text@ == start + digits_text(digits@.take(i as int)),
        decreases digits@.len() - i,
    {
        text.append(digit_str(digits[i]));
        proof {
            let taken = digits@.take(i + 1);
            assert(taken.drop_last() =~= digits@.take(i as int));
            assert(taken.last() == digits@[i as int]);
            assert(text@ =~= start + digits_text(taken));
        }
        i = i + 1;
    }
    proof {
        assert(digits@.take(digits@.len() as int) =~= digits@);
        assert(start + Seq::<char>::empty() =~= start);
    }
}

impl Calculation {
    /// The computation as it is written: a leaf as its number, an operation
    /// in brackets with its sign between the operands.
    pub open spec fn text(self) -> Seq<char>
        decreases self,
    {
        match self {
            Calculation::Add(a, b) => "("@ + a.text() + " + "@ + b.text() + ")"@,
            Calculation::Sub(a, b) => "("@ + a.text() + " - "@ + b.text() + ")"@,
            Calculation::Mul(a, b) => "("@ + a.text() + " * "@ + b.text() + ")"@,
            Calculation::Div(a, b) => "("@ + a.text() + " / "@ + b.text() + ")"@,
            Calculation::Cube(_, c) => decimal_text(c as nat),
        }
    }

    /// Appends [`Calculation::text`] to `into`.
    fn append_text(&self, into: &mut String)
        ensures
            final(into)@ == old(into)@ + self.text(),
        decreases self,
    {
        let ghost start = into@;
        match self {
            Calculation::Add(a, b) => {
                into.append("(");
                a.append_text(into);
                into.append(" + ");
                b.append_text(into);
                into.append(")");
                proof {
                    assert(into@ =~= start + self.text());
                }
            },
            Calculation::Sub(a, b) => {
                into.append("(");
                a.append_text(into);
                into.append(" - ");
                b.append_text(into);
                into.append(")");
                proof {
                    assert(into@ =~= start + self.text());
                }
            },
            Calculation::Mul(a, b) => {
                into.append("(");
                a.append_text(into);
                into.append(" * ");
                b.append_text(into);
                into.append(")");
                proof {
                    assert(into@ =~= start + self.text());
                }
            },
            Calculation::Div(a, b) => {
                into.append("(");
                a.append_text(into);
                into.append(" / ");
                b.append_text(into);
                into.append(")");
                proof {
                    assert(into@ =~= start + self.text());
                }
            },
            Calculation::Cube(_, c) => {
                append_decimal(into, *c);
            },
        }
    }

    /// Computes [`Calculation::text`].
    pub fn to_text(&self) -> (text: String)
        ensures
            text@ == self.text(),
    {
        let mut text = String::new();
        self.append_text(&mut text);
        proof {
            assert(Seq::<char>::empty() + self.text() =~= self.text());
        }
        text
    }
}

/// The game as it is shown: an empty line, the target number under its
/// heading, an empty line, the dice under their heading.
pub open spec fn game_text(num: u64, dices: Seq<u64>) -> Seq<char> {
    line_end() + six_lines(|row: int| Output::number_line(num, row)) + line_end() + line_end()
        + six_lines(|row: int| Output::dices_line(dices, row)) + line_end()
}

/// Computes [`game_text`].
pub fn game_string(num: u64, dices: &[u64]) -> (text: String)
    ensures
        text@ == game_text(num, dices@),
{
    let mut text = String::new();
    text.append("\n");
    let number = Output::number_string(num);
    text.append(number.as_str());
    text.append("\n\n");
    let dice = Output::dices_string(dices);
    text.append(dice.as_str());
    text.append("\n");
    proof {
        reveal_strlit("\n\n");
        reveal_strlit("\n");
        assert("\n\n"@ =~= line_end() + line_end());
        assert(text@ =~= game_text(num, dices@));
    }
    text
}

} // verus!
