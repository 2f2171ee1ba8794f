//! Text produced for the output files: the zero-padded names of trajectory
//! snapshots and run directories, the comma-separated layout of grids and
//! time series, and the switch for debug dumps.

use vstd::prelude::*;
use vstd::arithmetic::power::{pow, lemma_pow_positive};

verus! {

/// The ASCII character of decimal digit `d` (`d < 10`).
pub open spec fn digit_char(d: nat) -> char {
    if d == 0 {
        '0'
    } else if d == 1 {
        '1'
    } else if d == 2 {
        '2'
    } else if d == 3 {
        '3'
    } else if d == 4 {
        '4'
    } else if d == 5 {
        '5'
    } else if d == 6 {
        '6'
    } else if d == 7 {
        '7'
    } else if d == 8 {
        '8'
    } else {
        '9'
    }
}

/// Whether `c` is one of the characters `0`–`9`.
pub open spec fn is_digit(c: char) -> bool {
    '0' <= c <= '9'
}

/// The decimal representation of `n`, without leading zeros.
pub open spec fn decimal(n: nat) -> Seq<char>
    decreases n,
{
    if n < 10 {
        seq![digit_char(n)]
    } else {
        decimal(n / 10).push(digit_char(n % 10))
    }
}

/// `k` copies of the character `0`.
pub open spec fn zeros(k: nat) -> Seq<char> {
    Seq::new(k, |i: int| '0')
}

/// The decimal representation of `n` left-padded with zeros to at least
/// `width` characters, as `format!("{:0width$}", n)` writes it.
pub open spec fn zero_padded(n: nat, width: nat) -> Seq<char> {
    let digits = decimal(n);
    if digits.len() < width {
        zeros((width - digits.len()) as nat) + digits
    } else {
        digits
    }
}

/// The number a string of decimal digits denotes.
pub open spec fn digits_value(s: Seq<char>) -> nat
    decreases s.len(),
{
    if s.len() == 0 {
        0
    } else {
        digits_value(s.drop_last()) * 10 + ((s.last() as nat) - ('0' as nat)) as nat
    }
}

/// Appends one character to `s`; calls std's `String::push`.
#[verifier::external_body]
fn push_char(s: &mut String, c: char)
    ensures
        final(s)@ == old(s)@.push(c),
{
    s.push(c);
}

/// The character of digit `d`.
fn digit_to_char(d: u64) -> (c: char)
    requires
        d < 10,
    ensures
        c == digit_char(d as nat),
{
    match d {
        0 => '0',
        1 => '1',
        2 => '2',
        3 => '3',
        4 => '4',
        5 => '5',
        6 => '6',
        7 => '7',
        8 => '8',
        _ => '9',
    }
}

/// A number below `10^(k+1)` has at most `k + 1` decimal digits.
proof fn lemma_decimal_length_bound(n: nat, k: nat)
    requires
        n < pow(10, k + 1),
    ensures
        1 <= decimal(n).len() <= k + 1,
    decreases n,
{
    if n >= 10 {
        lemma_pow_positive(10, k);
        reveal(pow);
        if k == 0 {
            assert(pow(10, 0) == 1);
            assert(false);
        } else {
            assert(pow(10, k + 1) == 10 * pow(10, k));
            let p = pow(10, k);
            assert(n / 10 < p) by (nonlinear_arith)
                requires
                    n < 10 * p,
            ;
            lemma_decimal_length_bound(n / 10, (k - 1) as nat);
        }
    }
}

/// Number of decimal digits of `n`.
fn decimal_width(n: u64) -> (width: usize)
    ensures
        width == decimal(n as nat).len(),
    decreases n,
{
    proof {
        lemma_pow_positive(10, 19);
        assert(pow(10, 20) == 100000000000000000000) by {
            reveal_with_fuel(pow, 21);
        }
        lemma_decimal_length_bound(n as nat, 19);
    }
    if n < 10 {
        1
    } else {
        1 + decimal_width(n / 10)
    }
}

/// Appends the decimal digits of `n` to `s`.
fn push_decimal(s: &mut String, n: u64)
    ensures
        final(s)@ == old(s)@ + decimal(n as nat),
    decreases n,
{
    if n >= 10 {
        push_decimal(s, n / 10);
    }
    let c = digit_to_char(n % 10);
    push_char(s, c);
    proof {
        if n >= 10 {
            assert(old(s)@ + decimal(n as nat) =~= old(s)@ + decimal((n / 10) as nat) + seq![c]);
        } else {
            assert(old(s)@ + decimal(n as nat) =~= old(s)@ + seq![c]);
        }
    }
}

/// Writes `n` in decimal, left-padded with zeros to at least `width` characters.
pub fn zero_padded_decimal(n: u64, width: usize) -> (text: String)
    ensures
        text@ == zero_padded(n as nat, width as nat),
        digits_value(text@) == n,
        text@.len() >= width,
        text@.len() >= 1,
        text@.len() > width && text@.len() > 1 ==> text@[0] != '0',
{
    let mut text = String::new();
    let digits = decimal_width(n);
    let mut pad: usize = digits;
    while pad < width
        invariant
            digits <= pad <= width || (digits == pad && width < digits),
            digits == decimal(n as nat).len(),
            text@ == zeros((pad - digits) as nat),
        decreases width - pad,
    {
        push_char(&mut text, '0');
        proof {
            assert(zeros((pad - digits) as nat).push('0') =~= zeros((pad + 1 - digits) as nat));
        }
        pad = pad + 1;
    }
    let ghost padding = text@;
    push_decimal(&mut text, n);
    proof {
        lemma_zero_padding_minimal(n as nat, width as nat);
        if digits < width {
            assert(pad == width);
        } else {
            assert(padding =~= Seq::<char>::empty());
            assert(text@ =~= decimal(n as nat));
        }
    }
    text
}

/// Name of the trajectory snapshot after `step` timesteps: `step_` followed
/// by the step number padded to six digits and `.txt`.
pub fn step_file_name(step: u64) -> (name: String)
    ensures
        name@ == "step_"@ + zero_padded(step as nat, 6) + ".txt"@,
{
    let mut name = String::from_str("step_");
    let number = zero_padded_decimal(step, 6);
    name.append(number.as_str());
    name.append(".txt");
    name
}

/// Name of the directory of noise realisation `run`: `run_` followed by the
/// run number padded to four digits.
pub fn run_dir_name(run: u64) -> (name: String)
    ensures
        name@ == "run_"@ + zero_padded(run as nat, 4),
{
    let mut name = String::from_str("run_");
    let number = zero_padded_decimal(run, 4);
    name.append(number.as_str());
    name
}

/// Each digit character stands for its digit.
proof fn lemma_digit_char_value(d: nat)
    requires
        d < 10,
    ensures
        (digit_char(d) as nat) - ('0' as nat) == d,
        is_digit(digit_char(d)),
{
}

/// The digits of `n` read back as `n`.
pub proof fn lemma_decimal_value(n: nat)
    ensures
        digits_value(decimal(n)) == n,
        forall|i: int| 0 <= i < decimal(n).len() ==> is_digit(#[trigger] decimal(n)[i]),
    decreases n,
{
    lemma_digit_char_value(n % 10);
    if n < 10 {
        assert(n % 10 == n);
        let d = decimal(n);
        assert(d.drop_last() =~= Seq::<char>::empty());
        assert(digits_value(d.drop_last()) == 0);
        assert(d.last() == digit_char(n));
    } else {
        lemma_decimal_value(n / 10);
        let d = decimal(n);
        assert(d.drop_last() =~= decimal(n / 10));
        assert(d.last() == digit_char(n % 10));
        assert(n == (n / 10) * 10 + n % 10) by (nonlinear_arith);
        assert(digits_value(d) == digits_value(d.drop_last()) * 10 + ((d.last() as nat) - ('0' as nat)) as nat);
        assert forall|i: int| 0 <= i < d.len() implies is_digit(#[trigger] d[i]) by {
            if i < d.len() - 1 {
                assert(d[i] == decimal(n / 10)[i]);
            }
        }
    }
}

/// Leading zeros do not change the number a digit string denotes.
pub proof fn lemma_leading_zeros_value(k: nat, digits: Seq<char>)
    ensures
        digits_value(zeros(k) + digits) == digits_value(digits),
    decreases digits.len(),
{
    if digits.len() == 0 {
        lemma_zeros_value(k);
        assert(zeros(k) + digits =~= zeros(k));
    } else {
        lemma_leading_zeros_value(k, digits.drop_last());
        assert((zeros(k) + digits).drop_last() =~= zeros(k) + digits.drop_last());
    }
}

/// A string of zeros denotes zero.
pub proof fn lemma_zeros_value(k: nat)
    ensures
        digits_value(zeros(k)) == 0,
    decreases k,
{
    if k > 0 {
        lemma_zeros_value((k - 1) as nat);
        assert(zeros(k).drop_last() =~= zeros((k - 1) as nat));
    }
}

/// Zero padding is lossless: the padded text consists of digits, is at
/// least `width` long, and reads back as `n`.
pub proof fn lemma_zero_padded_value(n: nat, width: nat)
    ensures
        digits_value(zero_padded(n, width)) == n,
        zero_padded(n, width).len() >= width,
        forall|i: int| 0 <= i < zero_padded(n, width).len() ==> is_digit(#[trigger] zero_padded(n, width)[i]),
{
    lemma_decimal_value(n);
    let digits = decimal(n);
    if digits.len() < width {
        let k = (width - digits.len()) as nat;
        lemma_leading_zeros_value(k, digits);
        let padded = zeros(k) + digits;
        assert forall|i: int| 0 <= i < padded.len() implies is_digit(#[trigger] padded[i]) by {
            if i >= k {
                assert(padded[i] == digits[i - k]);
            }
        }
    }
}

/// Different numbers padded to the same width give different text.
pub proof fn lemma_zero_padded_injective(a: nat, b: nat, width: nat)
    requires
        zero_padded(a, width) == zero_padded(b, width),
    ensures
        a == b,
{
    lemma_zero_padded_value(a, width);
    lemma_zero_padded_value(b, width);
}

/// Snapshots of different steps are written to different files.
pub proof fn lemma_step_file_names_distinct(a: nat, b: nat)
    requires
        "step_"@ + zero_padded(a, 6) + ".txt"@ == "step_"@ + zero_padded(b, 6) + ".txt"@,
    ensures
        a == b,
{
    let p = "step_"@;
    let q = ".txt"@;
    let x = zero_padded(a, 6);
    let y = zero_padded(b, 6);
    assert((p + x + q).len() == p.len() + x.len() + q.len());
    assert((p + y + q).len() == p.len() + y.len() + q.len());
    assert(x.len() == y.len());
    assert((p + x + q).subrange(p.len() as int, (p.len() + x.len()) as int) =~= x);
    assert((p + y + q).subrange(p.len() as int, (p.len() + y.len()) as int) =~= y);
    lemma_zero_padded_injective(a, b, 6);
}

/// Different noise realisations are written to different directories.
pub proof fn lemma_run_dir_names_distinct(a: nat, b: nat)
    requires
        "run_"@ + zero_padded(a, 4) == "run_"@ + zero_padded(b, 4),
    ensures
        a == b,
{
    let p = "run_"@;
    let x = zero_padded(a, 4);
    let y = zero_padded(b, 4);
    assert((p + x).subrange(p.len() as int, (p + x).len() as int) =~= x);
    assert((p + y).subrange(p.len() as int, (p + y).len() as int) =~= y);
    lemma_zero_padded_injective(a, b, 4);
}

/// Numbers of ten or more have more than one digit and do not start with `0`.
pub proof fn lemma_decimal_leading_digit(n: nat)
    ensures
        decimal(n).len() >= 1,
        decimal(n).len() > 1 <==> n >= 10,
        decimal(n).len() > 1 ==> decimal(n)[0] != '0',
    decreases n,
{
    if n >= 10 {
        lemma_decimal_leading_digit(n / 10);
        assert(decimal(n)[0] == decimal(n / 10)[0]);
        if n / 10 < 10 {
            assert(n / 10 >= 1);
        }
    }
}

/// Zero padding is exactly as long as it must be: the text is the number's
/// digits widened with zeros to `width` characters and no further, so it is
/// `max(width, digits)` long, and a text longer than `width` (and than one
/// character) has no leading zero.
pub proof fn lemma_zero_padding_minimal(n: nat, width: nat)
    ensures
        zero_padded(n, width).len() == if decimal(n).len() < width {
            width
        } else {
            decimal(n).len()
        },
        zero_padded(n, width).len() >= width,
        zero_padded(n, width).len() >= 1,
        forall|i: int| 0 <= i < zero_padded(n, width).len() ==> '0' <= #[trigger] zero_padded(n, width)[i] <= '9',
        digits_value(zero_padded(n, width)) == n,
        zero_padded(n, width).len() > width && zero_padded(n, width).len() > 1 ==> zero_padded(n, width)[0] != '0',
{
    lemma_zero_padded_value(n, width);
    lemma_decimal_leading_digit(n);
    assert forall|i: int| 0 <= i < zero_padded(n, width).len() implies '0' <= #[trigger] zero_padded(n, width)[i]
        <= '9' by {
        assert(is_digit(zero_padded(n, width)[i]));
    }
}

/// Number of occurrences of `c` in `s`.
pub open spec fn count_char(s: Seq<char>, c: char) -> nat
    decreases s.len(),
{
    if s.len() == 0 {
        0
    } else {
        count_char(s.drop_last(), c) + if s.last() == c {
            1nat
        } else {
            0nat
        }
    }
}

/// A one-character text holds `c` once if it is `c` and not at all otherwise.
pub proof fn lemma_count_single(x: char, c: char)
    ensures
        count_char(seq![x], c) == if x == c {
            1nat
        } else {
            0nat
        },
{
    assert(seq![x].drop_last() =~= Seq::<char>::empty());
    assert(count_char(Seq::<char>::empty(), c) == 0);
}

/// Occurrences add up over a concatenation.
pub proof fn lemma_count_concat(a: Seq<char>, b: Seq<char>, c: char)
    ensures
        count_char(a + b, c) == count_char(a, c) + count_char(b, c),
    decreases b.len(),
{
    if b.len() == 0 {
        assert(a + b =~= a);
    } else {
        lemma_count_concat(a, b.drop_last(), c);
        assert((a + b).drop_last() =~= a + b.drop_last());
    }
}

/// The cells of one line joined by commas.
pub open spec fn csv_line(cells: Seq<Seq<char>>) -> Seq<char>
    decreases cells.len(),
{
    if cells.len() == 0 {
        Seq::empty()
    } else if cells.len() == 1 {
        cells[0]
    } else {
        csv_line(cells.drop_last()) + seq![','] + cells.last()
    }
}

/// Each row written as its comma-joined cells followed by a newline.
pub open spec fn csv_text(rows: Seq<Seq<Seq<char>>>) -> Seq<char>
    decreases rows.len(),
{
    if rows.len() == 0 {
        Seq::empty()
    } else {
        csv_text(rows.drop_last()) + csv_line(rows.last()) + seq!['\n']
    }
}

/// Adjacent cells are separated by exactly one comma: a line of `n >= 1`
/// comma-free cells holds exactly `n - 1` commas, and no character `c`
/// other than `,` that none of the cells holds.
pub proof fn lemma_csv_line_separators(cells: Seq<Seq<char>>, c: char)
    requires
        cells.len() >= 1,
        c != ',',
        forall|i: int| 0 <= i < cells.len() ==> count_char(#[trigger] cells[i], ',') == 0,
        forall|i: int| 0 <= i < cells.len() ==> count_char(#[trigger] cells[i], c) == 0,
    ensures
        count_char(csv_line(cells), ',') == cells.len() - 1,
        count_char(csv_line(cells), c) == 0,
    decreases cells.len(),
{
    if cells.len() > 1 {
        let rest = cells.drop_last();
        assert forall|i: int| 0 <= i < rest.len() implies count_char(#[trigger] rest[i], ',') == 0 by {
            assert(rest[i] == cells[i]);
        }
        assert forall|i: int| 0 <= i < rest.len() implies count_char(#[trigger] rest[i], c) == 0 by {
            assert(rest[i] == cells[i]);
        }
        lemma_csv_line_separators(rest, c);
        let last = cells[cells.len() - 1];
        lemma_count_concat(csv_line(rest) + seq![','], last, ',');
        lemma_count_concat(csv_line(rest), seq![','], ',');
        lemma_count_concat(csv_line(rest) + seq![','], last, c);
        lemma_count_concat(csv_line(rest), seq![','], c);
        lemma_count_single(',', ',');
        lemma_count_single(',', c);
    }
}

/// Each row occupies one line: with no newline or comma inside a cell, the
/// text of `rows` has exactly one newline per row.
pub proof fn lemma_csv_text_lines(rows: Seq<Seq<Seq<char>>>)
    requires
        forall|r: int, i: int|
            0 <= r < rows.len() && 0 <= i < rows[r].len() ==> count_char(#[trigger] rows[r][i], '\n') == 0
                && count_char(rows[r][i], ',') == 0,
    ensures
        count_char(csv_text(rows), '\n') == rows.len(),
    decreases rows.len(),
{
    if rows.len() > 0 {
        let rest = rows.drop_last();
        assert forall|r: int, i: int| 0 <= r < rest.len() && 0 <= i < rest[r].len() implies count_char(
            #[trigger] rest[r][i],
            '\n',
        ) == 0 && count_char(rest[r][i], ',') == 0 by {
            assert(rest[r] == rows[r]);
        }
        lemma_csv_text_lines(rest);
        let row = rows[rows.len() - 1];
        if row.len() >= 1 {
            assert forall|i: int| 0 <= i < row.len() implies count_char(#[trigger] row[i], ',') == 0 by {
                assert(row[i] == rows[rows.len() - 1][i]);
            }
            assert forall|i: int| 0 <= i < row.len() implies count_char(#[trigger] row[i], '\n') == 0 by {
                assert(row[i] == rows[rows.len() - 1][i]);
            }
            lemma_csv_line_separators(row, '\n');
        } else {
            assert(count_char(csv_line(row), '\n') == 0);
        }
        lemma_count_concat(csv_text(rest) + csv_line(row), seq!['\n'], '\n');
        lemma_count_concat(csv_text(rest), csv_line(row), '\n');
        lemma_count_single('\n', '\n');
    }
}

/// Lays out already formatted cells as comma-separated text: one line per
/// row, cells separated by `,`, each line ended by a newline. This is the
/// format of the grid, coordinate and time-series files.
pub fn csv_document(rows: &Vec<Vec<String>>) -> (text: String)
    ensures
        text@ == csv_text(rows.deep_view()),
{
    let mut text = String::new();
    let mut r: usize = 0;
    while r < rows.len()
        invariant
            r <= rows@.len(),
            text@ == csv_text(rows.deep_view().take(r as int)),
        decreases rows@.len() - r,
    {
        let row = &rows[r];
        let ghost before = text@;
        let mut c: usize = 0;
        while c < row.len()
            invariant
                row == rows@[r as int],
                c <= row@.len(),
                r < rows@.len(),
                text@ == before + csv_line(row.deep_view().take(c as int)),
            decreases row@.len() - c,
        {
            let ghost line_before = csv_line(row.deep_view().take(c as int));
            if c > 0 {
                push_char(&mut text, ',');
            }
            text.append(row[c].as_str());
            proof {
                let cells = row.deep_view().take(c as int + 1);
                assert(cells.drop_last() =~= row.deep_view().take(c as int));
                assert(cells.last() == row@[c as int]@);
                assert(text@ =~= before + csv_line(cells));
            }
            c = c + 1;
        }
        push_char(&mut text, '\n');
        proof {
            assert(row.deep_view().take(row@.len() as int) =~= row.deep_view());
            let done = rows.deep_view().take(r as int + 1);
            assert(done.drop_last() =~= rows.deep_view().take(r as int));
            assert(done.last() == row.deep_view());
            assert(text@ =~= csv_text(done));
        }
        r = r + 1;
    }
    proof {
        assert(rows.deep_view().take(rows@.len() as int) =~= rows.deep_view());
    }
    text
}

/// Each entry written as its label, the separator and its value, on a line
/// of its own.
pub open spec fn labelled_text(entries: Seq<(Seq<char>, Seq<char>)>, separator: Seq<char>) -> Seq<char>
    decreases entries.len(),
{
    if entries.len() == 0 {
        Seq::empty()
    } else {
        labelled_text(entries.drop_last(), separator) + entries.last().0 + separator + entries.last().1 + seq!['\n']
    }
}

/// Each entry occupies its own line: with no newline in a label, a value or
/// the separator, the text of `entries` has exactly one newline per entry,
/// and the text of the first `k` entries is followed by the line of entry
/// `k`: its label, the separator, its value and a newline.
pub proof fn lemma_labelled_lines(entries: Seq<(Seq<char>, Seq<char>)>, separator: Seq<char>)
    requires
        count_char(separator, '\n') == 0,
        forall|i: int|
            0 <= i < entries.len() ==> count_char((#[trigger] entries[i]).0, '\n') == 0 && count_char(
                entries[i].1,
                '\n',
            ) == 0,
    ensures
        count_char(labelled_text(entries, separator), '\n') == entries.len(),
        forall|k: int|
            0 <= k < entries.len() ==> #[trigger] labelled_text(entries.take(k + 1), separator) == labelled_text(
                entries.take(k),
                separator,
            ) + entries[k].0 + separator + entries[k].1 + seq!['\n'],
    decreases entries.len(),
{
    assert forall|k: int| 0 <= k < entries.len() implies #[trigger] labelled_text(entries.take(k + 1), separator)
        == labelled_text(entries.take(k), separator) + entries[k].0 + separator + entries[k].1 + seq!['\n'] by {
        assert(entries.take(k + 1).drop_last() =~= entries.take(k));
    }
    if entries.len() > 0 {
        let rest = entries.drop_last();
        assert forall|i: int| 0 <= i < rest.len() implies count_char((#[trigger] rest[i]).0, '\n') == 0
            && count_char(rest[i].1, '\n') == 0 by {
            assert(rest[i] == entries[i]);
        }
        lemma_labelled_lines(rest, separator);
        let last = entries[entries.len() - 1];
        let before = labelled_text(rest, separator);
        lemma_count_concat(before + last.0 + separator + last.1, seq!['\n'], '\n');
        lemma_count_concat(before + last.0 + separator, last.1, '\n');
        lemma_count_concat(before + last.0, separator, '\n');
        lemma_count_concat(before, last.0, '\n');
        lemma_count_single('\n', '\n');
    }
}

/// Lays out labelled values one per line as `label<separator>value`: the
/// format of the parameter file (`: `) and of the run metadata (` = `).
pub fn labelled_lines(entries: &Vec<(String, String)>, separator: &str) -> (text: String)
    ensures
        text@ == labelled_text(entries.deep_view(), separator@),
{
    let mut text = String::new();
    let mut e: usize = 0;
    while e < entries.len()
        invariant
            e <= entries@.len(),
            text@ == labelled_text(entries.deep_view().take(e as int), separator@),
        decreases entries@.len() - e,
    {
        let entry = &entries[e];
        text.append(entry.0.as_str());
        text.append(separator);
        text.append(entry.1.as_str());
        push_char(&mut text, '\n');
        proof {
            let done = entries.deep_view().take(e as int + 1);
            assert(done.drop_last() =~= entries.deep_view().take(e as int));
            assert(done.last() == entries.deep_view()[e as int]);
            assert(text@ =~= labelled_text(done, separator@));
        }
        e = e + 1;
    }
    proof {
        assert(entries.deep_view().take(entries@.len() as int) =~= entries.deep_view());
    }
    text
}

/// The parameter file: each parameter on a line as `label: value`, then a
/// closing `EOF` line.
pub fn parameter_document(entries: &Vec<(String, String)>) -> (text: String)
    ensures
        text@ == labelled_text(entries.deep_view(), ": "@) + "EOF\n"@,
{
    let mut text = labelled_lines(entries, ": ");
    text.append("EOF\n");
    text
}

/// Whether a value of the debug switch asks for debug dumps: any non-empty
/// value other than `0`; an unset switch asks for none.
pub open spec fn debug_value_enables(value: Option<Seq<char>>) -> bool {
    match value {
        Some(v) => v.len() > 0 && v != seq!['0'],
        None => false,
    }
}

/// Debug dumps are on exactly for a set switch whose value is non-empty and
/// not `0`, whatever its length.
pub proof fn lemma_debug_switch(v: Seq<char>)
    ensures
        !debug_value_enables(None),
        debug_value_enables(Some(v)) <==> (v.len() > 0 && v != seq!['0']),
        v.len() > 1 ==> debug_value_enables(Some(v)),
{
    if v.len() > 1 {
        assert(v.len() != seq!['0'].len());
    }
}

/// Decides from the value of the debug environment switch (`None` when it is
/// unset or not valid Unicode) whether the intermediate fields are dumped.
pub fn debug_output_requested(value: Option<&str>) -> (on: bool)
    ensures
        value is None ==> !on,
        value matches Some(v) ==> (on <==> (v@.len() > 0 && v@ != seq!['0'])),
        on == debug_value_enables(
            match value {
                Some(v) => Some(v@),
                None => None,
            },
        ),
{
    match value {
        None => false,
        Some(v) => {
            let len = v.unicode_len();
            if len == 0 {
                false
            } else if len == 1 && v.get_char(0) == '0' {
                assert(v@ =~= seq!['0']);
                false
            } else {
                if len == 1 {
                    assert(v@[0] != '0');
                    assert(v@ != seq!['0']);
                }
                true
            }
        },
    }
}

} // verus!
