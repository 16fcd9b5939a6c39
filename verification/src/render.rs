//! Drawing a grid of escape counts as lines of text.

use vstd::prelude::*;

verus! {

/// One row of the symbol table: the counts from `first` up to `last` are drawn
/// as `symbol`. The row without a `last` takes every count from `first` on.
pub struct Bucket {
    pub first: nat,
    pub last: Option<nat>,
    pub symbol: char,
}

impl Bucket {
    /// Whether `count` falls into this row of the table.
    pub open spec fn holds(self, count: nat) -> bool {
        self.first <= count && match self.last {
            Some(last) => count <= last,
            None => true,
        }
    }
}

/// The symbol table, from the fastest escapes to the slowest.
pub open spec fn palette() -> Seq<Bucket> {
    seq![
        Bucket { first: 0, last: Some(2), symbol: ' ' },
        Bucket { first: 3, last: Some(5), symbol: '.' },
        Bucket { first: 6, last: Some(10), symbol: '\u{2022}' },
        Bucket { first: 11, last: Some(30), symbol: '*' },
        Bucket { first: 31, last: Some(100), symbol: '+' },
        Bucket { first: 101, last: Some(200), symbol: 'x' },
        Bucket { first: 201, last: Some(400), symbol: '$' },
        Bucket { first: 401, last: Some(700), symbol: '#' },
        Bucket { first: 701, last: None, symbol: '%' },
    ]
}

/// The position in [`palette`] of the row that `count` falls into.
pub open spec fn bucket_of(count: nat) -> int {
    if count <= 2 {
        0
    } else if count <= 5 {
        1
    } else if count <= 10 {
        2
    } else if count <= 30 {
        3
    } else if count <= 100 {
        4
    } else if count <= 200 {
        5
    } else if count <= 400 {
        6
    } else if count <= 700 {
        7
    } else {
        8
    }
}

/// The character that stands for an escape count.
pub open spec fn symbol_of(count: nat) -> char {
    palette()[bucket_of(count)].symbol
}

/// Every count falls into exactly one row of the table: the row at
/// `bucket_of(count)` holds it, and no other row does.
pub proof fn lemma_exactly_one_bucket(count: nat)
    ensures
        0 <= bucket_of(count) < palette().len(),
        palette()[bucket_of(count)].holds(count),
        forall|i: int|
            0 <= i < palette().len() && #[trigger] palette()[i].holds(count) ==> i == bucket_of(
                count,
            ),
{
}

/// The rows of the table follow one another without a gap: the first starts at
/// zero, each later one starts right after the one before it ends, and only
/// the final row is open at the top. No two rows share a symbol.
pub proof fn lemma_palette_well_formed()
    ensures
        palette().len() == 9,
        palette()[0].first == 0,
        forall|i: int|
            0 <= i < palette().len() - 1 ==> (#[trigger] palette()[i]).last == Some(
                (palette()[i + 1].first - 1) as nat,
            ),
        palette()[palette().len() - 1].last is None,
        forall|i: int, j: int|
            0 <= i < j < palette().len() ==> (#[trigger] palette()[i]).symbol != (
            #[trigger] palette()[j]).symbol,
{
}

/// Picks the character for one escape count.
pub fn symbol_for(count: usize) -> (symbol: char)
    ensures
        symbol == symbol_of(count as nat),
{
    match count {
        0..=2 => ' ',
        3..=5 => '.',
        6..=10 => '\u{2022}',
        11..=30 => '*',
        31..=100 => '+',
        101..=200 => 'x',
        201..=400 => '$',
        401..=700 => '#',
        _ => '%',
    }
}

/// The line of text that stands for one row of escape counts: one character
/// for each count, in the order of the counts.
pub open spec fn line_of(row: Seq<usize>) -> Seq<char> {
    Seq::new(row.len(), |i: int| symbol_of(row[i] as nat))
}

/// `String::push` puts one character at the end of the string and leaves what
/// was there before untouched.
pub assume_specification[ String::push ](line: &mut String, ch: char)
    ensures
        final(line)@ == old(line)@.push(ch),
;

/// Draws one row of escape counts as a line of text.
pub fn render_row(row: &Vec<usize>) -> (line: String)
    ensures
        line@ == line_of(row@),
{
    let mut line = String::new();
    let mut i: usize = 0;
    while i < row.len()
        invariant
            i <= row.len(),
            line@ == line_of(row@.take(i as int)),
        decreases row.len() - i,
    {
        line.push(symbol_for(row[i]));
        i = i + 1;
    }
    assert(row@.take(i as int) == row@);
    line
}

/// Draws a grid of escape counts: one line for each row, in the order of the
/// rows, and in each line one character for each cell.
pub fn render_mandlebrot(escape_vals: Vec<Vec<usize>>) -> (lines: Vec<String>)
    ensures
        lines.len() == escape_vals.len(),
        forall|i: int| 0 <= i < lines.len() ==> (#[trigger] lines[i])@ == line_of(escape_vals[i]@),
{
    let mut lines: Vec<String> = Vec::new();
    let mut i: usize = 0;
    while i < escape_vals.len()
        invariant
            i <= escape_vals.len(),
            lines.len() == i,
            forall|k: int| 0 <= k < i ==> (#[trigger] lines[k])@ == line_of(escape_vals[k]@),
        decreases escape_vals.len() - i,
    {
        lines.push(render_row(&escape_vals[i]));
        i = i + 1;
    }
    lines
}

} // verus!
