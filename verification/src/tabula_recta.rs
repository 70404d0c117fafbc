//! The tabula recta: the square of an alphabet and its 25 turns, by which the
//! Vigenère family of ciphers substitutes.

use vstd::prelude::*;
use crate::alphabet::{capital_alphabet, Alphabet};
use crate::text::{ascii_upper, ascii_upper_seq, find_char, first_place};

verus! {

/// A square of letters with a row and a column for each letter of an alphabet.
#[derive(Debug)]
pub struct Table {
    letters: Vec<char>,
    rows: Vec<Vec<char>>,
}

/// A table in which a letter is found by the letters of its row and its column.
pub trait TabulaRecta {
    /// The letters of the alphabet that the table was made of.
    spec fn letters(&self) -> Seq<char>;

    /// The letter in the row of `row` and the column of `column`: the capital of the
    /// alphabet's letter as many places after `column` as `row` is from the first,
    /// wrapping round; `None` unless the alphabet holds both letters.
    fn at(&self, row: &char, column: &char) -> (letter: Option<&char>)
        ensures
            letter == entry(self.letters(), *row, *column),
    ;
}

/// The letter in the row of `row` and the column of `column` of the table of `letters`;
/// see [`TabulaRecta::at`].
pub open spec fn entry(letters: Seq<char>, row: char, column: char) -> Option<&'static char> {
    let r = first_place(letters, row);
    let c = first_place(letters, column);
    if r < letters.len() && c < letters.len() && letters.len() == 26 {
        Some(&ascii_upper(letters[(c + r) % 26]))
    } else {
        None
    }
}

impl Table {
    #[verifier::type_invariant]
    spec fn square(self) -> bool {
        &&& self.letters@.len() == 26
        &&& self.rows@.len() == 26
        &&& forall|r: int| 0 <= r < 26 ==> (#[trigger] self.rows@[r])@.len() == 26
        &&& forall|r: int, c: int|
            0 <= r < 26 && 0 <= c < 26 ==> #[trigger] self.rows@[r]@[c] == ascii_upper(
                self.letters@[(c + r) % 26],
            )
    }

    /// The letters of the alphabet that the table was made of.
    pub closed spec fn alphabet(&self) -> Seq<char> {
        self.letters@
    }
}

impl TabulaRecta for Table {
    closed spec fn letters(&self) -> Seq<char> {
        self.letters@
    }

    fn at(&self, row: &char, column: &char) -> (letter: Option<&char>) {
        proof {
            use_type_invariant(self);
        }
        let r = find_char(&self.letters, *row);
        let c = find_char(&self.letters, *column);
        if r < self.letters.len() && c < self.letters.len() {
            Some(&self.rows[r][c])
        } else {
            None
        }
    }
}

/// The tabula recta of `alphabet`, which must be 26 Latin letters whose capitals all
/// differ: for each letter a row, which holds for each letter of the alphabet the
/// capital of the letter that stands as many places later as the row is from the first.
pub fn tabula_recta(alphabet: &Alphabet) -> (table: Table)
    requires
        capital_alphabet(ascii_upper_seq(alphabet.chars())),
    ensures
        table.letters() == alphabet.chars(),
{
    let letters = alphabet.characters();
    let mut own: Vec<char> = Vec::new();
    let mut i: usize = 0;
    while i < 26
        invariant
            i <= 26,
            letters@.len() == 26,
            own@ == letters@.take(i as int),
        decreases 26 - i,
    {
        own.push(letters[i]);
        assert(own@ =~= letters@.take(i + 1));
        i += 1;
    }
    assert(letters@.take(26) == letters@);
    let mut rows: Vec<Vec<char>> = Vec::new();
    let mut row: u8 = 0;
    while row < 26
        invariant
            row <= 26,
            capital_alphabet(ascii_upper_seq(alphabet.chars())),
            rows@.len() == row,
            forall|r: int| 0 <= r < row ==> (#[trigger] rows@[r])@.len() == 26,
            forall|r: int, c: int|
                0 <= r < row && 0 <= c < 26 ==> #[trigger] rows@[r]@[c] == ascii_upper(
                    alphabet.chars()[(c + r) % 26],
                ),
        decreases 26 - row,
    {
        let shifted = alphabet.shift(row);
        let turned = shifted.characters();
        let mut line: Vec<char> = Vec::new();
        let mut c: usize = 0;
        while c < 26
            invariant
                c <= 26,
                turned@.len() == 26,
                line@ == turned@.take(c as int),
            decreases 26 - c,
        {
            line.push(turned[c]);
            assert(line@ =~= turned@.take(c + 1));
            c += 1;
        }
        assert(turned@.take(26) == turned@);
        rows.push(line);
        row += 1;
    }
    Table { letters: own, rows }
}

} // verus!
