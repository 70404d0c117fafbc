//! The eight rotors: their wirings and the notches at which they carry.

use vstd::prelude::*;
use crate::error::CipherError;
use crate::enigma::alphabet::{
    Alphabet, capital_permutation, codes_of, found_below, lemma_permutation_text,
    lemma_searched_permutation, permutation,
};

verus! {

/// A rotor of an Enigma machine.
#[allow(clippy::upper_case_acronyms)]
#[derive(Clone, Copy, Debug, PartialEq, Eq, Structural)]
pub enum Rotor {
    I,
    II,
    III,
    IV,
    V,
    VI,
    VII,
    VIII,
}

impl Rotor {
    /// The rotor with the given number, counted from 1.
    pub open spec fn of_number(n: int) -> Rotor {
        if n == 1 {
            Rotor::I
        } else if n == 2 {
            Rotor::II
        } else if n == 3 {
            Rotor::III
        } else if n == 4 {
            Rotor::IV
        } else if n == 5 {
            Rotor::V
        } else if n == 6 {
            Rotor::VI
        } else if n == 7 {
            Rotor::VII
        } else {
            Rotor::VIII
        }
    }

    /// The letters to which this rotor wires `A` to `Z`, in that order.
    pub open spec fn wiring_text(self) -> Seq<char> {
        match self {
            Rotor::I => "EKMFLGDQVZNTOWYHXUSPAIBRCJ"@,
            Rotor::II => "AJDKSIRUXBLHWTMCQGZNPYFVOE"@,
            Rotor::III => "BDFHJLCPRTXVZNYEIWGAKMUSQO"@,
            Rotor::IV => "ESOVPZJAYQUIRHXLNFTGKDCMWB"@,
            Rotor::V => "VZBRGITYUPSDNHLXAWMJQOFECK"@,
            Rotor::VI => "JPGVOUMFYQBENHZRDKASXLICTW"@,
            Rotor::VII => "NZJHGRCXMYSWBOUFAIVLPEKQDT"@,
            Rotor::VIII => "FKQHTLXOCBJSPDZRAMEWNIUYGV"@,
        }
    }

    /// The codes of the letters to which this rotor wires `A` to `Z`.
    pub open spec fn wiring(self) -> Seq<u8> {
        codes_of(self.wiring_text())
    }

    /// The letters at which this rotor makes its neighbour step.
    pub open spec fn notch_letters(self) -> Seq<char> {
        match self {
            Rotor::I => seq!['Q'],
            Rotor::II => seq!['E'],
            Rotor::III => seq!['V'],
            Rotor::IV => seq!['J'],
            Rotor::V => seq!['Z'],
            Rotor::VI => seq!['M', 'Z'],
            Rotor::VII => seq!['M', 'Z'],
            Rotor::VIII => seq!['M', 'Z'],
        }
    }

    /// Whether this rotor has a notch at the letter whose place is `position`.
    pub open spec fn notch_at(self, position: int) -> bool {
        exists|i: int| 0 <= i < self.notch_letters().len() && #[trigger] self.notch_letters()[i] as int
            == 65 + position
    }

    /// The rotor with the given number, which must be one of 1 to 8.
    pub fn unchecked_from(value: u8) -> (r: Rotor)
        requires
            1 <= value <= 8,
        ensures
            r == Rotor::of_number(value as int),
    {
        match value {
            1 => Rotor::I,
            2 => Rotor::II,
            3 => Rotor::III,
            4 => Rotor::IV,
            5 => Rotor::V,
            6 => Rotor::VI,
            7 => Rotor::VII,
            _ => Rotor::VIII,
        }
    }

    /// The rotor with the given number; fails unless the number is one of 1 to 8.
    pub fn try_from(value: u8) -> (r: Result<Rotor, CipherError>)
        ensures
            1 <= value <= 8 ==> r == Ok::<Rotor, CipherError>(Rotor::of_number(value as int)),
            !(1 <= value <= 8) ==> r == Err::<Rotor, CipherError>(CipherError::InvalidConfiguration),
    {
        if 1 <= value && value <= 8 {
            Ok(Rotor::unchecked_from(value))
        } else {
            Err(CipherError::InvalidConfiguration)
        }
    }

    /// The wiring of this rotor as an alphabet.
    pub fn alphabet(&self) -> (a: Alphabet)
        ensures
            a@ == self.wiring(),
            a.is_permutation(),
    {
        let text = match self {
            Rotor::I => "EKMFLGDQVZNTOWYHXUSPAIBRCJ",
            Rotor::II => "AJDKSIRUXBLHWTMCQGZNPYFVOE",
            Rotor::III => "BDFHJLCPRTXVZNYEIWGAKMUSQO",
            Rotor::IV => "ESOVPZJAYQUIRHXLNFTGKDCMWB",
            Rotor::V => "VZBRGITYUPSDNHLXAWMJQOFECK",
            Rotor::VI => "JPGVOUMFYQBENHZRDKASXLICTW",
            Rotor::VII => "NZJHGRCXMYSWBOUFAIVLPEKQDT",
            Rotor::VIII => "FKQHTLXOCBJSPDZRAMEWNIUYGV",
        };
        proof {
            lemma_wiring_is_permutation(*self);
            lemma_permutation_text(text@);
        }
        match Alphabet::new(text) {
            Ok(a) => a,
            Err(_) => Alphabet::standard(),
        }
    }

    /// The letters at which this rotor makes its neighbour step.
    pub fn notches(&self) -> (v: Vec<char>)
        ensures
            v@ == self.notch_letters(),
    {
        let v = match self {
            Rotor::I => vec!['Q'],
            Rotor::II => vec!['E'],
            Rotor::III => vec!['V'],
            Rotor::IV => vec!['J'],
            Rotor::V => vec!['Z'],
            Rotor::VI => vec!['M', 'Z'],
            Rotor::VII => vec!['M', 'Z'],
            Rotor::VIII => vec!['M', 'Z'],
        };
        assert(v@ =~= self.notch_letters());
        v
    }
}

/// Three rotor numbers turned into three rotors.
pub trait IntoRotors: Sized {
    /// The three numbers.
    spec fn numbers(self) -> (int, int, int);

    /// The rotors with the three numbers; fails unless each number is from 1 to 8.
    fn try_into_rotors(self) -> (r: Result<(Rotor, Rotor, Rotor), CipherError>)
        ensures
            rotor_triple(self.numbers()) ==> r == Ok::<(Rotor, Rotor, Rotor), CipherError>(
                rotors_of(self.numbers()),
            ),
            !rotor_triple(self.numbers()) ==> r == Err::<(Rotor, Rotor, Rotor), CipherError>(
                CipherError::InvalidConfiguration,
            ),
    ;

    /// The rotors with the three numbers, each of which must be from 1 to 8.
    fn unchecked_into_rotors(self) -> (r: (Rotor, Rotor, Rotor))
        requires
            rotor_triple(self.numbers()),
        ensures
            r == rotors_of(self.numbers()),
    ;
}

/// Whether each of three numbers is a rotor's number, from 1 to 8.
pub open spec fn rotor_triple(n: (int, int, int)) -> bool {
    1 <= n.0 <= 8 && 1 <= n.1 <= 8 && 1 <= n.2 <= 8
}

/// The rotors with the three numbers.
pub open spec fn rotors_of(n: (int, int, int)) -> (Rotor, Rotor, Rotor) {
    (Rotor::of_number(n.0), Rotor::of_number(n.1), Rotor::of_number(n.2))
}

impl IntoRotors for (u8, u8, u8) {
    open spec fn numbers(self) -> (int, int, int) {
        (self.0 as int, self.1 as int, self.2 as int)
    }

    fn try_into_rotors(self) -> (r: Result<(Rotor, Rotor, Rotor), CipherError>) {
        if 1 <= self.0 && self.0 <= 8 && 1 <= self.1 && self.1 <= 8 && 1 <= self.2 && self.2 <= 8 {
            Ok((Rotor::unchecked_from(self.0), Rotor::unchecked_from(self.1), Rotor::unchecked_from(self.2)))
        } else {
            Err(CipherError::InvalidConfiguration)
        }
    }

    fn unchecked_into_rotors(self) -> (r: (Rotor, Rotor, Rotor)) {
        (Rotor::unchecked_from(self.0), Rotor::unchecked_from(self.1), Rotor::unchecked_from(self.2))
    }
}

proof fn lemma_wiring_i()
    ensures
        capital_permutation(Rotor::I.wiring_text()),
{
    reveal_strlit("EKMFLGDQVZNTOWYHXUSPAIBRCJ");
    let s = "EKMFLGDQVZNTOWYHXUSPAIBRCJ"@;
    assert forall|code: u8| 65 <= code <= 90 implies #[trigger] found_below(codes_of(s), code, 26) by {
        reveal_with_fuel(found_below, 27);
    }
    lemma_searched_permutation(s);
}

proof fn lemma_wiring_ii()
    ensures
        capital_permutation(Rotor::II.wiring_text()),
{
    reveal_strlit("AJDKSIRUXBLHWTMCQGZNPYFVOE");
    let s = "AJDKSIRUXBLHWTMCQGZNPYFVOE"@;
    assert forall|code: u8| 65 <= code <= 90 implies #[trigger] found_below(codes_of(s), code, 26) by {
        reveal_with_fuel(found_below, 27);
    }
    lemma_searched_permutation(s);
}

proof fn lemma_wiring_iii()
    ensures
        capital_permutation(Rotor::III.wiring_text()),
{
    reveal_strlit("BDFHJLCPRTXVZNYEIWGAKMUSQO");
    let s = "BDFHJLCPRTXVZNYEIWGAKMUSQO"@;
    assert forall|code: u8| 65 <= code <= 90 implies #[trigger] found_below(codes_of(s), code, 26) by {
        reveal_with_fuel(found_below, 27);
    }
    lemma_searched_permutation(s);
}

proof fn lemma_wiring_iv()
    ensures
        capital_permutation(Rotor::IV.wiring_text()),
{
    reveal_strlit("ESOVPZJAYQUIRHXLNFTGKDCMWB");
    let s = "ESOVPZJAYQUIRHXLNFTGKDCMWB"@;
    assert forall|code: u8| 65 <= code <= 90 implies #[trigger] found_below(codes_of(s), code, 26) by {
        reveal_with_fuel(found_below, 27);
    }
    lemma_searched_permutation(s);
}

proof fn lemma_wiring_v()
    ensures
        capital_permutation(Rotor::V.wiring_text()),
{
    reveal_strlit("VZBRGITYUPSDNHLXAWMJQOFECK");
    let s = "VZBRGITYUPSDNHLXAWMJQOFECK"@;
    assert forall|code: u8| 65 <= code <= 90 implies #[trigger] found_below(codes_of(s), code, 26) by {
        reveal_with_fuel(found_below, 27);
    }
    lemma_searched_permutation(s);
}

proof fn lemma_wiring_vi()
    ensures
        capital_permutation(Rotor::VI.wiring_text()),
{
    reveal_strlit("JPGVOUMFYQBENHZRDKASXLICTW");
    let s = "JPGVOUMFYQBENHZRDKASXLICTW"@;
    assert forall|code: u8| 65 <= code <= 90 implies #[trigger] found_below(codes_of(s), code, 26) by {
        reveal_with_fuel(found_below, 27);
    }
    lemma_searched_permutation(s);
}

proof fn lemma_wiring_vii()
    ensures
        capital_permutation(Rotor::VII.wiring_text()),
{
    reveal_strlit("NZJHGRCXMYSWBOUFAIVLPEKQDT");
    let s = "NZJHGRCXMYSWBOUFAIVLPEKQDT"@;
    assert forall|code: u8| 65 <= code <= 90 implies #[trigger] found_below(codes_of(s), code, 26) by {
        reveal_with_fuel(found_below, 27);
    }
    lemma_searched_permutation(s);
}

proof fn lemma_wiring_viii()
    ensures
        capital_permutation(Rotor::VIII.wiring_text()),
{
    reveal_strlit("FKQHTLXOCBJSPDZRAMEWNIUYGV");
    let s = "FKQHTLXOCBJSPDZRAMEWNIUYGV"@;
    assert forall|code: u8| 65 <= code <= 90 implies #[trigger] found_below(codes_of(s), code, 26) by {
        reveal_with_fuel(found_below, 27);
    }
    lemma_searched_permutation(s);
}

/// Every rotor wires the 26 capitals to the 26 capitals, one to one.
pub proof fn lemma_wiring_is_permutation(r: Rotor)
    ensures
        capital_permutation(r.wiring_text()),
        permutation(r.wiring()),
{
    match r {
        Rotor::I => lemma_wiring_i(),
        Rotor::II => lemma_wiring_ii(),
        Rotor::III => lemma_wiring_iii(),
        Rotor::IV => lemma_wiring_iv(),
        Rotor::V => lemma_wiring_v(),
        Rotor::VI => lemma_wiring_vi(),
        Rotor::VII => lemma_wiring_vii(),
        Rotor::VIII => lemma_wiring_viii(),
    }
}

} // verus!
