//! The seven reflectors: fixed pairings of the 26 letters.

use vstd::prelude::*;
use crate::error::CipherError;
use crate::enigma::alphabet::{
    capital_permutation, codes_of, found_below, is_first_at, lemma_position,
    lemma_searched_permutation, position,
};
use crate::text::{chars_of, lower_text, same_text, to_lowercase};

verus! {

/// A reflector of an Enigma machine.
#[derive(Clone, Copy, Debug, PartialEq, Eq, Structural, Hash)]
pub enum Reflector {
    A,
    B,
    C,
    BThin,
    CThin,
    Ukwr,
    Ukwk,
}

/// Whether `n` places of the wiring `w`, from the first on, are paired: the letter
/// wired to a place is wired back to it, and is another letter.
pub open spec fn paired_below(w: Seq<u8>, n: nat) -> bool
    decreases n,
{
    n == 0 || (w[w[n - 1] - 65] == 65 + n - 1 && w[n - 1] != 65 + n - 1 && paired_below(w, (n - 1) as nat))
}

/// What `paired_below` says of each single place.
pub proof fn lemma_paired_below(w: Seq<u8>, n: nat, p: int)
    requires
        paired_below(w, n),
        0 <= p < n,
    ensures
        w[w[p] - 65] == 65 + p,
        w[p] != 65 + p,
    decreases n,
{
    if p < n - 1 {
        lemma_paired_below(w, (n - 1) as nat, p);
    }
}

impl Reflector {
    /// The letters to which this reflector wires `A` to `Z`, in that order.
    pub open spec fn wiring_text(self) -> Seq<char> {
        match self {
            Reflector::A => "EJMZALYXVBWFCRQUONTSPIKHGD"@,
            Reflector::B => "YRUHQSLDPXNGOKMIEBFZCWVJAT"@,
            Reflector::C => "FVPJIAOYEDRZXWGCTKUQSBNMHL"@,
            Reflector::BThin => "ENKQAUYWJICOPBLMDXZVFTHRGS"@,
            Reflector::CThin => "RDOBJNTKVEHMLFCWZAXGYIPSUQ"@,
            Reflector::Ukwr => "QYHOGNECVPUZTFDJAXWMKISRBL"@,
            Reflector::Ukwk => "IMETCGFRAYSQBZXWLHKDVUPOJN"@,
        }
    }

    /// The codes of the letters to which this reflector wires `A` to `Z`.
    pub open spec fn wiring(self) -> Seq<u8> {
        codes_of(self.wiring_text())
    }

    /// The place of the letter that the letter at place `p` is turned into: the place
    /// at which the wiring holds that letter.
    pub open spec fn reflected(self, p: int) -> int {
        position(self.wiring(), (65 + p) as u8)
    }

    /// The reflector that a lower-case name stands for, if any.
    pub open spec fn named(name: Seq<char>) -> Option<Reflector> {
        if name == "a"@ {
            Some(Reflector::A)
        }         else if name == "b"@ {
            Some(Reflector::B)
        }         else if name == "c"@ {
            Some(Reflector::C)
        }         else if name == "bthin"@ {
            Some(Reflector::BThin)
        }         else if name == "cthin"@ {
            Some(Reflector::CThin)
        }         else if name == "ukwr"@ {
            Some(Reflector::Ukwr)
        }         else if name == "ukwk"@ {
            Some(Reflector::Ukwk)
        } else {
            None
        }
    }

    /// The reflector that a name stands for when it is written exactly, if any.
    pub open spec fn named_exactly(name: Seq<char>) -> Option<Reflector> {
        if name == "A"@ {
            Some(Reflector::A)
        }         else if name == "B"@ {
            Some(Reflector::B)
        }         else if name == "C"@ {
            Some(Reflector::C)
        }         else if name == "BThin"@ {
            Some(Reflector::BThin)
        }         else if name == "CThin"@ {
            Some(Reflector::CThin)
        }         else if name == "UKWR"@ {
            Some(Reflector::Ukwr)
        }         else if name == "UKWK"@ {
            Some(Reflector::Ukwk)
        } else {
            None
        }
    }

    /// For each letter `A` to `Z`, in that order, the letter that this reflector turns it into.
    pub fn alphabet(&self) -> (table: Vec<char>)
        ensures
            table@.len() == 26,
            forall|p: int| 0 <= p < 26 ==> #[trigger] table@[p] as int == 65 + self.reflected(p),
    {
        let text = match self {
            Reflector::A => "EJMZALYXVBWFCRQUONTSPIKHGD",
            Reflector::B => "YRUHQSLDPXNGOKMIEBFZCWVJAT",
            Reflector::C => "FVPJIAOYEDRZXWGCTKUQSBNMHL",
            Reflector::BThin => "ENKQAUYWJICOPBLMDXZVFTHRGS",
            Reflector::CThin => "RDOBJNTKVEHMLFCWZAXGYIPSUQ",
            Reflector::Ukwr => "QYHOGNECVPUZTFDJAXWMKISRBL",
            Reflector::Ukwk => "IMETCGFRAYSQBZXWLHKDVUPOJN",
        };
        let wiring = chars_of(text);
        proof {
            lemma_reflector_wiring(*self);
        }
        let mut table: Vec<char> = Vec::new();
        let mut i: usize = 0;
        while i < 26
            invariant
                i <= 26,
                table@.len() == i,
                forall|k: int| 0 <= k < i ==> table@[k] == 'A',
            decreases 26 - i,
        {
            table.push('A');
            i += 1;
        }
        let mut i: usize = 0;
        while i < 26
            invariant
                i <= 26,
                table@.len() == 26,
                wiring@ == self.wiring_text(),
                capital_permutation(wiring@),
                forall|k: int| 0 <= k < i ==> table@[wiring@[k] as int - 65] as int == 65 + k,
            decreases 26 - i,
        {
            let to = wiring[i];
            let slot = (to as u8 - 65) as usize;
            let ghost before = table@;
            table.set(slot, ((65 + i) as u8) as char);
            proof {
                assert forall|k: int| 0 <= k < i + 1 implies table@[wiring@[k] as int - 65] as int == 65
                    + k by {
                    if k < i {
                        assert(codes_of(wiring@)[k] != codes_of(wiring@)[i as int]);
                        assert(before[wiring@[k] as int - 65] as int == 65 + k);
                    }
                }
            }
            i += 1;
        }
        proof {
            let w = self.wiring();
            assert forall|p: int| 0 <= p < 26 implies #[trigger] table@[p] as int == 65 + self.reflected(
                p,
            ) by {
                lemma_reflected(*self, p);
                let q = self.reflected(p);
                assert(w[q] == 65 + p);
                assert(w[p] == 65 + q);
                assert(table@[wiring@[q] as int - 65] as int == 65 + q);
            }
        }
        table
    }

    /// The reflector with the given name, which must be written exactly: one of
    /// `A`, `B`, `C`, `BThin`, `CThin`, `UKWR`, `UKWK`.
    pub fn unchecked_from(value: &str) -> (r: Reflector)
        requires
            Reflector::named_exactly(value@) is Some,
        ensures
            Some(r) == Reflector::named_exactly(value@),
    {
        if same_text(value, "A") {
            Reflector::A
        }         else if same_text(value, "B") {
            Reflector::B
        }         else if same_text(value, "C") {
            Reflector::C
        }         else if same_text(value, "BThin") {
            Reflector::BThin
        }         else if same_text(value, "CThin") {
            Reflector::CThin
        }         else if same_text(value, "UKWR") {
            Reflector::Ukwr
        } else {
            Reflector::Ukwk
        }
    }

    /// The reflector with the given name, in capitals or small letters; fails for any other name.
    pub fn try_from(value: &str) -> (r: Result<Reflector, CipherError>)
        ensures
            match Reflector::named(lower_text(value@)) {
                Some(reflector) => r == Ok::<Reflector, CipherError>(reflector),
                None => r == Err::<Reflector, CipherError>(CipherError::InvalidConfiguration),
            },
    {
        let lower = to_lowercase(value);
        let name = lower.as_str();
        if same_text(name, "a") {
            Ok(Reflector::A)
        }         else if same_text(name, "b") {
            Ok(Reflector::B)
        }         else if same_text(name, "c") {
            Ok(Reflector::C)
        }         else if same_text(name, "bthin") {
            Ok(Reflector::BThin)
        }         else if same_text(name, "cthin") {
            Ok(Reflector::CThin)
        }         else if same_text(name, "ukwr") {
            Ok(Reflector::Ukwr)
        }         else if same_text(name, "ukwk") {
            Ok(Reflector::Ukwk)
        } else {
            Err(CipherError::InvalidConfiguration)
        }
    }
}

proof fn lemma_wiring_a()
    ensures
        capital_permutation(Reflector::A.wiring_text()),
        paired_below(Reflector::A.wiring(), 26),
{
    reveal_strlit("EJMZALYXVBWFCRQUONTSPIKHGD");
    let s = "EJMZALYXVBWFCRQUONTSPIKHGD"@;
    assert forall|code: u8| 65 <= code <= 90 implies #[trigger] found_below(codes_of(s), code, 26) by {
        reveal_with_fuel(found_below, 27);
    }
    lemma_searched_permutation(s);
    assert(paired_below(codes_of(s), 26)) by {
        reveal_with_fuel(paired_below, 27);
    }
}

proof fn lemma_wiring_b()
    ensures
        capital_permutation(Reflector::B.wiring_text()),
        paired_below(Reflector::B.wiring(), 26),
{
    reveal_strlit("YRUHQSLDPXNGOKMIEBFZCWVJAT");
    let s = "YRUHQSLDPXNGOKMIEBFZCWVJAT"@;
    assert forall|code: u8| 65 <= code <= 90 implies #[trigger] found_below(codes_of(s), code, 26) by {
        reveal_with_fuel(found_below, 27);
    }
    lemma_searched_permutation(s);
    assert(paired_below(codes_of(s), 26)) by {
        reveal_with_fuel(paired_below, 27);
    }
}

proof fn lemma_wiring_c()
    ensures
        capital_permutation(Reflector::C.wiring_text()),
        paired_below(Reflector::C.wiring(), 26),
{
    reveal_strlit("FVPJIAOYEDRZXWGCTKUQSBNMHL");
    let s = "FVPJIAOYEDRZXWGCTKUQSBNMHL"@;
    assert forall|code: u8| 65 <= code <= 90 implies #[trigger] found_below(codes_of(s), code, 26) by {
        reveal_with_fuel(found_below, 27);
    }
    lemma_searched_permutation(s);
    assert(paired_below(codes_of(s), 26)) by {
        reveal_with_fuel(paired_below, 27);
    }
}

proof fn lemma_wiring_bthin()
    ensures
        capital_permutation(Reflector::BThin.wiring_text()),
        paired_below(Reflector::BThin.wiring(), 26),
{
    reveal_strlit("ENKQAUYWJICOPBLMDXZVFTHRGS");
    let s = "ENKQAUYWJICOPBLMDXZVFTHRGS"@;
    assert forall|code: u8| 65 <= code <= 90 implies #[trigger] found_below(codes_of(s), code, 26) by {
        reveal_with_fuel(found_below, 27);
    }
    lemma_searched_permutation(s);
    assert(paired_below(codes_of(s), 26)) by {
        reveal_with_fuel(paired_below, 27);
    }
}

proof fn lemma_wiring_cthin()
    ensures
        capital_permutation(Reflector::CThin.wiring_text()),
        paired_below(Reflector::CThin.wiring(), 26),
{
    reveal_strlit("RDOBJNTKVEHMLFCWZAXGYIPSUQ");
    let s = "RDOBJNTKVEHMLFCWZAXGYIPSUQ"@;
    assert forall|code: u8| 65 <= code <= 90 implies #[trigger] found_below(codes_of(s), code, 26) by {
        reveal_with_fuel(found_below, 27);
    }
    lemma_searched_permutation(s);
    assert(paired_below(codes_of(s), 26)) by {
        reveal_with_fuel(paired_below, 27);
    }
}

proof fn lemma_wiring_ukwr()
    ensures
        capital_permutation(Reflector::Ukwr.wiring_text()),
        paired_below(Reflector::Ukwr.wiring(), 26),
{
    reveal_strlit("QYHOGNECVPUZTFDJAXWMKISRBL");
    let s = "QYHOGNECVPUZTFDJAXWMKISRBL"@;
    assert forall|code: u8| 65 <= code <= 90 implies #[trigger] found_below(codes_of(s), code, 26) by {
        reveal_with_fuel(found_below, 27);
    }
    lemma_searched_permutation(s);
    assert(paired_below(codes_of(s), 26)) by {
        reveal_with_fuel(paired_below, 27);
    }
}

proof fn lemma_wiring_ukwk()
    ensures
        capital_permutation(Reflector::Ukwk.wiring_text()),
        paired_below(Reflector::Ukwk.wiring(), 26),
{
    reveal_strlit("IMETCGFRAYSQBZXWLHKDVUPOJN");
    let s = "IMETCGFRAYSQBZXWLHKDVUPOJN"@;
    assert forall|code: u8| 65 <= code <= 90 implies #[trigger] found_below(codes_of(s), code, 26) by {
        reveal_with_fuel(found_below, 27);
    }
    lemma_searched_permutation(s);
    assert(paired_below(codes_of(s), 26)) by {
        reveal_with_fuel(paired_below, 27);
    }
}

/// Every reflector wires the 26 capitals to the 26 capitals, one to one and in pairs.
pub proof fn lemma_reflector_wiring(r: Reflector)
    ensures
        capital_permutation(r.wiring_text()),
        paired_below(r.wiring(), 26),
{
    match r {
        Reflector::A => lemma_wiring_a(),
        Reflector::B => lemma_wiring_b(),
        Reflector::C => lemma_wiring_c(),
        Reflector::BThin => lemma_wiring_bthin(),
        Reflector::CThin => lemma_wiring_cthin(),
        Reflector::Ukwr => lemma_wiring_ukwr(),
        Reflector::Ukwk => lemma_wiring_ukwk(),
    }
}

/// The letter that a reflector turns a letter into is the one that its wiring holds
/// at that letter's place.
pub proof fn lemma_reflected(r: Reflector, p: int)
    requires
        0 <= p < 26,
    ensures
        0 <= r.reflected(p) < 26,
        r.reflected(p) == r.wiring()[p] - 65,
        r.wiring()[r.reflected(p)] == 65 + p,
{
    lemma_reflector_wiring(r);
    let w = r.wiring();
    lemma_paired_below(w, 26, p);
    let q = w[p] - 65;
    assert(0 <= q < 26);
    assert(is_first_at(w, (65 + p) as u8, q));
    lemma_position(w, (65 + p) as u8, q);
}

/// No reflector turns a letter into itself, and each turns the letter that a
/// letter becomes back into that letter.
pub proof fn law_reflector_pairs(r: Reflector, p: int)
    requires
        0 <= p < 26,
    ensures
        0 <= r.reflected(p) < 26,
        r.reflected(p) != p,
        r.reflected(r.reflected(p)) == p,
{
    lemma_reflector_wiring(r);
    lemma_reflected(r, p);
    lemma_paired_below(r.wiring(), 26, p);
    lemma_reflected(r, r.reflected(p));
}

} // verus!
