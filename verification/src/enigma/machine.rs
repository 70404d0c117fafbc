//! The checked machine: every setting is validated while the machine is built.

use vstd::prelude::*;
use crate::error::CipherError;
use crate::enigma::alphabet::{AlphabetIndex, IntoAlphabetIndex};
use crate::enigma::engine::{pairing, places, run, Settings};
use crate::enigma::reflector::Reflector;
use crate::enigma::rotor::Rotor;
use crate::enigma::unchecked::UncheckedEnigmaMachine;
use crate::enigma::MachineOptions;
use crate::text::{is_upper, lower_text, low_byte, split_words, word_views, words};

verus! {

/// Whether the words of a plugboard text are cables: each word two capital letters
/// that differ, and no letter in two places.
pub open spec fn cables(ws: Seq<Seq<char>>) -> bool {
    &&& forall|i: int|
        0 <= i < ws.len() ==> (#[trigger] ws[i]).len() == 2 && is_upper(ws[i][0]) && is_upper(ws[i][1])
            && ws[i][0] != ws[i][1]
    &&& forall|i: int, j: int|
        0 <= i < j < ws.len() ==> (#[trigger] ws[i])[0] != (#[trigger] ws[j])[0] && ws[i][0] != ws[j][1]
            && ws[i][1] != ws[j][0] && ws[i][1] != ws[j][1]
}

/// Whether a cable of `ws` ends at place `p`.
pub open spec fn plugged(ws: Seq<Seq<char>>, p: int) -> bool {
    exists|i: int| 0 <= i < ws.len() && ((#[trigger] ws[i])[0] as int - 65 == p || ws[i][1] as int - 65 == p)
}

/// Whether `board` is the plugboard with the cables `ws`: the two ends of each cable
/// are sent to each other, and every other place to itself.
pub open spec fn wired(ws: Seq<Seq<char>>, board: Seq<u8>) -> bool {
    &&& board.len() == 26
    &&& forall|i: int|
        0 <= i < ws.len() ==> board[(#[trigger] ws[i])[0] as int - 65] as int == ws[i][1] as int - 65
            && board[ws[i][1] as int - 65] as int == ws[i][0] as int - 65
    &&& forall|p: int| 0 <= p < 26 && !plugged(ws, p) ==> #[trigger] board[p] as int == p
}

/// The plugboard that the text `plugboard` describes: words of two capital letters each,
/// separated by white space, with no letter used twice.
pub fn parse_plugboard(plugboard: &str) -> (r: Result<Vec<u8>, CipherError>)
    ensures
        cables(words(plugboard@)) ==> r is Ok && wired(words(plugboard@), r->Ok_0@) && pairing(r->Ok_0@),
        !cables(words(plugboard@)) ==> r is Err && r->Err_0 == CipherError::InvalidConfiguration,
{
    let pairs = split_words(plugboard);
    let ghost ws = words(plugboard@);
    let mut board: Vec<u8> = Vec::new();
    let mut k: u8 = 0;
    while k < 26
        invariant
            k <= 26,
            board@.len() == k,
            forall|p: int| 0 <= p < k ==> board@[p] == p,
        decreases 26 - k,
    {
        board.push(k);
        k += 1;
    }
    let mut i: usize = 0;
    while i < pairs.len()
        invariant
            i <= pairs.len(),
            word_views(pairs@) == ws,
            ws == words(plugboard@),
            cables(ws.take(i as int)),
            wired(ws.take(i as int), board@),
            pairing(board@),
            forall|p: int| 0 <= p < 26 && plugged(ws.take(i as int), p) ==> #[trigger] board@[p] as int != p,
        decreases pairs.len() - i,
    {
        let pair = &pairs[i];
        let ghost done = ws.take(i as int);
        let ghost old_board = board@;
        assert(ws[i as int] == pair@);
        if pair.len() != 2 {
            return Err(CipherError::InvalidConfiguration);
        }
        let first = pair[0];
        let second = pair[1];
        if !('A' <= first && first <= 'Z' && 'A' <= second && second <= 'Z') || first == second {
            return Err(CipherError::InvalidConfiguration);
        }
        let a = low_byte(first) - 65;
        let b = low_byte(second) - 65;
        if board[a as usize] != a || board[b as usize] != b {
            proof {
                let p = if board[a as int] != a { a as int } else { b as int };
                assert(plugged(done, p));
                let j = choose|j: int| 0 <= j < done.len() && ((#[trigger] done[j])[0] as int - 65 == p
                    || done[j][1] as int - 65 == p);
                assert(done[j] == ws[j]);
            }
            return Err(CipherError::InvalidConfiguration);
        }
        board.set(a as usize, b);
        board.set(b as usize, a);
        proof {
            let now = ws.take(i + 1);
            assert(now.drop_last() == done);
            assert(now[i as int] == ws[i as int]);
            assert forall|j: int| 0 <= j < i implies now[j] == done[j] && (#[trigger] done[j])[0] as int - 65
                != a && done[j][0] as int - 65 != b && done[j][1] as int - 65 != a && done[j][1] as int
                - 65 != b by {
                assert(plugged(done, done[j][0] as int - 65));
                assert(plugged(done, done[j][1] as int - 65));
            }
            assert(cables(now)) by {
                assert forall|x: int, y: int| 0 <= x < y < now.len() implies (#[trigger] now[x])[0] != (
                #[trigger] now[y])[0] && now[x][0] != now[y][1] && now[x][1] != now[y][0] && now[x][1]
                    != now[y][1] by {
                    if y < i {
                        assert(now[x] == done[x] && now[y] == done[y]);
                    } else {
                        assert(now[x] == done[x]);
                    }
                }
                assert forall|x: int| 0 <= x < now.len() implies (#[trigger] now[x]).len() == 2
                    && is_upper(now[x][0]) && is_upper(now[x][1]) && now[x][0] != now[x][1] by {
                    if x < i {
                        assert(now[x] == done[x]);
                    }
                }
            }
            assert forall|p: int| 0 <= p < 26 implies (plugged(now, p) <==> (plugged(done, p) || p == a
                || p == b)) by {
                if plugged(done, p) {
                    let j = choose|j: int| 0 <= j < done.len() && ((#[trigger] done[j])[0] as int - 65
                        == p || done[j][1] as int - 65 == p);
                    assert(now[j] == done[j]);
                }
                if p == a || p == b {
                    assert(now[i as int][0] as int - 65 == a);
                }
                if plugged(now, p) {
                    let j = choose|j: int| 0 <= j < now.len() && ((#[trigger] now[j])[0] as int - 65 == p
                        || now[j][1] as int - 65 == p);
                    if j < i {
                        assert(now[j] == done[j]);
                    }
                }
            }
            assert(wired(now, board@)) by {
                assert forall|x: int| 0 <= x < now.len() implies board@[(#[trigger] now[x])[0] as int
                    - 65] as int == now[x][1] as int - 65 && board@[now[x][1] as int - 65] as int
                    == now[x][0] as int - 65 by {
                    if x < i {
                        assert(now[x] == done[x]);
                    }
                }
            }
            assert(pairing(board@)) by {
                assert forall|p: int| 0 <= p < 26 implies 0 <= #[trigger] board@[p] < 26 && board@[board@[p] as int]
                    == p by {
                    if p != a && p != b {
                        assert(board@[p] == old_board[p]);
                        assert(old_board[old_board[p] as int] == p);
                    }
                }
            }
        }
        i += 1;
    }
    assert(ws.take(pairs.len() as int) == ws);
    Ok(board)
}

/// An Enigma machine with validated settings, which encrypts and decrypts text.
pub struct EnigmaMachine {
    rotors: (Rotor, Rotor, Rotor),
    ring_positions: (AlphabetIndex, AlphabetIndex, AlphabetIndex),
    ring_settings: (AlphabetIndex, AlphabetIndex, AlphabetIndex),
    reflector: Reflector,
    plugboard: Vec<u8>,
    options: MachineOptions,
}

impl View for EnigmaMachine {
    type V = Settings;

    closed spec fn view(&self) -> Settings {
        Settings {
            rotors: self.rotors,
            ring_positions: (
                self.ring_positions.0.value(),
                self.ring_positions.1.value(),
                self.ring_positions.2.value(),
            ),
            ring_settings: (
                self.ring_settings.0.value(),
                self.ring_settings.1.value(),
                self.ring_settings.2.value(),
            ),
            reflector: self.reflector,
            plugboard: self.plugboard@,
            options: self.options,
        }
    }
}

/// The plugboard without cables: every place is sent to itself.
pub open spec fn unplugged() -> Seq<u8> {
    Seq::new(26, |p: int| p as u8)
}

/// The settings of a machine before any of them is chosen: the first rotor three times,
/// every ring value 1, reflector A, no cable and no option.
pub open spec fn blank() -> Settings {
    Settings {
        rotors: (Rotor::I, Rotor::I, Rotor::I),
        ring_positions: (1, 1, 1),
        ring_settings: (1, 1, 1),
        reflector: Reflector::A,
        plugboard: unplugged(),
        options: MachineOptions { clear_casing: false, clear_punctuation: false, debug: false },
    }
}

/// Whether each of three numbers is a rotor's number.
pub open spec fn rotor_numbers(first: u8, second: u8, third: u8) -> bool {
    1 <= first <= 8 && 1 <= second <= 8 && 1 <= third <= 8
}

/// Whether each of three numbers is a ring value as the caller counts them, from 1 to 26.
pub open spec fn ring_numbers(first: u8, second: u8, third: u8) -> bool {
    1 <= first <= 26 && 1 <= second <= 26 && 1 <= third <= 26
}

impl EnigmaMachine {
    #[verifier::type_invariant]
    spec fn valid(self) -> bool {
        pairing(self.plugboard@) && places(self@.ring_positions) && places(self@.ring_settings)
    }

    /// A machine with blank settings, to be completed by the methods of [`EnigmaBuilder`].
    #[allow(clippy::new_ret_no_self)]
    pub fn new() -> (r: Result<EnigmaMachine, CipherError>)
        ensures
            r is Ok,
            r->Ok_0@ == blank(),
            r->Ok_0@.wf(),
    {
        let mut plugboard: Vec<u8> = Vec::new();
        let mut k: u8 = 0;
        while k < 26
            invariant
                k <= 26,
                plugboard@.len() == k,
                forall|p: int| 0 <= p < k ==> plugboard@[p] == p,
            decreases 26 - k,
        {
            plugboard.push(k);
            k += 1;
        }
        assert(plugboard@ =~= unplugged());
        let one = AlphabetIndex::try_from(1).unwrap();
        Ok(
            EnigmaMachine {
                rotors: (Rotor::I, Rotor::I, Rotor::I),
                ring_positions: (one, one, one),
                ring_settings: (one, one, one),
                reflector: Reflector::A,
                plugboard,
                options: MachineOptions::default(),
            },
        )
    }

    /// A machine with blank settings whose builder validates nothing.
    pub fn unchecked() -> (m: UncheckedEnigmaMachine)
        ensures
            m@ == blank(),
    {
        UncheckedEnigmaMachine::blank()
    }

    /// Decrypts `text`: puts it in capitals and runs it through the machine, starting
    /// from the ring positions. Each capital letter steps the rotors and is then
    /// substituted; any other character is kept, or dropped where the options say so.
    pub fn decrypt(&self, text: &str) -> (out: String)
        ensures
            out@ == self@.crypt(text@),
            self@.wf(),
    {
        proof {
            use_type_invariant(self);
        }
        run(
            &self.rotors,
            (self.ring_positions.0.get(), self.ring_positions.1.get(), self.ring_positions.2.get()),
            (self.ring_settings.0.get(), self.ring_settings.1.get(), self.ring_settings.2.get()),
            &self.reflector,
            &self.plugboard,
            &self.options,
            text,
        )
    }

    /// Encrypts `text`. The machine is its own inverse, so this is [`EnigmaMachine::decrypt`].
    pub fn encrypt(&self, text: &str) -> (out: String)
        ensures
            out@ == self@.crypt(text@),
            self@.wf(),
    {
        self.decrypt(text)
    }
}

/// The steps by which a machine is built. Each step takes the machine built so far, or
/// the failure of an earlier step, and hands on the machine with one setting changed,
/// or a failure: the earlier one, or its own where the setting is invalid.
pub trait EnigmaBuilder: Sized {
    /// The settings built so far, or the failure of an earlier step.
    spec fn state(self) -> Result<Settings, CipherError>;

    /// Sets the three rotors by their numbers, each from 1 to 8.
    fn rotors(self, first: u8, second: u8, third: u8) -> (r: Result<EnigmaMachine, CipherError>)
        ensures
            self.state() is Err ==> r is Err && r->Err_0 == self.state()->Err_0,
            self.state() is Ok && !rotor_numbers(first, second, third) ==> r is Err && r->Err_0
                == CipherError::InvalidConfiguration,
            self.state() is Ok && rotor_numbers(first, second, third) ==> r is Ok && r->Ok_0@ == (Settings {
                rotors: (
                    Rotor::of_number(first as int),
                    Rotor::of_number(second as int),
                    Rotor::of_number(third as int),
                ),
                ..self.state()->Ok_0
            }),
    ;

    /// Sets the plugboard from words of two capital letters each, separated by white
    /// space; a letter may occur once in the whole text.
    fn plugboard(self, plugboard: &str) -> (r: Result<EnigmaMachine, CipherError>)
        ensures
            self.state() is Err ==> r is Err && r->Err_0 == self.state()->Err_0,
            self.state() is Ok && !cables(words(plugboard@)) ==> r is Err && r->Err_0
                == CipherError::InvalidConfiguration,
            self.state() is Ok && cables(words(plugboard@)) ==> r is Ok && wired(
                words(plugboard@),
                r->Ok_0@.plugboard,
            ) && r->Ok_0@ == (Settings { plugboard: r->Ok_0@.plugboard, ..self.state()->Ok_0 }),
    ;

    /// Sets the reflector by its name, in capitals or small letters.
    fn reflector(self, reflector: &str) -> (r: Result<EnigmaMachine, CipherError>)
        ensures
            self.state() is Err ==> r is Err && r->Err_0 == self.state()->Err_0,
            self.state() is Ok && Reflector::named(lower_text(reflector@)) is None ==> r is Err
                && r->Err_0 == CipherError::InvalidConfiguration,
            self.state() is Ok && Reflector::named(lower_text(reflector@)) is Some ==> r is Ok
                && r->Ok_0@ == (Settings {
                reflector: Reflector::named(lower_text(reflector@))->Some_0,
                ..self.state()->Ok_0
            }),
    ;

    /// Sets the ring settings, each from 1 to 26.
    fn ring_settings(self, first: u8, second: u8, third: u8) -> (r: Result<EnigmaMachine, CipherError>)
        ensures
            self.state() is Err ==> r is Err && r->Err_0 == self.state()->Err_0,
            self.state() is Ok && !ring_numbers(first, second, third) ==> r is Err && r->Err_0
                == CipherError::InvalidConfiguration,
            self.state() is Ok && ring_numbers(first, second, third) ==> r is Ok && r->Ok_0@ == (Settings {
                ring_settings: (first - 1, second - 1, third - 1),
                ..self.state()->Ok_0
            }),
    ;

    /// Sets the places at which the rotors start, each from 1 to 26.
    fn ring_positions(self, first: u8, second: u8, third: u8) -> (r: Result<EnigmaMachine, CipherError>)
        ensures
            self.state() is Err ==> r is Err && r->Err_0 == self.state()->Err_0,
            self.state() is Ok && !ring_numbers(first, second, third) ==> r is Err && r->Err_0
                == CipherError::InvalidConfiguration,
            self.state() is Ok && ring_numbers(first, second, third) ==> r is Ok && r->Ok_0@ == (Settings {
                ring_positions: (first - 1, second - 1, third - 1),
                ..self.state()->Ok_0
            }),
    ;

    /// Gives up the casing of the input.
    fn clear_casing(self) -> (r: Result<EnigmaMachine, CipherError>)
        ensures
            self.state() is Err ==> r is Err && r->Err_0 == self.state()->Err_0,
            self.state() is Ok ==> r is Ok && r->Ok_0@ == (Settings {
                options: MachineOptions { clear_casing: true, ..self.state()->Ok_0.options },
                ..self.state()->Ok_0
            }),
    ;

    /// Asks for a report of each stage of the substitution.
    fn debug(self) -> (r: Result<EnigmaMachine, CipherError>)
        ensures
            self.state() is Err ==> r is Err && r->Err_0 == self.state()->Err_0,
            self.state() is Ok ==> r is Ok && r->Ok_0@ == (Settings {
                options: MachineOptions { debug: true, ..self.state()->Ok_0.options },
                ..self.state()->Ok_0
            }),
    ;
}

impl EnigmaBuilder for Result<EnigmaMachine, CipherError> {
    open spec fn state(self) -> Result<Settings, CipherError> {
        match self {
            Ok(machine) => Ok(machine@),
            Err(error) => Err(error),
        }
    }

    fn rotors(self, first: u8, second: u8, third: u8) -> (r: Result<EnigmaMachine, CipherError>) {
        match self {
            Err(error) => Err(error),
            Ok(machine) => {
                proof {
                    use_type_invariant(&machine);
                }
                if 1 <= first && first <= 8 && 1 <= second && second <= 8 && 1 <= third && third <= 8 {
                    Ok(
                        EnigmaMachine {
                            rotors: (
                                Rotor::unchecked_from(first),
                                Rotor::unchecked_from(second),
                                Rotor::unchecked_from(third),
                            ),
                            ..machine
                        },
                    )
                } else {
                    Err(CipherError::InvalidConfiguration)
                }
            },
        }
    }

    fn plugboard(self, plugboard: &str) -> (r: Result<EnigmaMachine, CipherError>) {
        match self {
            Err(error) => Err(error),
            Ok(machine) => {
                proof {
                    use_type_invariant(&machine);
                }
                match parse_plugboard(plugboard) {
                    Ok(board) => Ok(EnigmaMachine { plugboard: board, ..machine }),
                    Err(error) => Err(error),
                }
            },
        }
    }

    fn reflector(self, reflector: &str) -> (r: Result<EnigmaMachine, CipherError>) {
        match self {
            Err(error) => Err(error),
            Ok(machine) => {
                proof {
                    use_type_invariant(&machine);
                }
                match Reflector::try_from(reflector) {
                    Ok(chosen) => Ok(EnigmaMachine { reflector: chosen, ..machine }),
                    Err(error) => Err(error),
                }
            },
        }
    }

    fn ring_settings(self, first: u8, second: u8, third: u8) -> (r: Result<EnigmaMachine, CipherError>) {
        match self {
            Err(error) => Err(error),
            Ok(machine) => {
                proof {
                    use_type_invariant(&machine);
                }
                if first == 0 || second == 0 || third == 0 {
                    return Err(CipherError::InvalidConfiguration);
                }
                match (first - 1, second - 1, third - 1).try_into_alphabet_index() {
                    Ok(rings) => Ok(EnigmaMachine { ring_settings: rings, ..machine }),
                    Err(error) => Err(error),
                }
            },
        }
    }

    fn ring_positions(self, first: u8, second: u8, third: u8) -> (r: Result<EnigmaMachine, CipherError>) {
        match self {
            Err(error) => Err(error),
            Ok(machine) => {
                proof {
                    use_type_invariant(&machine);
                }
                if first == 0 || second == 0 || third == 0 {
                    return Err(CipherError::InvalidConfiguration);
                }
                match (first - 1, second - 1, third - 1).try_into_alphabet_index() {
                    Ok(rings) => Ok(EnigmaMachine { ring_positions: rings, ..machine }),
                    Err(error) => Err(error),
                }
            },
        }
    }

    fn clear_casing(self) -> (r: Result<EnigmaMachine, CipherError>) {
        match self {
            Err(error) => Err(error),
            Ok(machine) => {
                proof {
                    use_type_invariant(&machine);
                }
                let options = MachineOptions { clear_casing: true, ..machine.options };
                Ok(EnigmaMachine { options, ..machine })
            },
        }
    }

    fn debug(self) -> (r: Result<EnigmaMachine, CipherError>) {
        match self {
            Err(error) => Err(error),
            Ok(machine) => {
                proof {
                    use_type_invariant(&machine);
                }
                let options = MachineOptions { debug: true, ..machine.options };
                Ok(EnigmaMachine { options, ..machine })
            },
        }
    }
}

} // verus!
