//! The unchecked machine: its settings are taken as they come.

use vstd::prelude::*;
use crate::enigma::engine::{pairing, places, run, Settings};
use crate::enigma::machine::{blank, cables, parse_plugboard, rotor_numbers, unplugged, wired};
use crate::enigma::reflector::Reflector;
use crate::enigma::rotor::{IntoRotors, Rotor};
use crate::text::words;
use crate::enigma::MachineOptions;

verus! {

/// An Enigma machine whose settings were not validated.
pub struct UncheckedEnigmaMachine {
    pub(crate) rotors: (Rotor, Rotor, Rotor),
    pub(crate) ring_positions: (u8, u8, u8),
    pub(crate) ring_settings: (u8, u8, u8),
    pub(crate) reflector: Reflector,
    pub(crate) plugboard: Vec<u8>,
}

impl View for UncheckedEnigmaMachine {
    type V = Settings;

    closed spec fn view(&self) -> Settings {
        Settings {
            rotors: self.rotors,
            ring_positions: (
                self.ring_positions.0 as int,
                self.ring_positions.1 as int,
                self.ring_positions.2 as int,
            ),
            ring_settings: (
                self.ring_settings.0 as int,
                self.ring_settings.1 as int,
                self.ring_settings.2 as int,
            ),
            reflector: self.reflector,
            plugboard: self.plugboard@,
            options: MachineOptions { clear_casing: false, clear_punctuation: false, debug: false },
        }
    }
}

impl UncheckedEnigmaMachine {
    /// A machine with blank settings.
    pub(crate) fn blank() -> (m: UncheckedEnigmaMachine)
        ensures
            m@ == blank(),
    {
        let mut plugboard: Vec<u8> = Vec::new();
        let mut k: u8 = 0;
        while k < 26
            invariant
                k <= 26,
                plugboard@.len() == k,
                forall|p: int| 0 <= p < k ==> plugboard@[p] == p,
            decreases 26 - k,
        {
            plugboard.push(k);
            k += 1;
        }
        assert(plugboard@ =~= unplugged());
        UncheckedEnigmaMachine {
            rotors: (Rotor::I, Rotor::I, Rotor::I),
            ring_positions: (1, 1, 1),
            ring_settings: (1, 1, 1),
            reflector: Reflector::A,
            plugboard,
        }
    }

    /// Decrypts `text` as the checked machine does. The settings must be valid: the
    /// ring values places of the alphabet, the plugboard a pairing.
    pub fn decrypt_unchecked(&self, text: &str) -> (out: String)
        requires
            self@.wf(),
        ensures
            out@ == self@.crypt(text@),
    {
        let options = MachineOptions { clear_casing: false, clear_punctuation: false, debug: false };
        run(
            &self.rotors,
            self.ring_positions,
            self.ring_settings,
            &self.reflector,
            &self.plugboard,
            &options,
            text,
        )
    }

    /// Encrypts `text`; the same operation as [`UncheckedEnigmaMachine::decrypt_unchecked`].
    pub fn encrypt_unchecked(&self, text: &str) -> (out: String)
        requires
            self@.wf(),
        ensures
            out@ == self@.crypt(text@),
    {
        self.decrypt_unchecked(text)
    }
}

/// The steps by which an unchecked machine is built. No step validates: each asks of
/// its caller what the checked builder would test.
pub trait UncheckedEnigmaBuilder: Sized {
    /// The settings built so far.
    spec fn settings(self) -> Settings;

    /// Sets the three rotors by their numbers, each of which must be from 1 to 8.
    fn rotors(self, first: u8, second: u8, third: u8) -> (m: UncheckedEnigmaMachine)
        requires
            rotor_numbers(first, second, third),
        ensures
            m@ == (Settings {
                rotors: (
                    Rotor::of_number(first as int),
                    Rotor::of_number(second as int),
                    Rotor::of_number(third as int),
                ),
                ..self.settings()
            }),
    ;

    /// Sets the plugboard from words of two capital letters each, which must be
    /// separated by white space and use no letter twice.
    fn plugboard(self, plugboard: &str) -> (m: UncheckedEnigmaMachine)
        requires
            cables(words(plugboard@)),
        ensures
            wired(words(plugboard@), m@.plugboard),
            pairing(m@.plugboard),
            m@ == (Settings { plugboard: m@.plugboard, ..self.settings() }),
    ;

    /// Sets the reflector by its name, which must be written exactly: one of
    /// `A`, `B`, `C`, `BThin`, `CThin`, `UKWR`, `UKWK`.
    fn reflector(self, reflector: &str) -> (m: UncheckedEnigmaMachine)
        requires
            Reflector::named_exactly(reflector@) is Some,
        ensures
            m@ == (Settings { reflector: Reflector::named_exactly(reflector@)->Some_0, ..self.settings() }),
    ;

    /// Sets the ring settings as the caller counts them, from 1; none may be 0.
    fn ring_settings(self, first: u8, second: u8, third: u8) -> (m: UncheckedEnigmaMachine)
        requires
            first >= 1 && second >= 1 && third >= 1,
        ensures
            m@ == (Settings { ring_settings: (first - 1, second - 1, third - 1), ..self.settings() }),
    ;

    /// Sets the places at which the rotors start as the caller counts them, from 1;
    /// none may be 0.
    fn ring_positions(self, first: u8, second: u8, third: u8) -> (m: UncheckedEnigmaMachine)
        requires
            first >= 1 && second >= 1 && third >= 1,
        ensures
            m@ == (Settings { ring_positions: (first - 1, second - 1, third - 1), ..self.settings() }),
    ;

    /// The machine with the settings built so far.
    fn build(self) -> (m: UncheckedEnigmaMachine)
        ensures
            m@ == self.settings(),
    ;
}

impl UncheckedEnigmaBuilder for UncheckedEnigmaMachine {
    open spec fn settings(self) -> Settings {
        self@
    }

    fn rotors(self, first: u8, second: u8, third: u8) -> (m: UncheckedEnigmaMachine) {
        let mut machine = self;
        machine.rotors = (first, second, third).unchecked_into_rotors();
        machine
    }

    fn plugboard(self, plugboard: &str) -> (m: UncheckedEnigmaMachine) {
        let mut machine = self;
        machine.plugboard = parse_plugboard(plugboard).unwrap();
        machine
    }

    fn reflector(self, reflector: &str) -> (m: UncheckedEnigmaMachine) {
        let mut machine = self;
        machine.reflector = Reflector::unchecked_from(reflector);
        machine
    }

    fn ring_settings(self, first: u8, second: u8, third: u8) -> (m: UncheckedEnigmaMachine) {
        let mut machine = self;
        machine.ring_settings = (first - 1, second - 1, third - 1);
        machine
    }

    fn ring_positions(self, first: u8, second: u8, third: u8) -> (m: UncheckedEnigmaMachine) {
        let mut machine = self;
        machine.ring_positions = (first - 1, second - 1, third - 1);
        machine
    }

    fn build(self) -> (m: UncheckedEnigmaMachine) {
        self
    }
}

} // verus!
