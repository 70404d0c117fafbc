//! The search for the settings of an Enigma machine: every choice of rotors and
//! starting places is tried, then every ring setting, and the settings are kept
//! whose plaintext has the index of coincidence closest to that of English.

use vstd::prelude::*;
use crate::analysis::ioc_of;
use crate::enigma::engine::{pairing, run, Settings};
use crate::enigma::machine::{cables, parse_plugboard, wired};
use crate::enigma::reflector::Reflector;
use crate::enigma::rotor::Rotor;
use crate::enigma::MachineOptions;
use crate::error::CipherError;
use crate::score::{coincidence_fit, coincidence_score};
use crate::text::{lower_text, words};

verus! {

/// The number of choices of three rotors and three starting places: 8^3 * 26^3.
pub const ROTOR_TRIALS: u32 = 8_998_912;

/// The number of choices of three ring values: 26^3.
pub const RING_TRIALS: u32 = 17_576;

/// The settings of a trial: rotors by their numbers from 1, starting places and ring
/// settings as the caller counts them, from 1.
pub open spec fn trial(
    board: Seq<u8>,
    reflector: Reflector,
    rotors: (int, int, int),
    places: (int, int, int),
    rings: (int, int, int),
) -> Settings {
    Settings {
        rotors: (Rotor::of_number(rotors.0), Rotor::of_number(rotors.1), Rotor::of_number(rotors.2)),
        ring_positions: (places.0 - 1, places.1 - 1, places.2 - 1),
        ring_settings: (rings.0 - 1, rings.1 - 1, rings.2 - 1),
        reflector,
        plugboard: board,
        options: MachineOptions { clear_casing: false, clear_punctuation: false, debug: false },
    }
}

/// The rotors of trial `t`: the first changes slowest, the third fastest.
pub open spec fn rotors_at(t: int) -> (int, int, int) {
    (t / 1_124_864 + 1, (t / 140_608) % 8 + 1, (t / 17_576) % 8 + 1)
}

/// The three ring values of trial `t`, each from 1 to 26: the third changes fastest.
pub open spec fn rings_at(t: int) -> (int, int, int) {
    ((t / 676) % 26 + 1, (t / 26) % 26 + 1, t % 26 + 1)
}

/// How close to English the plaintext is that the settings make of `text`: the
/// closeness of its index of coincidence, in billionths.
pub open spec fn fitness(s: Settings, text: Seq<char>) -> int {
    coincidence_fit(ioc_of(s.crypt(text)).0, ioc_of(s.crypt(text)).1)
}

/// The settings of trial `t` of the search for rotors and starting places; the ring
/// settings are all 1.
pub open spec fn rotor_trial(board: Seq<u8>, reflector: Reflector, t: int) -> Settings {
    trial(board, reflector, rotors_at(t), rings_at(t), (1, 1, 1))
}

/// The settings of trial `t` of the search for ring settings.
pub open spec fn ring_trial(
    board: Seq<u8>,
    reflector: Reflector,
    rotors: (int, int, int),
    places: (int, int, int),
    t: int,
) -> Settings {
    trial(board, reflector, rotors, places, rings_at(t))
}

/// The settings of trial `t`: of the search for ring settings where rotors and
/// starting places are fixed, else of the search for rotors and starting places.
pub open spec fn trial_at(
    board: Seq<u8>,
    reflector: Reflector,
    fixed: Option<((int, int, int), (int, int, int))>,
    t: int,
) -> Settings {
    match fixed {
        Some((rotors, places)) => ring_trial(board, reflector, rotors, places, t),
        None => rotor_trial(board, reflector, t),
    }
}

/// How close to English the plaintext of trial `t` is.
pub open spec fn fit_at(
    board: Seq<u8>,
    reflector: Reflector,
    fixed: Option<((int, int, int), (int, int, int))>,
    text: Seq<char>,
    t: int,
) -> int {
    fitness(trial_at(board, reflector, fixed, t), text)
}

/// Whether trial `t` of `n` is the best: no trial is fitter, and none before it is
/// as fit.
pub open spec fn best_at(
    board: Seq<u8>,
    reflector: Reflector,
    fixed: Option<((int, int, int), (int, int, int))>,
    text: Seq<char>,
    n: int,
    t: int,
) -> bool {
    &&& 0 <= t < n
    &&& forall|s: int| 0 <= s < n ==> #[trigger] fit_at(board, reflector, fixed, text, s) <= fit_at(board, reflector, fixed, text, t)
    &&& forall|s: int| 0 <= s < t ==> #[trigger] fit_at(board, reflector, fixed, text, s) < fit_at(board, reflector, fixed, text, t)
}

/// Whether the plaintext of trial `t` is too long for its index of coincidence to be
/// scored: more than 2^32 - 1 characters.
pub open spec fn too_long_at(
    board: Seq<u8>,
    reflector: Reflector,
    fixed: Option<((int, int, int), (int, int, int))>,
    text: Seq<char>,
    t: int,
) -> bool {
    trial_at(board, reflector, fixed, t).crypt(text).len() > u32::MAX
}

/// What a search among `n` trials returns: the best trial, or `InvalidArgument` where
/// the plaintext of a trial is too long to be scored.
pub open spec fn found(
    board: Seq<u8>,
    reflector: Reflector,
    fixed: Option<((int, int, int), (int, int, int))>,
    text: Seq<char>,
    n: int,
    r: Result<u32, CipherError>,
) -> bool {
    match r {
        Ok(t) => best_at(board, reflector, fixed, text, n, t as int),
        Err(error) => error == CipherError::InvalidArgument && exists|s: int|
            0 <= s < n && #[trigger] too_long_at(board, reflector, fixed, text, s),
    }
}

/// Whether each of three numbers is a rotor's number, and each of three others a
/// starting place as the caller counts them.
pub open spec fn searchable(rotors: (u8, u8, u8), places: (u8, u8, u8)) -> bool {
    &&& 1 <= rotors.0 <= 8 && 1 <= rotors.1 <= 8 && 1 <= rotors.2 <= 8
    &&& 1 <= places.0 <= 26 && 1 <= places.1 <= 26 && 1 <= places.2 <= 26
}

/// The rotors and starting places that are fixed, as plain numbers.
pub open spec fn fixed_of(fixed: Option<((u8, u8, u8), (u8, u8, u8))>) -> Option<((int, int, int), (int, int, int))> {
    match fixed {
        Some((rotors, places)) => Some(
            (
                (rotors.0 as int, rotors.1 as int, rotors.2 as int),
                (places.0 as int, places.1 as int, places.2 as int),
            ),
        ),
        None => None,
    }
}

/// Tries the first `n` trials and returns the best of them.
fn search(
    board: &Vec<u8>,
    mirror: &Reflector,
    fixed: Option<((u8, u8, u8), (u8, u8, u8))>,
    n: u32,
    ciphertext: &str,
) -> (r: Result<u32, CipherError>)
    requires
        pairing(board@),
        0 < n <= 8_998_912,
        fixed is Some ==> searchable(fixed->Some_0.0, fixed->Some_0.1),
    ensures
        found(board@, *mirror, fixed_of(fixed), ciphertext@, n as int, r),
{
    let options = MachineOptions { clear_casing: false, clear_punctuation: false, debug: false };
    let ghost plain = fixed_of(fixed);
    let ghost text = ciphertext@;
    let mut best: u32 = 0;
    let mut top: u64 = 0;
    let mut t: u32 = 0;
    while t < n
        invariant
            t <= n <= 8_998_912,
            pairing(board@),
            fixed is Some ==> searchable(fixed->Some_0.0, fixed->Some_0.1),
            plain == fixed_of(fixed),
            text == ciphertext@,
            options == (MachineOptions { clear_casing: false, clear_punctuation: false, debug: false }),
            t > 0 ==> best < t && top == fit_at(board@, *mirror, plain, text, best as int),
            forall|s: int| 0 <= s < t ==> #[trigger] fit_at(board@, *mirror, plain, text, s) <= top,
            forall|s: int| 0 <= s < best ==> #[trigger] fit_at(board@, *mirror, plain, text, s) < top,
        decreases n - t,
    {
        let varied = (((t / 676) % 26) as u8, ((t / 26) % 26) as u8, (t % 26) as u8);
        let plaintext = match fixed {
            Some((rotors, places)) => {
                let chosen = (
                    Rotor::unchecked_from(rotors.0),
                    Rotor::unchecked_from(rotors.1),
                    Rotor::unchecked_from(rotors.2),
                );
                run(&chosen, (places.0 - 1, places.1 - 1, places.2 - 1), varied, mirror, board, &options, ciphertext)
            },
            None => {
                let chosen = (
                    Rotor::unchecked_from((t / 1_124_864 + 1) as u8),
                    Rotor::unchecked_from(((t / 140_608) % 8 + 1) as u8),
                    Rotor::unchecked_from(((t / 17_576) % 8 + 1) as u8),
                );
                run(&chosen, varied, (0, 0, 0), mirror, board, &options, ciphertext)
            },
        };
        assert(plaintext@ == trial_at(board@, *mirror, plain, t as int).crypt(text));
        match coincidence_score(plaintext.as_str()) {
            Some(score) => {
                assert(score == fit_at(board@, *mirror, plain, text, t as int));
                if t == 0 || score > top {
                    best = t;
                    top = score;
                }
            },
            None => {
                assert(too_long_at(board@, *mirror, plain, text, t as int));
                return Err(CipherError::InvalidArgument);
            },
        }
        t += 1;
    }
    Ok(best)
}

/// The best choice of rotors and starting places for `ciphertext`, with the given
/// plugboard and reflector and all ring settings 1: the first of the trials, in the
/// order of [`rotors_at`] and [`rings_at`], whose plaintext is the closest to English.
/// Fails with `InvalidConfiguration` where the plugboard or the reflector is invalid,
/// and with `InvalidArgument` where a plaintext is too long to be scored.
pub fn best_rotors(plugboard: &str, reflector: &str, ciphertext: &str) -> (r: Result<
    ((u8, u8, u8), (u8, u8, u8)),
    CipherError,
>)
    ensures
        !cables(words(plugboard@)) || Reflector::named(lower_text(reflector@)) is None ==> r is Err
            && r->Err_0 == CipherError::InvalidConfiguration,
        cables(words(plugboard@)) && Reflector::named(lower_text(reflector@)) is Some && r is Ok ==> exists|
            board: Seq<u8>,
            t: int,
        |
            #[trigger] wired(words(plugboard@), board) && #[trigger] best_at(
                board,
                Reflector::named(lower_text(reflector@))->Some_0,
                None,
                ciphertext@,
                8_998_912,
                t,
            ) && (
                (r->Ok_0.0.0 as int, r->Ok_0.0.1 as int, r->Ok_0.0.2 as int),
                (r->Ok_0.1.0 as int, r->Ok_0.1.1 as int, r->Ok_0.1.2 as int),
            ) == (rotors_at(t), rings_at(t)),
        cables(words(plugboard@)) && Reflector::named(lower_text(reflector@)) is Some && r is Err ==> r->Err_0
            == CipherError::InvalidArgument && exists|board: Seq<u8>, t: int|
            #[trigger] wired(words(plugboard@), board) && 0 <= t < 8_998_912 && #[trigger] too_long_at(
                board,
                Reflector::named(lower_text(reflector@))->Some_0,
                None,
                ciphertext@,
                t,
            ),
{
    let board = match parse_plugboard(plugboard) {
        Ok(board) => board,
        Err(error) => {
            return Err(error);
        },
    };
    let mirror = match Reflector::try_from(reflector) {
        Ok(mirror) => mirror,
        Err(error) => {
            return Err(error);
        },
    };
    let r = match search(&board, &mirror, None, ROTOR_TRIALS, ciphertext) {
        Ok(best) => {
            let settings = (
                ((best / 1_124_864 + 1) as u8, ((best / 140_608) % 8 + 1) as u8, ((best / 17_576) % 8 + 1) as u8),
                (((best / 676) % 26 + 1) as u8, ((best / 26) % 26 + 1) as u8, (best % 26 + 1) as u8),
            );
            proof {
                assert(wired(words(plugboard@), board@) && best_at(
                    board@,
                    mirror,
                    None,
                    ciphertext@,
                    8_998_912,
                    best as int,
                ));
            }
            Ok(settings)
        },
        Err(error) => {
            proof {
                let t = choose|t: int|
                    0 <= t < 8_998_912 && #[trigger] too_long_at(board@, mirror, None, ciphertext@, t);
                assert(wired(words(plugboard@), board@) && too_long_at(board@, mirror, None, ciphertext@, t));
            }
            Err(error)
        },
    };
    r
}

/// The best ring settings for `ciphertext`, with the given reflector, plugboard,
/// rotors and starting places: the first of the trials, in the order of [`rings_at`],
/// whose plaintext is the closest to English. Fails with `InvalidConfiguration` where
/// the plugboard, the reflector, a rotor or a starting place is invalid, and with
/// `InvalidArgument` where a plaintext is too long to be scored.
pub fn best_ring_settings(
    reflector: &str,
    plugboard: &str,
    rotors: (u8, u8, u8),
    ring_positions: (u8, u8, u8),
    ciphertext: &str,
) -> (r: Result<(u8, u8, u8), CipherError>)
    ensures
        !cables(words(plugboard@)) || Reflector::named(lower_text(reflector@)) is None || !searchable(
            rotors,
            ring_positions,
        ) ==> r is Err && r->Err_0 == CipherError::InvalidConfiguration,
        cables(words(plugboard@)) && Reflector::named(lower_text(reflector@)) is Some && searchable(
            rotors,
            ring_positions,
        ) && r is Ok ==> exists|board: Seq<u8>, t: int|
            #[trigger] wired(words(plugboard@), board) && #[trigger] best_at(
                board,
                Reflector::named(lower_text(reflector@))->Some_0,
                fixed_of(Some((rotors, ring_positions))),
                ciphertext@,
                17_576,
                t,
            ) && (r->Ok_0.0 as int, r->Ok_0.1 as int, r->Ok_0.2 as int) == rings_at(t),
        cables(words(plugboard@)) && Reflector::named(lower_text(reflector@)) is Some && searchable(
            rotors,
            ring_positions,
        ) && r is Err ==> r->Err_0 == CipherError::InvalidArgument && exists|board: Seq<u8>, t: int|
            #[trigger] wired(words(plugboard@), board) && 0 <= t < 17_576 && #[trigger] too_long_at(
                board,
                Reflector::named(lower_text(reflector@))->Some_0,
                fixed_of(Some((rotors, ring_positions))),
                ciphertext@,
                t,
            ),
{
    let board = match parse_plugboard(plugboard) {
        Ok(board) => board,
        Err(error) => {
            return Err(error);
        },
    };
    let mirror = match Reflector::try_from(reflector) {
        Ok(mirror) => mirror,
        Err(error) => {
            return Err(error);
        },
    };
    if !(1 <= rotors.0 && rotors.0 <= 8 && 1 <= rotors.1 && rotors.1 <= 8 && 1 <= rotors.2 && rotors.2 <= 8
        && 1 <= ring_positions.0 && ring_positions.0 <= 26 && 1 <= ring_positions.1 && ring_positions.1
        <= 26 && 1 <= ring_positions.2 && ring_positions.2 <= 26) {
        return Err(CipherError::InvalidConfiguration);
    }
    let fixed = Some((rotors, ring_positions));
    let r = match search(&board, &mirror, fixed, RING_TRIALS, ciphertext) {
        Ok(best) => {
            proof {
                assert(wired(words(plugboard@), board@) && best_at(
                    board@,
                    mirror,
                    fixed_of(fixed),
                    ciphertext@,
                    17_576,
                    best as int,
                ));
            }
            Ok((((best / 676) % 26 + 1) as u8, ((best / 26) % 26 + 1) as u8, (best % 26 + 1) as u8))
        },
        Err(error) => {
            proof {
                let t = choose|t: int|
                    0 <= t < 17_576 && #[trigger] too_long_at(board@, mirror, fixed_of(fixed), ciphertext@, t);
                assert(wired(words(plugboard@), board@) && too_long_at(
                    board@,
                    mirror,
                    fixed_of(fixed),
                    ciphertext@,
                    t,
                ));
            }
            Err(error)
        },
    };
    r
}

} // verus!
