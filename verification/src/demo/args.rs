//! What a program is asked for, and how its pieces start.
use vstd::prelude::*;
use vstd::string::*;

use crate::demo::pattern::Edition;
use crate::engine::EngineConfig;
use crate::flt::convert;
use crate::flt::Flt;
use crate::text;

verus! {

/// What the program is asked for.
#[derive(Clone, Copy, Debug, PartialEq, Eq, Structural)]
pub enum Command {
    /// Print how it is used.
    Help,
    /// List the devices.
    List,
    /// Nothing: no device was named.
    NoDevice,
    /// Nothing: no piece was named.
    NoPiece,
    /// Nothing: there is no piece of that number.
    BadPiece(usize),
    /// Play a piece on a device.
    Play {
        /// The number of the device.
        device: usize,
        /// The number of the piece.
        piece: usize,
    },
}

/// The options that were read.
#[derive(Clone, Copy, Debug)]
pub struct Options {
    /// The devices are to be listed.
    pub list: bool,
    /// Help is asked for.
    pub help: bool,
    /// The number of the device.
    pub device: Option<usize>,
    /// The number of the piece.
    pub piece: Option<usize>,
}

/// The number that an argument stands for.
pub open spec fn number(s: Seq<char>) -> Option<usize> {
    if text::is_numeral(s) && text::valued(text::digits(s)) <= usize::MAX {
        Some(text::valued(text::digits(s)) as usize)
    } else {
        None
    }
}

/// The argument is this option, by its long or its short name.
pub open spec fn is_option(s: Seq<char>, long: Seq<char>, short: Seq<char>) -> bool {
    s == long || s == short
}

/// The number after an option. Where the arguments end before it, the
/// tersest program forgets the number that it had, the others keep it.
pub open spec fn number_after(
    e: Edition,
    args: Seq<String>,
    i: int,
    had: Option<usize>,
) -> Option<usize> {
    if i + 1 < args.len() {
        number(args[i + 1]@)
    } else if e == Edition::Terse {
        None
    } else {
        had
    }
}

impl Options {
    /// The options after those from the argument at `i` on. Arguments that
    /// are no option are passed over; help ends the reading. The tersest
    /// program has no help.
    pub open spec fn read(self, e: Edition, args: Seq<String>, i: int) -> Options
        decreases args.len() + 1 - i,
    {
        if i < 0 || i >= args.len() {
            self
        } else if is_option(args[i]@, "--list"@, "-l"@) {
            Options { list: true, ..self }.read(e, args, i + 1)
        } else if is_option(args[i]@, "--device"@, "-d"@) {
            Options { device: number_after(e, args, i, self.device), ..self }.read(e, args, i + 2)
        } else if is_option(args[i]@, "--test"@, "-t"@) {
            Options { piece: number_after(e, args, i, self.piece), ..self }.read(e, args, i + 2)
        } else if is_option(args[i]@, "--help"@, "-h"@) && e != Edition::Terse {
            Options { help: true, ..self }
        } else {
            self.read(e, args, i + 1)
        }
    }

    /// What the options ask for. The tersest program looks for the piece
    /// only when it plays.
    pub open spec fn asked(self, e: Edition) -> Command {
        if self.help {
            Command::Help
        } else if self.list {
            Command::List
        } else {
            match (self.device, self.piece) {
                (None, _) => Command::NoDevice,
                (_, None) => Command::NoPiece,
                (Some(device), Some(piece)) => if e != Edition::Terse && !(1 <= piece <= pieces(
                    e,
                )) {
                    Command::BadPiece(piece)
                } else {
                    Command::Play { device, piece }
                },
            }
        }
    }
}

/// No option was read.
pub open spec fn no_options() -> Options {
    Options { list: false, help: false, device: None, piece: None }
}

/// How many pieces a program has.
pub open spec fn pieces(e: Edition) -> int {
    if e == Edition::Plain {
        6
    } else {
        12
    }
}

/// The number after an option.
fn take_number(e: Edition, args: &Vec<String>, i: usize, had: Option<usize>) -> (r: Option<usize>)
    requires
        i < args@.len(),
    ensures
        r == number_after(e, args@, i as int, had),
{
    if i < args.len() - 1 {
        text::parse_number(args[i + 1].as_str())
    } else {
        match e {
            Edition::Terse => None,
            _ => had,
        }
    }
}

/// The argument is this option, by its long or its short name.
fn named(s: &String, long: &str, short: &str) -> (r: bool)
    ensures
        r == is_option(s@, long@, short@),
{
    text::same(s.as_str(), long) || text::same(s.as_str(), short)
}

/// Reads what the program is asked for from its arguments, of which the first
/// is its own name.
pub fn command(e: Edition, args: &Vec<String>) -> (r: Command)
    ensures
        r == no_options().read(e, args@, 1).asked(e),
{
    let terse: bool = matches!(e, Edition::Terse);
    let n: usize = args.len();
    let mut o: Options = Options { list: false, help: false, device: None, piece: None };
    let mut i: usize = 1;
    while i < n
        invariant
            n == args@.len(),
            terse == (e == Edition::Terse),
            1 <= i,
            o.read(e, args@, i as int) == no_options().read(e, args@, 1),
            !o.help,
        decreases args@.len() - i,
    {
        if named(&args[i], "--list", "-l") {
            o.list = true;
        } else if named(&args[i], "--device", "-d") {
            o.device = take_number(e, args, i, o.device);
            assert(o.read(e, args@, n as int) == o.read(e, args@, n + 1));
            if i < n - 1 {
                i = i + 1;
            }
        } else if named(&args[i], "--test", "-t") {
            o.piece = take_number(e, args, i, o.piece);
            assert(o.read(e, args@, n as int) == o.read(e, args@, n + 1));
            if i < n - 1 {
                i = i + 1;
            }
        } else if named(&args[i], "--help", "-h") && !terse {
            return Command::Help;
        }
        i = i + 1;
    }
    if o.list {
        return Command::List;
    }
    match (o.device, o.piece) {
        (None, _) => Command::NoDevice,
        (_, None) => Command::NoPiece,
        (Some(device), Some(piece)) => {
            let most: usize = if matches!(e, Edition::Plain) {
                6
            } else {
                12
            };
            if !terse && (piece < 1 || piece > most) {
                Command::BadPiece(piece)
            } else {
                Command::Play { device, piece }
            }
        },
    }
}

/// The tempo at which a piece starts.
pub open spec fn piece_bpm(piece: usize) -> int {
    match piece {
        1 => 120,
        2 => 90,
        3 => 60,
        4 => 120,
        5 => 100,
        6 => 120,
        7 => 100,
        8 => 80,
        9 => 110,
        10 => 90,
        11 => 80,
        _ => 100,
    }
}

/// The seed of a piece.
pub open spec fn piece_seed(e: Edition, piece: usize) -> Seq<char> {
    if e == Edition::Terse {
        match piece {
            1 => "met"@,
            2 => "poly"@,
            3 => "ramp"@,
            4 => "barr"@,
            5 => "gen42"@,
            6 => "cancel"@,
            7 => "energy"@,
            8 => "chord"@,
            9 => "queue"@,
            10 => "callresp"@,
            11 => "vote"@,
            _ => "cond"@,
        }
    } else {
        match piece {
            1 => "metronome"@,
            2 => "polyrhythm"@,
            3 => "tempo_ramp"@,
            4 => "barrier_sync"@,
            5 => "generative_melody_42"@,
            6 => "cancellation"@,
            7 => "shared_energy"@,
            8 => "chord_memory"@,
            9 => "message_queue"@,
            10 => "call_response"@,
            11 => "collective_vote"@,
            _ => "conductor"@,
        }
    }
}

/// How the engine of a piece starts; nothing where the program has no piece
/// of that number.
pub fn piece_config(e: Edition, piece: usize) -> (r: Option<EngineConfig>)
    ensures
        match r {
            Some(c) => {
                &&& 1 <= piece <= pieces(e)
                &&& c.bpm == convert::of_nat(piece_bpm(piece))
                &&& c.seed@ == piece_seed(e, piece)
                &&& c.fps == Flt::sixty()
                &&& c.rate == Flt::one()
            },
            None => !(1 <= piece <= pieces(e)),
        },
{
    let most: usize = if matches!(e, Edition::Plain) {
        6
    } else {
        12
    };
    if piece < 1 || piece > most {
        return None;
    }
    let bpm: u64 = match piece {
        1 => 120,
        2 => 90,
        3 => 60,
        4 => 120,
        5 => 100,
        6 => 120,
        7 => 100,
        8 => 80,
        9 => 110,
        10 => 90,
        11 => 80,
        _ => 100,
    };
    let terse: bool = matches!(e, Edition::Terse);
    let seed: &'static str = if terse {
        match piece {
            1 => "met",
            2 => "poly",
            3 => "ramp",
            4 => "barr",
            5 => "gen42",
            6 => "cancel",
            7 => "energy",
            8 => "chord",
            9 => "queue",
            10 => "callresp",
            11 => "vote",
            _ => "cond",
        }
    } else {
        match piece {
            1 => "metronome",
            2 => "polyrhythm",
            3 => "tempo_ramp",
            4 => "barrier_sync",
            5 => "generative_melody_42",
            6 => "cancellation",
            7 => "shared_energy",
            8 => "chord_memory",
            9 => "message_queue",
            10 => "call_response",
            11 => "collective_vote",
            _ => "conductor",
        }
    };
    let mut c: EngineConfig = EngineConfig::default();
    c.bpm = Flt::from_u64(bpm);
    c.seed = seed.to_owned();
    Some(c)
}

/// The name of the barrier that the voices share.
pub fn barrier_name(e: Edition) -> (r: &'static str)
    ensures
        r@ == (if e == Edition::Terse {
            "sync"@
        } else {
            "phrase_sync"@
        }),
{
    match e {
        Edition::Terse => "sync",
        _ => "phrase_sync",
    }
}

} // verus!
