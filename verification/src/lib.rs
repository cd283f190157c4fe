//! A stenography engine: steno key systems, strokes, dictionaries and the
//! decision logic that turns keyboard reports into strokes and key events.
use vstd::prelude::*;

pub mod input;
pub mod model;
pub mod output;
pub mod platform;
pub mod util;

use crate::model::stroke::{
    first_left_from, first_right, first_right_from, letters_of, spec_system_error, system_result,
    KeySide, LetterWithSide, StenoSystem,
};
use crate::input::plover_hid::{ChordMode, HidEvent};
use crate::model::dictionary::Dictionaries;
use crate::model::stroke::{find_key, find_key_from, keys_mask, notations_of, spec_letter_notation};
use crate::util::{decimal, is_unique_at, join_quoted, push_char, push_decimal, quoted_list};

verus! {

/// The physical key name that each bit of a Plover HID key state stands for (bits 25 to 0,
/// the unused keys X1 to X26, stand for none).
pub open spec fn spec_steno_key_chart(i: int) -> Option<Seq<char>> {
    if i == 63 {
        Some(seq!['S', '1', '-'])
    } else if i == 62 {
        Some(seq!['T', '-'])
    } else if i == 61 {
        Some(seq!['K', '-'])
    } else if i == 60 {
        Some(seq!['P', '-'])
    } else if i == 59 {
        Some(seq!['W', '-'])
    } else if i == 58 {
        Some(seq!['H', '-'])
    } else if i == 57 {
        Some(seq!['R', '-'])
    } else if i == 56 {
        Some(seq!['A', '-'])
    } else if i == 55 {
        Some(seq!['O', '-'])
    } else if i == 54 {
        Some(seq!['*', '1'])
    } else if i == 53 {
        Some(seq!['-', 'E'])
    } else if i == 52 {
        Some(seq!['-', 'U'])
    } else if i == 51 {
        Some(seq!['-', 'F'])
    } else if i == 50 {
        Some(seq!['-', 'R'])
    } else if i == 49 {
        Some(seq!['-', 'P'])
    } else if i == 48 {
        Some(seq!['-', 'B'])
    } else if i == 47 {
        Some(seq!['-', 'L'])
    } else if i == 46 {
        Some(seq!['-', 'G'])
    } else if i == 45 {
        Some(seq!['-', 'T'])
    } else if i == 44 {
        Some(seq!['-', 'S'])
    } else if i == 43 {
        Some(seq!['-', 'D'])
    } else if i == 42 {
        Some(seq!['-', 'Z'])
    } else if i == 41 {
        Some(seq!['#', '1'])
    } else if i == 40 {
        Some(seq!['S', '2', '-'])
    } else if i == 39 {
        Some(seq!['*', '2'])
    } else if i == 38 {
        Some(seq!['*', '3'])
    } else if i == 37 {
        Some(seq!['*', '4'])
    } else if i == 36 {
        Some(seq!['#', '2'])
    } else if i == 35 {
        Some(seq!['#', '3'])
    } else if i == 34 {
        Some(seq!['#', '4'])
    } else if i == 33 {
        Some(seq!['#', '5'])
    } else if i == 32 {
        Some(seq!['#', '6'])
    } else if i == 31 {
        Some(seq!['#', '7'])
    } else if i == 30 {
        Some(seq!['#', '8'])
    } else if i == 29 {
        Some(seq!['#', '9'])
    } else if i == 28 {
        Some(seq!['#', 'A'])
    } else if i == 27 {
        Some(seq!['#', 'B'])
    } else if i == 26 {
        Some(seq!['#', 'C'])
    } else {
        None
    }
}

/// The physical key name that bit `i` of a Plover HID key state stands for.
pub fn steno_key_chart(i: usize) -> (res: Option<&'static str>)
    ensures
        match res {
            Some(s) => spec_steno_key_chart(i as int) == Some(s@),
            None => spec_steno_key_chart(i as int) is None,
        },
{
    match i {
        63 => {
            proof {
                reveal_strlit("S1-");
            }
            Some("S1-")
        },
        62 => {
            proof {
                reveal_strlit("T-");
            }
            Some("T-")
        },
        61 => {
            proof {
                reveal_strlit("K-");
            }
            Some("K-")
        },
        60 => {
            proof {
                reveal_strlit("P-");
            }
            Some("P-")
        },
        59 => {
            proof {
                reveal_strlit("W-");
            }
            Some("W-")
        },
        58 => {
            proof {
                reveal_strlit("H-");
            }
            Some("H-")
        },
        57 => {
            proof {
                reveal_strlit("R-");
            }
            Some("R-")
        },
        56 => {
            proof {
                reveal_strlit("A-");
            }
            Some("A-")
        },
        55 => {
            proof {
                reveal_strlit("O-");
            }
            Some("O-")
        },
        54 => {
            proof {
                reveal_strlit("*1");
            }
            Some("*1")
        },
        53 => {
            proof {
                reveal_strlit("-E");
            }
            Some("-E")
        },
        52 => {
            proof {
                reveal_strlit("-U");
            }
            Some("-U")
        },
        51 => {
            proof {
                reveal_strlit("-F");
            }
            Some("-F")
        },
        50 => {
            proof {
                reveal_strlit("-R");
            }
            Some("-R")
        },
        49 => {
            proof {
                reveal_strlit("-P");
            }
            Some("-P")
        },
        48 => {
            proof {
                reveal_strlit("-B");
            }
            Some("-B")
        },
        47 => {
            proof {
                reveal_strlit("-L");
            }
            Some("-L")
        },
        46 => {
            proof {
                reveal_strlit("-G");
            }
            Some("-G")
        },
        45 => {
            proof {
                reveal_strlit("-T");
            }
            Some("-T")
        },
        44 => {
            proof {
                reveal_strlit("-S");
            }
            Some("-S")
        },
        43 => {
            proof {
                reveal_strlit("-D");
            }
            Some("-D")
        },
        42 => {
            proof {
                reveal_strlit("-Z");
            }
            Some("-Z")
        },
        41 => {
            proof {
                reveal_strlit("#1");
            }
            Some("#1")
        },
        40 => {
            proof {
                reveal_strlit("S2-");
            }
            Some("S2-")
        },
        39 => {
            proof {
                reveal_strlit("*2");
            }
            Some("*2")
        },
        38 => {
            proof {
                reveal_strlit("*3");
            }
            Some("*3")
        },
        37 => {
            proof {
                reveal_strlit("*4");
            }
            Some("*4")
        },
        36 => {
            proof {
                reveal_strlit("#2");
            }
            Some("#2")
        },
        35 => {
            proof {
                reveal_strlit("#3");
            }
            Some("#3")
        },
        34 => {
            proof {
                reveal_strlit("#4");
            }
            Some("#4")
        },
        33 => {
            proof {
                reveal_strlit("#5");
            }
            Some("#5")
        },
        32 => {
            proof {
                reveal_strlit("#6");
            }
            Some("#6")
        },
        31 => {
            proof {
                reveal_strlit("#7");
            }
            Some("#7")
        },
        30 => {
            proof {
                reveal_strlit("#8");
            }
            Some("#8")
        },
        29 => {
            proof {
                reveal_strlit("#9");
            }
            Some("#9")
        },
        28 => {
            proof {
                reveal_strlit("#A");
            }
            Some("#A")
        },
        27 => {
            proof {
                reveal_strlit("#B");
            }
            Some("#B")
        },
        26 => {
            proof {
                reveal_strlit("#C");
            }
            Some("#C")
        },
        _ => None,
    }
}

/// One of the left-hand letters of a Plover HID keyboard (`T- K- P- W- H- R- A- O-`).
pub open spec fn is_hid_left_letter(c: char) -> bool {
    c == 'T' || c == 'K' || c == 'P' || c == 'W' || c == 'H' || c == 'R' || c == 'A' || c == 'O'
}

/// One of the right-hand letters of a Plover HID keyboard (`-E -U -F -R -P -B -L -G -T -S -D -Z`).
pub open spec fn is_hid_right_letter(c: char) -> bool {
    c == 'E' || c == 'U' || c == 'F' || c == 'R' || c == 'P' || c == 'B' || c == 'L' || c == 'G'
        || c == 'T' || c == 'S' || c == 'D' || c == 'Z'
}

/// The canonical steno key of a physical key name: `S1-`, `S2-` are `S-`; `*1` to `*4` are
/// `*`; `#1` to `#9` and `#A` to `#C` are `#`; the other left-hand and right-hand keys are
/// themselves; every other name has none.
pub open spec fn spec_hid_key_to_canonical(s: Seq<char>) -> Option<LetterWithSide> {
    if s.len() == 3 && s[0] == 'S' && (s[1] == '1' || s[1] == '2') && s[2] == '-' {
        Some(LetterWithSide { letter: 'S', side: KeySide::Left })
    } else if s.len() == 2 && s[0] == '*' && ('1' <= s[1] && s[1] <= '4') {
        Some(LetterWithSide { letter: '*', side: KeySide::Unsided })
    } else if s.len() == 2 && s[0] == '#' && (('1' <= s[1] && s[1] <= '9') || ('A' <= s[1] && s[1]
        <= 'C')) {
        Some(LetterWithSide { letter: '#', side: KeySide::Unsided })
    } else if s.len() == 2 && s[1] == '-' && is_hid_left_letter(s[0]) {
        Some(LetterWithSide { letter: s[0], side: KeySide::Left })
    } else if s.len() == 2 && s[0] == '-' && is_hid_right_letter(s[1]) {
        Some(LetterWithSide { letter: s[1], side: KeySide::Right })
    } else {
        None
    }
}

/// Maps a physical key name from HID to its canonical steno key. Returns `None` for the keys
/// that are dropped (X keys, framing/control bits).
pub fn hid_key_to_canonical(physical: &str) -> (res: Option<LetterWithSide>)
    ensures
        res == spec_hid_key_to_canonical(physical@),
{
    let n = physical.unicode_len();
    if n == 3 {
        let c0 = physical.get_char(0);
        let c1 = physical.get_char(1);
        let c2 = physical.get_char(2);
        if c0 == 'S' && (c1 == '1' || c1 == '2') && c2 == '-' {
            return Some(LetterWithSide { letter: 'S', side: KeySide::Left });
        }
        return None;
    }
    if n != 2 {
        return None;
    }
    let c0 = physical.get_char(0);
    let c1 = physical.get_char(1);
    if c0 == '*' && ('1' <= c1 && c1 <= '4') {
        Some(LetterWithSide { letter: '*', side: KeySide::Unsided })
    } else if c0 == '#' && (('1' <= c1 && c1 <= '9') || ('A' <= c1 && c1 <= 'C')) {
        Some(LetterWithSide { letter: '#', side: KeySide::Unsided })
    } else if c1 == '-' && (c0 == 'T' || c0 == 'K' || c0 == 'P' || c0 == 'W' || c0 == 'H' || c0
        == 'R' || c0 == 'A' || c0 == 'O') {
        Some(LetterWithSide { letter: c0, side: KeySide::Left })
    } else if c0 == '-' && (c1 == 'E' || c1 == 'U' || c1 == 'F' || c1 == 'R' || c1 == 'P' || c1
        == 'B' || c1 == 'L' || c1 == 'G' || c1 == 'T' || c1 == 'S' || c1 == 'D' || c1 == 'Z') {
        Some(LetterWithSide { letter: c1, side: KeySide::Right })
    } else {
        None
    }
}

/// Every steno key name of a Plover HID keyboard maps to its canonical key: `S1-` and `S2-`
/// to `S-`; `*1` to `*4` to `*`; `#1` to `#9` and `#A` to `#C` to `#`; `T- K- P- W- H- R- A-
/// O-` each to the left-hand key of its letter; and `-E -U -F -R -P -B -L -G -T -S -D -Z` each
/// to the right-hand key of its letter.
pub proof fn lemma_hid_steno_keys_canonical()
    ensures
        forall|d: char|
            d == '1' || d == '2' ==> spec_hid_key_to_canonical(seq!['S', d, '-']) == Some(
                LetterWithSide { letter: 'S', side: KeySide::Left },
            ),
        forall|d: char|
            '1' <= d <= '4' ==> spec_hid_key_to_canonical(seq!['*', d]) == Some(
                LetterWithSide { letter: '*', side: KeySide::Unsided },
            ),
        forall|d: char|
            ('1' <= d <= '9' || 'A' <= d <= 'C') ==> spec_hid_key_to_canonical(seq!['#', d])
                == Some(LetterWithSide { letter: '#', side: KeySide::Unsided }),
        forall|c: char|
            (c == 'T' || c == 'K' || c == 'P' || c == 'W' || c == 'H' || c == 'R' || c == 'A' || c
                == 'O') ==> spec_hid_key_to_canonical(seq![c, '-']) == Some(
                LetterWithSide { letter: c, side: KeySide::Left },
            ),
        forall|c: char|
            (c == 'E' || c == 'U' || c == 'F' || c == 'R' || c == 'P' || c == 'B' || c == 'L' || c
                == 'G' || c == 'T' || c == 'S' || c == 'D' || c == 'Z') ==> spec_hid_key_to_canonical(
                seq!['-', c],
            ) == Some(LetterWithSide { letter: c, side: KeySide::Right }),
{
}

/// The canonical key that bit `i` of a Plover HID key state stands for.
pub open spec fn spec_bit_key(i: int) -> Option<LetterWithSide> {
    match spec_steno_key_chart(i) {
        Some(name) => spec_hid_key_to_canonical(name),
        None => None,
    }
}

/// The canonical keys of the bits below `n` that are set in `bits`, lowest bit first.
pub open spec fn spec_hid_keys_below(bits: u64, n: int) -> Seq<LetterWithSide>
    decreases n,
{
    if n <= 0 {
        seq![]
    } else {
        let prev = spec_hid_keys_below(bits, n - 1);
        if bits & (1u64 << ((n - 1) as u64)) != 0 && spec_bit_key(n - 1) is Some {
            prev.push(spec_bit_key(n - 1)->0)
        } else {
            prev
        }
    }
}

/// Converts a 64-bit HID key state bitmask into its canonical steno keys, lowest bit first.
pub fn hid_to_keys(bits: u64) -> (res: Vec<LetterWithSide>)
    ensures
        res@ == spec_hid_keys_below(bits, 64),
{
    let mut keys: Vec<LetterWithSide> = Vec::new();
    let mut i: u64 = 0;
    while i < 64
        invariant
            i <= 64,
            keys@ == spec_hid_keys_below(bits, i as int),
        decreases 64 - i,
    {
        if bits & (1u64 << i) != 0 {
            if let Some(physical) = steno_key_chart(i as usize) {
                if let Some(canonical) = hid_key_to_canonical(physical) {
                    keys.push(canonical);
                }
            }
        }
        i += 1;
    }
    keys
}

/// The keys of the English steno system, in steno order:
/// `# S- T- K- P- W- H- R- A- O- * -E -U -F -R -P -B -L -G -T -S -D -Z`.
pub open spec fn spec_english_system_keys() -> Seq<LetterWithSide> {
    seq![
        LetterWithSide { letter: '#', side: KeySide::Unsided },
        LetterWithSide { letter: 'S', side: KeySide::Left },
        LetterWithSide { letter: 'T', side: KeySide::Left },
        LetterWithSide { letter: 'K', side: KeySide::Left },
        LetterWithSide { letter: 'P', side: KeySide::Left },
        LetterWithSide { letter: 'W', side: KeySide::Left },
        LetterWithSide { letter: 'H', side: KeySide::Left },
        LetterWithSide { letter: 'R', side: KeySide::Left },
        LetterWithSide { letter: 'A', side: KeySide::Left },
        LetterWithSide { letter: 'O', side: KeySide::Left },
        LetterWithSide { letter: '*', side: KeySide::Unsided },
        LetterWithSide { letter: 'E', side: KeySide::Right },
        LetterWithSide { letter: 'U', side: KeySide::Right },
        LetterWithSide { letter: 'F', side: KeySide::Right },
        LetterWithSide { letter: 'R', side: KeySide::Right },
        LetterWithSide { letter: 'P', side: KeySide::Right },
        LetterWithSide { letter: 'B', side: KeySide::Right },
        LetterWithSide { letter: 'L', side: KeySide::Right },
        LetterWithSide { letter: 'G', side: KeySide::Right },
        LetterWithSide { letter: 'T', side: KeySide::Right },
        LetterWithSide { letter: 'S', side: KeySide::Right },
        LetterWithSide { letter: 'D', side: KeySide::Right },
        LetterWithSide { letter: 'Z', side: KeySide::Right },
    ]
}

/// The keys of the English steno system.
pub fn english_system_keys() -> (res: Vec<LetterWithSide>)
    ensures
        res@ == spec_english_system_keys(),
{
    let mut keys: Vec<LetterWithSide> = Vec::new();
    keys.push(LetterWithSide { letter: '#', side: KeySide::Unsided });
    keys.push(LetterWithSide { letter: 'S', side: KeySide::Left });
    keys.push(LetterWithSide { letter: 'T', side: KeySide::Left });
    keys.push(LetterWithSide { letter: 'K', side: KeySide::Left });
    keys.push(LetterWithSide { letter: 'P', side: KeySide::Left });
    keys.push(LetterWithSide { letter: 'W', side: KeySide::Left });
    keys.push(LetterWithSide { letter: 'H', side: KeySide::Left });
    keys.push(LetterWithSide { letter: 'R', side: KeySide::Left });
    keys.push(LetterWithSide { letter: 'A', side: KeySide::Left });
    keys.push(LetterWithSide { letter: 'O', side: KeySide::Left });
    keys.push(LetterWithSide { letter: '*', side: KeySide::Unsided });
    keys.push(LetterWithSide { letter: 'E', side: KeySide::Right });
    keys.push(LetterWithSide { letter: 'U', side: KeySide::Right });
    keys.push(LetterWithSide { letter: 'F', side: KeySide::Right });
    keys.push(LetterWithSide { letter: 'R', side: KeySide::Right });
    keys.push(LetterWithSide { letter: 'P', side: KeySide::Right });
    keys.push(LetterWithSide { letter: 'B', side: KeySide::Right });
    keys.push(LetterWithSide { letter: 'L', side: KeySide::Right });
    keys.push(LetterWithSide { letter: 'G', side: KeySide::Right });
    keys.push(LetterWithSide { letter: 'T', side: KeySide::Right });
    keys.push(LetterWithSide { letter: 'S', side: KeySide::Right });
    keys.push(LetterWithSide { letter: 'D', side: KeySide::Right });
    keys.push(LetterWithSide { letter: 'Z', side: KeySide::Right });
    keys
}

/// The English steno system; its implicit hyphen keys are `A- O- * -E -U` (indices `8..13`).
pub fn english_system() -> (res: StenoSystem)
    ensures
        system_result(spec_english_system_keys(), Some(8..13usize), Ok(res)),
        res.spec_right_keys_index() == 11,
{
    let keys = english_system_keys();
    let ghost k = spec_english_system_keys();
    proof {
        reveal_with_fuel(first_right_from, 13);
        reveal_with_fuel(first_left_from, 13);
        assert(first_right(k) == 11);
        assert(first_left_from(k, 12) is None);
        let l = letters_of(k);
        assert(l == seq!['#', 'S', 'T', 'K', 'P', 'W', 'H', 'R', 'A', 'O', '*', 'E', 'U', 'F', 'R', 'P', 'B', 'L', 'G', 'T', 'S', 'D', 'Z']);
        assert forall|i: int| 8 <= i < 13 implies is_unique_at(l, i) by {
            assert forall|j: int| 0 <= j < l.len() && j != i implies l[j] != l[i] by {}
        }
        assert(spec_system_error(k, 8, 13) is None);
    }
    let r = StenoSystem::new(keys.as_slice(), Some(8..13));
    r.unwrap()
}

/// What the engine asks its user to do.
#[derive(Debug, Clone)]
pub enum EngineCommand {
    Translated(String),
    NotTranslated(String),
}

/// The text reported for a key state: the list of its canonical keys when they make a stroke
/// of the system (`["S-", "T-"]`), and otherwise the key state in decimal between angle brackets
/// (`<12>`).
pub open spec fn spec_stroke_text(keys: Seq<LetterWithSide>, right: int, bits: u64) -> Seq<char> {
    let ks = spec_hid_keys_below(bits, 64);
    if keys_mask(keys, right, ks) is Some {
        quoted_list(notations_of(ks))
    } else {
        seq!['<'] + decimal(bits as nat) + seq!['>']
    }
}

/// The text reported for an event: none for a disconnection or a stroke that presses no key.
pub open spec fn spec_event_text(keys: Seq<LetterWithSide>, right: int, ev: HidEvent) -> Option<
    Seq<char>,
> {
    match ev {
        HidEvent::Stroke(st) => if st.mask as u64 == 0 {
            None
        } else {
            Some(spec_stroke_text(keys, right, st.mask as u64))
        },
        HidEvent::Disconnected => None,
    }
}

/// The texts reported for the events, in order.
pub open spec fn spec_poll(keys: Seq<LetterWithSide>, right: int, events: Seq<HidEvent>) -> Seq<
    Seq<char>,
>
    decreases events.len(),
{
    if events.len() == 0 {
        seq![]
    } else {
        let p = spec_poll(keys, right, events.drop_last());
        match spec_event_text(keys, right, events.last()) {
            Some(t) => p.push(t),
            None => p,
        }
    }
}

/// The steno engine: dictionaries, the steno system, and how chords are detected.
pub struct Engine {
    /// Dictionaries
    pub dicts: Dictionaries,
    pub system: StenoSystem,
    /// Configuration for when we trigger translation.
    mode: ChordMode,
}

impl Engine {
    /// An engine with no dictionary, the English system, and first-up chord detection.
    pub fn new() -> (res: Self)
        ensures
            res.spec_dicts().stack@.len() == 0,
            system_result(spec_english_system_keys(), Some(8..13usize), Ok(res.spec_system())),
            res.spec_system().spec_right_keys_index() == 11,
            res.spec_mode() == ChordMode::FirstUp,
    {
        Self { dicts: Dictionaries::default(), system: english_system(), mode: ChordMode::FirstUp }
    }

    /// The dictionaries.
    pub closed spec fn spec_dicts(&self) -> Dictionaries {
        self.dicts
    }

    /// The steno system.
    pub closed spec fn spec_system(&self) -> StenoSystem {
        self.system
    }

    /// When chords are emitted.
    pub closed spec fn spec_mode(&self) -> ChordMode {
        self.mode
    }

    /// When chords are emitted.
    pub fn mode(&self) -> (res: ChordMode)
        ensures
            res == self.spec_mode(),
    {
        self.mode
    }

    /// The command for a key state that presses some key.
    fn stroke_command(&self, bits: u64) -> (res: EngineCommand)
        requires
            self.spec_system().wf(),
        ensures
            res matches EngineCommand::NotTranslated(t) && t@ == spec_stroke_text(
                self.spec_system().spec_keys(),
                self.spec_system().spec_right_keys_index(),
                bits,
            ),
    {
        let keys = hid_to_keys(bits);
        let mut s = String::new();
        if let Some(_stroke) = self.system.stroke_from_keys(keys.as_slice()) {
            let ghost ns = notations_of(keys@);
            push_char(&mut s, '[');
            let mut i: usize = 0;
            while i < keys.len()
                invariant
                    i <= keys@.len(),
                    ns == notations_of(keys@),
                    s@ == seq!['['] + join_quoted(ns.take(i as int)),
                decreases keys@.len() - i,
            {
                let ghost before = s@;
                assert(ns.take(i + 1).drop_last() == ns.take(i as int));
                assert(ns.take(i + 1).last() == spec_letter_notation(keys@[i as int]));
                if i > 0 {
                    push_char(&mut s, ',');
                    push_char(&mut s, ' ');
                }
                push_char(&mut s, '"');
                let t = keys[i].to_notation();
                s.append(t.as_str());
                push_char(&mut s, '"');
                assert(s@ == seq!['['] + join_quoted(ns.take(i + 1)));
                i += 1;
            }
            assert(ns.take(keys@.len() as int) == ns);
            push_char(&mut s, ']');
        } else {
            push_char(&mut s, '<');
            push_decimal(&mut s, bits);
            push_char(&mut s, '>');
        }
        EngineCommand::NotTranslated(s)
    }

    /// Processes input events: each stroke that presses some key is reported, untranslated.
    pub fn poll(&mut self, events: Vec<HidEvent>) -> (res: Vec<EngineCommand>)
        requires
            old(self).spec_system().wf(),
        ensures
            *final(self) == *old(self),
            res@.len() == spec_poll(
                old(self).spec_system().spec_keys(),
                old(self).spec_system().spec_right_keys_index(),
                events@,
            ).len(),
            forall|i: int|
                0 <= i < res@.len() ==> ((#[trigger] res@[i]) matches EngineCommand::NotTranslated(t)
                    && t@ == spec_poll(
                    old(self).spec_system().spec_keys(),
                    old(self).spec_system().spec_right_keys_index(),
                    events@,
                )[i]),
    {
        let ghost keys = self.system.spec_keys();
        let ghost right = self.system.spec_right_keys_index();
        let mut commands: Vec<EngineCommand> = Vec::new();
        let mut i: usize = 0;
        while i < events.len()
            invariant
                self.system.wf(),
                keys == self.system.spec_keys(),
                right == self.system.spec_right_keys_index(),
                i <= events@.len(),
                commands@.len() == spec_poll(keys, right, events@.take(i as int)).len(),
                forall|j: int|
                    0 <= j < commands@.len() ==> ((#[trigger] commands@[j]) matches EngineCommand::NotTranslated(t)
                        && t@ == spec_poll(keys, right, events@.take(i as int))[j]),
            decreases events@.len() - i,
        {
            assert(events@.take(i + 1).drop_last() == events@.take(i as int));
            assert(events@.take(i + 1).last() == events@[i as int]);
            match &events[i] {
                HidEvent::Stroke(st) => {
                    let bits = st.mask as u64;
                    if bits != 0 {
                        let c = self.stroke_command(bits);
                        commands.push(c);
                    }
                },
                HidEvent::Disconnected => {},
            }
            i += 1;
        }
        assert(events@.take(events@.len() as int) == events@);
        commands
    }
}

proof fn lemma_keys_mask_all_found(keys: Seq<LetterWithSide>, right: int, ks: Seq<LetterWithSide>)
    requires
        forall|i: int| 0 <= i < ks.len() ==> (#[trigger] find_key(keys, right, ks[i])) is Some,
    ensures
        keys_mask(keys, right, ks) is Some,
    decreases ks.len(),
{
    if ks.len() > 0 {
        let t = ks.drop_first();
        assert forall|i: int| 0 <= i < t.len() implies (#[trigger] find_key(keys, right, t[i])) is Some by {
            assert(t[i] == ks[i + 1]);
        }
        lemma_keys_mask_all_found(keys, right, t);
        assert(find_key(keys, right, ks[0]) is Some);
    }
}

proof fn lemma_hid_keys_below_from_bits(bits: u64, n: int)
    requires
        0 <= n <= 64,
    ensures
        forall|j: int|
            0 <= j < spec_hid_keys_below(bits, n).len() ==> exists|i: int|
                0 <= i < n && spec_bit_key(i) == Some(#[trigger] spec_hid_keys_below(bits, n)[j]),
    decreases n,
{
    if n > 0 {
        lemma_hid_keys_below_from_bits(bits, n - 1);
        let p = spec_hid_keys_below(bits, n - 1);
        assert forall|j: int|
            0 <= j < spec_hid_keys_below(bits, n).len() implies exists|i: int|
                0 <= i < n && spec_bit_key(i) == Some(#[trigger] spec_hid_keys_below(bits, n)[j]) by {
            if j < p.len() {
                assert(spec_hid_keys_below(bits, n)[j] == p[j]);
                let i = choose|i: int| 0 <= i < n - 1 && spec_bit_key(i) == Some(p[j]);
            } else {
                assert(spec_bit_key(n - 1) == Some(spec_hid_keys_below(bits, n)[j]));
            }
        }
    }
}

proof fn lemma_english_finds_bit_keys(i: int)
    requires
        0 <= i < 64,
        spec_bit_key(i) is Some,
    ensures
        find_key(spec_english_system_keys(), 11, spec_bit_key(i)->0) is Some,
{
    reveal_with_fuel(find_key_from, 24);
}

/// Every key state of a Plover HID keyboard makes a stroke of the English system: the
/// engine never reports a key state of it as invalid.
pub proof fn lemma_english_accepts_hid_keys(bits: u64)
    ensures
        keys_mask(spec_english_system_keys(), 11, spec_hid_keys_below(bits, 64)) is Some,
{
    let ks = spec_hid_keys_below(bits, 64);
    lemma_hid_keys_below_from_bits(bits, 64);
    assert forall|j: int| 0 <= j < ks.len() implies (#[trigger] find_key(
        spec_english_system_keys(),
        11,
        ks[j],
    )) is Some by {
        let i = choose|i: int| 0 <= i < 64 && spec_bit_key(i) == Some(ks[j]);
        lemma_english_finds_bit_keys(i);
    }
    lemma_keys_mask_all_found(spec_english_system_keys(), 11, ks);
}

} // verus!
