//! The Plover HID protocol: which devices speak it, how a report reads, and how chords are
//! detected from the stream of key states.
use vstd::prelude::*;

use crate::model::stroke::Stroke;

verus! {

/// Report id of a Plover HID key state report.
pub const REPORT_ID: u8 = 0x50;

/// HID usage page of a Plover HID device.
pub const USAGE_PAGE: u16 = 0xFF50;

/// HID usage of a Plover HID device.
pub const USAGE: u16 = 0x4C56;

/// Whether a device with this usage page and usage speaks the Plover HID protocol.
pub fn is_plover_hid(usage_page: u16, usage: u16) -> (res: bool)
    ensures
        res == (usage_page == USAGE_PAGE && usage == USAGE),
{
    usage_page == USAGE_PAGE && usage == USAGE
}

/// The index of the first device, given as (usage page, usage) pairs in device list order,
/// that speaks the Plover HID protocol.
pub fn first_plover_hid(devices: &[(u16, u16)]) -> (res: Option<usize>)
    ensures
        match res {
            Some(i) => {
                &&& i < devices@.len()
                &&& devices@[i as int] == (USAGE_PAGE, USAGE)
                &&& forall|j: int| 0 <= j < i ==> devices@[j] != (USAGE_PAGE, USAGE)
            },
            None => forall|j: int| 0 <= j < devices@.len() ==> devices@[j] != (USAGE_PAGE, USAGE),
        },
{
    let mut i: usize = 0;
    while i < devices.len()
        invariant
            i <= devices@.len(),
            forall|j: int| 0 <= j < i ==> devices@[j] != (USAGE_PAGE, USAGE),
        decreases devices@.len() - i,
    {
        let (page, usage) = devices[i];
        if is_plover_hid(page, usage) {
            return Some(i);
        }
        i += 1;
    }
    None
}

/// Chord detection mode.
#[derive(Debug, Clone, Copy, PartialEq, Eq, Structural)]
pub enum ChordMode {
    /// Emit chord when all keys are released.
    AllKeysUp,
    /// Emit chord as soon as any key is released.
    FirstUp,
}

/// Events from the HID reader.
#[derive(Debug)]
pub enum HidEvent {
    Stroke(Stroke),
    Disconnected,
}

/// The unsigned big-endian number that the bytes spell.
pub open spec fn be_value(bytes: Seq<u8>) -> nat
    decreases bytes.len(),
{
    if bytes.len() == 0 {
        0
    } else {
        be_value(bytes.drop_last()) * 256 + bytes.last() as nat
    }
}

/// `256` to the power `n`.
pub open spec fn pow256(n: nat) -> nat
    decreases n,
{
    if n == 0 {
        1
    } else {
        256 * pow256((n - 1) as nat)
    }
}

/// The key state that a report carries: `None` unless the report is at least nine bytes long
/// and starts with the Plover HID report id; then the big-endian number of bytes `1..9`.
pub open spec fn spec_parse_report(report: Seq<u8>) -> Option<usize> {
    if report.len() < 9 || report[0] != REPORT_ID {
        None
    } else {
        Some(be_value(report.subrange(1, 9)) as usize)
    }
}

/// Reads the key state bits out of a report that the device sent.
pub fn parse_report(report: &[u8]) -> (res: Option<usize>)
    ensures
        res == spec_parse_report(report@),
{
    if report.len() < 9 || report[0] != REPORT_ID {
        return None;
    }
    let mut v: u64 = 0;
    let mut k: usize = 1;
    assert(pow256(8) == 0x1_0000_0000_0000_0000) by {
        reveal_with_fuel(pow256, 9);
    }
    while k < 9
        invariant
            report@.len() >= 9,
            1 <= k <= 9,
            v as nat == be_value(report@.subrange(1, k as int)),
            v < pow256((k - 1) as nat),
            pow256(8) == 0x1_0000_0000_0000_0000,
        decreases 9 - k,
    {
        let ghost p = report@.subrange(1, k as int);
        assert(report@.subrange(1, k + 1).drop_last() == p);
        proof {
            lemma_pow256_mono((k - 1) as nat, 7);
            let q = pow256((k - 1) as nat);
            let vv = v as nat;
            let b = report@[k as int] as nat;
            assert(vv * 256 + b < 256 * q) by (nonlinear_arith)
                requires
                    vv < q,
                    b < 256,
            ;
            assert(256 * q <= 256 * pow256(7)) by (nonlinear_arith)
                requires
                    q <= pow256(7),
            ;
        }
        v = v * 256 + report[k] as u64;
        k += 1;
    }
    Some(v as usize)
}

proof fn lemma_pow256_mono(a: nat, b: nat)
    requires
        a <= b,
    ensures
        pow256(a) <= pow256(b),
    decreases b,
{
    if a < b {
        lemma_pow256_mono(a, (b - 1) as nat);
    }
}

/// Chord detection: turns the stream of key states that a device reports into strokes.
#[derive(Debug, Clone, Copy, PartialEq, Eq, Structural)]
pub struct ChordDetector {
    pub mode: ChordMode,
    /// All-keys-up: the keys pressed since the last chord. First-up: the previous key state.
    pub acc: usize,
    /// First-up: a chord has been sent and no new key has been pressed since.
    pub sent_first_up: bool,
}

/// The detector after a key state report, and the chord it emits, if any.
///
/// All-keys-up: the pressed keys accumulate, and the chord is emitted (and the accumulator
/// cleared) when a report holds no key while some key had been pressed.
/// First-up: unless a chord was sent and no key was pressed since, the previous key state is
/// emitted as soon as one of its keys is released; a newly pressed key allows the next chord.
pub open spec fn spec_step(d: ChordDetector, current: usize) -> (ChordDetector, Option<usize>) {
    match d.mode {
        ChordMode::AllKeysUp => {
            let acc = d.acc | current;
            if current == 0 && acc != 0 {
                (ChordDetector { acc: 0, ..d }, Some(acc))
            } else {
                (ChordDetector { acc, ..d }, None)
            }
        },
        ChordMode::FirstUp => {
            let release = !d.sent_first_up && (d.acc & !current) != 0;
            let sent = if release {
                true
            } else {
                d.sent_first_up
            };
            let sent = if (current & !d.acc) != 0 {
                false
            } else {
                sent
            };
            (
                ChordDetector { acc: current, sent_first_up: sent, ..d },
                if release {
                    Some(d.acc)
                } else {
                    None
                },
            )
        },
    }
}

impl ChordDetector {
    /// A detector that has seen no report yet.
    pub fn new(mode: ChordMode) -> (res: Self)
        ensures
            res == (ChordDetector { mode, acc: 0, sent_first_up: false }),
    {
        ChordDetector { mode, acc: 0, sent_first_up: false }
    }

    /// Feeds the key state of one report; gives the chord it completes, if any.
    pub fn step(&mut self, current: usize) -> (res: Option<Stroke>)
        ensures
            *final(self) == spec_step(*old(self), current).0,
            res == (match spec_step(*old(self), current).1 {
                Some(mask) => Some(Stroke { mask }),
                None => None,
            }),
    {
        match self.mode {
            ChordMode::AllKeysUp => {
                // Accumulate pressed keys
                self.acc = self.acc | current;
                if current == 0 && self.acc != 0 {
                    // Released
                    let stroke = Stroke::new(self.acc);
                    self.acc = 0;
                    Some(stroke)
                } else {
                    None
                }
            },
            ChordMode::FirstUp => {
                let mut res = None;
                if !self.sent_first_up {
                    // Handle release
                    if (self.acc & !current) != 0 {
                        res = Some(Stroke::new(self.acc));
                        self.sent_first_up = true;
                    }
                }
                if (current & !self.acc) != 0 {
                    self.sent_first_up = false;
                }
                // Snapshot current state
                self.acc = current;
                res
            },
        }
    }

    /// Handles one report read from the device: reports that carry no key state are
    /// ignored; otherwise the key state is fed to the detector, and a completed chord
    /// becomes a stroke event.
    pub fn on_report(&mut self, report: &[u8]) -> (res: Option<HidEvent>)
        ensures
            match spec_parse_report(report@) {
                None => *final(self) == *old(self) && res is None,
                Some(current) => {
                    &&& *final(self) == spec_step(*old(self), current).0
                    &&& match spec_step(*old(self), current).1 {
                        Some(mask) => res matches Some(HidEvent::Stroke(st)) && st.mask == mask,
                        None => res is None,
                    }
                },
            },
    {
        match parse_report(report) {
            None => None,
            Some(current) => match self.step(current) {
                Some(st) => Some(HidEvent::Stroke(st)),
                None => None,
            },
        }
    }
}

/// The detector after a sequence of reports, and the chords it emitted, in order.
pub open spec fn spec_run(d: ChordDetector, reports: Seq<usize>) -> (ChordDetector, Seq<usize>)
    decreases reports.len(),
{
    if reports.len() == 0 {
        (d, seq![])
    } else {
        let (d1, out) = spec_run(d, reports.drop_last());
        let (d2, e) = spec_step(d1, reports.last());
        (
            d2,
            match e {
                Some(m) => out.push(m),
                None => out,
            },
        )
    }
}

/// The union (bitwise or) of the key states.
pub open spec fn or_all(s: Seq<usize>) -> usize
    decreases s.len(),
{
    if s.len() == 0 {
        0usize
    } else {
        or_all(s.drop_last()) | s.last()
    }
}

proof fn lemma_or_assoc(x: usize, y: usize, z: usize)
    by (bit_vector)
    ensures
        ((x | y) | z) == (x | (y | z)),
        (x | 0usize) == x,
{
}

proof fn lemma_release_nonempty(a: usize, c: usize)
    by (bit_vector)
    requires
        (a & !c) != 0usize,
    ensures
        a != 0usize,
{
}

proof fn lemma_run_mode(d: ChordDetector, reports: Seq<usize>)
    ensures
        spec_run(d, reports).0.mode == d.mode,
    decreases reports.len(),
{
    if reports.len() > 0 {
        lemma_run_mode(d, reports.drop_last());
    }
}

/// Every chord the detector emits presses at least one key, whatever the mode, the starting
/// state and the reports.
pub proof fn lemma_chords_nonempty(d: ChordDetector, reports: Seq<usize>)
    ensures
        forall|i: int|
            0 <= i < spec_run(d, reports).1.len() ==> #[trigger] spec_run(d, reports).1[i] != 0,
    decreases reports.len(),
{
    if reports.len() > 0 {
        let p = reports.drop_last();
        lemma_chords_nonempty(d, p);
        let (d1, out) = spec_run(d, p);
        let c = reports.last();
        if d1.mode == ChordMode::FirstUp && !d1.sent_first_up && (d1.acc & !c) != 0 {
            lemma_release_nonempty(d1.acc, c);
        }
        assert forall|i: int|
            0 <= i < spec_run(d, reports).1.len() implies #[trigger] spec_run(d, reports).1[i]
            != 0 by {
            if i < out.len() {
                assert(out[i] != 0);
            }
        }
    }
}

/// All-keys-up loses no key: the keys of the emitted chords, together with the keys still
/// accumulated, are exactly the keys accumulated at the start together with all reported
/// keys.
pub proof fn lemma_all_keys_up_keeps_keys(d: ChordDetector, reports: Seq<usize>)
    requires
        d.mode == ChordMode::AllKeysUp,
    ensures
        (or_all(spec_run(d, reports).1) | spec_run(d, reports).0.acc) == (d.acc | or_all(reports)),
    decreases reports.len(),
{
    if reports.len() == 0 {
        lemma_or_assoc(0usize, 0usize, d.acc);
        lemma_or_assoc(d.acc, 0usize, 0usize);
        assert((0usize | d.acc) == d.acc) by (bit_vector);
    } else {
        let p = reports.drop_last();
        lemma_all_keys_up_keeps_keys(d, p);
        lemma_run_mode(d, p);
        let (d1, out) = spec_run(d, p);
        let c = reports.last();
        let acc = d1.acc | c;
        lemma_or_assoc(or_all(out), d1.acc, c);
        lemma_or_assoc(d.acc, or_all(p), c);
        if c == 0 && acc != 0 {
            assert(out.push(acc).drop_last() == out);
            lemma_or_assoc(or_all(out) | acc, 0usize, 0usize);
        }
    }
}

/// First-up emits only key states that it has seen: each chord is the starting key state or
/// one of the reported key states.
pub proof fn lemma_first_up_chords_are_reports(d: ChordDetector, reports: Seq<usize>)
    requires
        d.mode == ChordMode::FirstUp,
    ensures
        forall|i: int|
            0 <= i < spec_run(d, reports).1.len() ==> (#[trigger] spec_run(d, reports).1[i] == d.acc
                || reports.contains(spec_run(d, reports).1[i])),
        spec_run(d, reports).0.acc == d.acc || reports.contains(spec_run(d, reports).0.acc),
    decreases reports.len(),
{
    if reports.len() > 0 {
        let p = reports.drop_last();
        lemma_first_up_chords_are_reports(d, p);
        lemma_run_mode(d, p);
        let (d1, out) = spec_run(d, p);
        assert(reports[reports.len() - 1] == reports.last());
        assert forall|x: usize| p.contains(x) implies reports.contains(x) by {
            let k = choose|k: int| 0 <= k < p.len() && p[k] == x;
            assert(reports[k] == x);
        }
        assert forall|i: int|
            0 <= i < spec_run(d, reports).1.len() implies (#[trigger] spec_run(d, reports).1[i]
            == d.acc || reports.contains(spec_run(d, reports).1[i])) by {
            if i < out.len() {
                assert(spec_run(d, reports).1[i] == out[i]);
            }
        }
    }
}

/// First-up re-arms on every newly pressed key: after a report that presses a key the state
/// before it did not hold, the next report that releases one of its keys emits that report's
/// key state, whether or not a chord had been sent before.
pub proof fn lemma_first_up_rearms(d: ChordDetector, current: usize, next: usize)
    requires
        d.mode == ChordMode::FirstUp,
        (current & !d.acc) != 0,
        (current & !next) != 0,
    ensures
        spec_step(spec_step(d, current).0, next).1 == Some(current),
        spec_step(d, current).0.acc == current,
        !spec_step(d, current).0.sent_first_up,
{
}

} // verus!
