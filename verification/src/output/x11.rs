//! X11 output decisions: which keycode emits which key, and which key events send keys.
//!
//! - keycode (u8): physical key on the keyboard.
//! - keysym (u32): actually emitted key.
use std::collections::HashMap;
use vstd::prelude::*;

use crate::output::{modifier_bit, Key, Modifier, Modifiers};

verus! {

/// The `char` whose scalar value is `u` (`char::from_u32`).
///
/// Trusted: the std documentation says that `char::from_u32` returns the character of a
/// valid Unicode scalar value (below `0xD800`, or from `0xE000` to `0x10FFFF`) and `None` for
/// any other value.
#[verifier::external_body]
fn char_from_u32(u: u32) -> (res: Option<char>)
    ensures
        res == (if is_scalar_value(u) {
            Some(u as char)
        } else {
            None
        }),
{
    char::from_u32(u)
}

/// A Unicode scalar value: a code point that is not a surrogate.
pub open spec fn is_scalar_value(u: u32) -> bool {
    u < 0xD800 || (0xE000 <= u && u <= 0x10FFFF)
}

/// The character an X11 keysym types: Latin-1 keysyms are their own code point, keysyms above
/// `0x01000000` are the code point `keysym - 0x01000000`; others type none.
pub open spec fn spec_keysym_to_char(keysym: u32) -> Option<char> {
    if keysym == 0 {
        None
    } else if (0x20 <= keysym && keysym <= 0x7E) || (0xA0 <= keysym && keysym <= 0xFF) {
        Some(keysym as char)
    } else if keysym > 0x01000000 {
        let u = (keysym - 0x01000000) as u32;
        if is_scalar_value(u) {
            Some(u as char)
        } else {
            None
        }
    } else {
        None
    }
}

/// Every printable Latin-1 keysym (`0x20` to `0x7E`, `0xA0` to `0xFF`) types the character of
/// the same code point, the space `0x20` among them.
pub proof fn lemma_latin1_keysyms(k: u32)
    requires
        (0x20 <= k <= 0x7E) || (0xA0 <= k <= 0xFF),
    ensures
        spec_keysym_to_char(k) == Some(k as char),
{
}

/// Converts an X11 keysym to the Unicode character it types.
pub fn keysym_to_char(keysym: u32) -> (res: Option<char>)
    ensures
        res == spec_keysym_to_char(keysym),
{
    if keysym == 0 {
        None
    } else if (0x20 <= keysym && keysym <= 0x7E) || (0xA0 <= keysym && keysym <= 0xFF) {
        char_from_u32(keysym)
    } else if keysym > 0x01000000 {
        char_from_u32(keysym - 0x01000000)
    } else {
        None
    }
}

/// The number of keycodes from `min` to `max`, both included.
pub open spec fn keycode_count(min: u8, max: u8) -> int {
    if max >= min {
        max - min + 1
    } else {
        0
    }
}

/// The character that the keysym at `idx` of the mapping types, if any.
pub open spec fn slot_char(keysyms: Seq<u32>, idx: int) -> Option<char> {
    if 0 <= idx < keysyms.len() {
        spec_keysym_to_char(keysyms[idx])
    } else {
        None
    }
}

/// The table with the character `c` added, unless it is already there.
pub open spec fn add_char(m: Map<u32, (u8, bool)>, c: Option<char>, v: (u8, bool)) -> Map<
    u32,
    (u8, bool),
> {
    match c {
        Some(ch) => if m.contains_key(ch as u32) {
            m
        } else {
            m.insert(ch as u32, v)
        },
        None => m,
    }
}

/// Which keycode types each character (keyed by its scalar value), and whether Shift is
/// needed, from the first `count` keycodes of the mapping: each keycode's unmodified slot,
/// then its shifted slot (the slot right after it), the first keycode to type a character
/// winning.
pub open spec fn char_table(min: u8, per: u8, keysyms: Seq<u32>, count: int) -> Map<
    u32,
    (u8, bool),
>
    decreases count,
{
    if count <= 0 {
        Map::empty()
    } else {
        let m = char_table(min, per, keysyms, count - 1);
        let kc = (min + count - 1) as u8;
        let idx = (count - 1) * per;
        let m1 = add_char(m, slot_char(keysyms, idx), (kc, false));
        add_char(m1, slot_char(keysyms, idx + 1), (kc, true))
    }
}

/// Some slot of the `i`-th keycode holds the keysym.
pub open spec fn keycode_has_keysym(keysyms: Seq<u32>, per: u8, i: int, keysym: u32) -> bool {
    exists|off: int|
        0 <= off < per && 0 <= i * per + off < keysyms.len() && #[trigger] keysyms[i * per + off]
            == keysym
}

/// The first keycode, from the `i`-th on, with a slot holding the keysym; 0 when none has.
pub open spec fn find_keycode_from(
    min: u8,
    count: int,
    per: u8,
    keysyms: Seq<u32>,
    keysym: u32,
    i: int,
) -> u8
    decreases count - i,
{
    if i >= count {
        0
    } else if keycode_has_keysym(keysyms, per, i, keysym) {
        (min + i) as u8
    } else {
        find_keycode_from(min, count, per, keysyms, keysym, i + 1)
    }
}

/// The first keycode of the mapping with a slot holding the keysym; 0 when none has.
pub open spec fn spec_find_keycode(min: u8, max: u8, per: u8, keysyms: Seq<u32>, keysym: u32) -> u8 {
    find_keycode_from(min, keycode_count(min, max), per, keysyms, keysym, 0)
}

/// The keysym of each modifier key: Shift_L, Control_L, Alt_L, Super_L.
pub open spec fn modifier_keysym(m: Modifier) -> u32 {
    match m {
        Modifier::Shift => 0xFFE1,
        Modifier::Ctrl => 0xFFE3,
        Modifier::Alt => 0xFFE9,
        Modifier::Super => 0xFFEB,
    }
}

/// The keysym of each special key: BackSpace, Return, Tab, Escape.
pub open spec fn special_keysym(k: Key) -> u32 {
    match k {
        Key::Backspace => 0xFF08,
        Key::Return => 0xFF0D,
        Key::Tab => 0xFF09,
        Key::Escape => 0xFF1B,
        Key::Char(_) => 0,
    }
}

/// What the X server's keyboard mapping says about the keys we type: the keycode (and the
/// need for Shift) of each character, and the keycodes of the modifier and special keys
/// (0 when the mapping has none).
pub struct X11Keymap {
    char_to_keycode: HashMap<u32, (u8, bool)>,
    // modifiers:
    shift_keycode: u8,
    ctrl_keycode: u8,
    alt_keycode: u8,
    super_keycode: u8,
    // special (non-character) keys:
    backspace_keycode: u8,
    return_keycode: u8,
    tab_keycode: u8,
    escape_keycode: u8,
}

impl X11Keymap {
    /// Which keycode types each character (keyed by its scalar value), and whether it needs
    /// Shift.
    pub closed spec fn spec_chars(&self) -> Map<u32, (u8, bool)> {
        self.char_to_keycode@
    }

    /// The keycode of a modifier key.
    pub closed spec fn spec_modifier_keycode(&self, m: Modifier) -> u8 {
        match m {
            Modifier::Ctrl => self.ctrl_keycode,
            Modifier::Alt => self.alt_keycode,
            Modifier::Shift => self.shift_keycode,
            Modifier::Super => self.super_keycode,
        }
    }

    /// The keycode of a special key (BackSpace, Return, Tab, Escape).
    pub closed spec fn spec_special_keycode(&self, key: Key) -> u8 {
        match key {
            Key::Backspace => self.backspace_keycode,
            Key::Return => self.return_keycode,
            Key::Tab => self.tab_keycode,
            _ => self.escape_keycode,
        }
    }

    /// The keycode that types a key, and whether it needs Shift: special keys by their
    /// keycode, characters by the table; `None` for a character that no keycode types.
    pub open spec fn spec_keycode_for_key(&self, key: Key) -> Option<(u8, bool)> {
        match key {
            Key::Char(c) => if self.spec_chars().contains_key(c as u32) {
                Some(self.spec_chars()[c as u32])
            } else {
                None
            },
            _ => Some((self.spec_special_keycode(key), false)),
        }
    }

    /// Reads the keymap out of the X server's keyboard mapping: keycodes `min_keycode` to
    /// `max_keycode`, `keysyms_per_keycode` slots each, in `keysyms`.
    pub fn from_mapping(
        min_keycode: u8,
        max_keycode: u8,
        keysyms_per_keycode: u8,
        keysyms: &[u32],
    ) -> (res: Self)
        ensures
            res.spec_chars() == char_table(
                min_keycode,
                keysyms_per_keycode,
                keysyms@,
                keycode_count(min_keycode, max_keycode),
            ),
            forall|m: Modifier|
                #[trigger] res.spec_modifier_keycode(m) == spec_find_keycode(
                    min_keycode,
                    max_keycode,
                    keysyms_per_keycode,
                    keysyms@,
                    modifier_keysym(m),
                ),
            forall|k: Key|
                !(k is Char) ==> #[trigger] res.spec_keycode_for_key(k) == Some(
                    (
                        spec_find_keycode(
                            min_keycode,
                            max_keycode,
                            keysyms_per_keycode,
                            keysyms@,
                            special_keysym(k),
                        ),
                        false,
                    ),
                ),
    {
        broadcast use vstd::std_specs::hash::group_hash_axioms;

        let per = keysyms_per_keycode as usize;
        let count: usize = if max_keycode >= min_keycode {
            (max_keycode - min_keycode) as usize + 1
        } else {
            0
        };
        let mut char_to_keycode: HashMap<u32, (u8, bool)> = HashMap::new();
        let mut i: usize = 0;
        while i < count
            invariant
                count == keycode_count(min_keycode, max_keycode),
                count <= 256,
                per == keysyms_per_keycode,
                i <= count,
                char_to_keycode@ == char_table(min_keycode, keysyms_per_keycode, keysyms@, i as int),
            decreases count - i,
        {
            let keycode = (min_keycode as usize + i) as u8;
            assert(i * per <= 255 * 255) by (nonlinear_arith)
                requires
                    i < 256,
                    per < 256,
            ;
            let keysym_idx = i * per;
            // slot 0: no modifiers
            if keysym_idx < keysyms.len() {
                if let Some(ch) = keysym_to_char(keysyms[keysym_idx]) {
                    if !char_to_keycode.contains_key(&(ch as u32)) {
                        char_to_keycode.insert(ch as u32, (keycode, false));
                    }
                }
            }
            // slot 1: shift
            if keysym_idx + 1 < keysyms.len() {
                if let Some(ch) = keysym_to_char(keysyms[keysym_idx + 1]) {
                    if !char_to_keycode.contains_key(&(ch as u32)) {
                        char_to_keycode.insert(ch as u32, (keycode, true));
                    }
                }
            }
            i += 1;
        }
        X11Keymap {
            char_to_keycode,
            // modifiers:
            shift_keycode: find_keycode(min_keycode, max_keycode, keysyms_per_keycode, keysyms, 0xFFE1),
            ctrl_keycode: find_keycode(min_keycode, max_keycode, keysyms_per_keycode, keysyms, 0xFFE3),
            alt_keycode: find_keycode(min_keycode, max_keycode, keysyms_per_keycode, keysyms, 0xFFE9),
            super_keycode: find_keycode(min_keycode, max_keycode, keysyms_per_keycode, keysyms, 0xFFEB),
            // special (non-character) keys:
            backspace_keycode: find_keycode(
                min_keycode,
                max_keycode,
                keysyms_per_keycode,
                keysyms,
                0xFF08,
            ),
            return_keycode: find_keycode(min_keycode, max_keycode, keysyms_per_keycode, keysyms, 0xFF0D),
            tab_keycode: find_keycode(min_keycode, max_keycode, keysyms_per_keycode, keysyms, 0xFF09),
            escape_keycode: find_keycode(min_keycode, max_keycode, keysyms_per_keycode, keysyms, 0xFF1B),
        }
    }

    /// The keycode of a modifier key (0 when the mapping has none).
    pub fn keycode_for_modifier(&self, modifier: Modifier) -> (res: u8)
        ensures
            res == self.spec_modifier_keycode(modifier),
    {
        match modifier {
            Modifier::Ctrl => self.ctrl_keycode,
            Modifier::Alt => self.alt_keycode,
            Modifier::Shift => self.shift_keycode,
            Modifier::Super => self.super_keycode,
        }
    }

    /// The keycode that types a key, and whether it needs Shift.
    pub fn keycode_for_key(&self, key: Key) -> (res: Option<(u8, bool)>)
        ensures
            res == self.spec_keycode_for_key(key),
    {
        broadcast use vstd::std_specs::hash::group_hash_axioms;

        let keycode = match key {
            Key::Backspace => self.backspace_keycode,
            Key::Return => self.return_keycode,
            Key::Tab => self.tab_keycode,
            Key::Escape => self.escape_keycode,
            Key::Char(c) => {
                return match self.char_to_keycode.get(&(c as u32)) {
                    Some(v) => Some(*v),
                    None => None,
                };
            },
        };
        Some((keycode, false))
    }
}

/// The first keycode of the mapping with a slot holding the keysym; 0 when none has.
fn find_keycode(min_keycode: u8, max_keycode: u8, per: u8, keysyms: &[u32], keysym: u32) -> (res: u8)
    ensures
        res == spec_find_keycode(min_keycode, max_keycode, per, keysyms@, keysym),
{
    let count: usize = if max_keycode >= min_keycode {
        (max_keycode - min_keycode) as usize + 1
    } else {
        0
    };
    let per_n = per as usize;
    let mut i: usize = 0;
    while i < count
        invariant
            count == keycode_count(min_keycode, max_keycode),
            count <= 256,
            per_n == per,
            i <= count,
            spec_find_keycode(min_keycode, max_keycode, per, keysyms@, keysym) == find_keycode_from(
                min_keycode,
                count as int,
                per,
                keysyms@,
                keysym,
                i as int,
            ),
        decreases count - i,
    {
        assert(i * per_n <= 255 * 255) by (nonlinear_arith)
            requires
                i < 256,
                per_n < 256,
        ;
        let idx = i * per_n;
        let mut offset: usize = 0;
        while offset < per_n
            invariant
                per_n == per,
                i < count,
                count == keycode_count(min_keycode, max_keycode),
                spec_find_keycode(min_keycode, max_keycode, per, keysyms@, keysym) == find_keycode_from(
                    min_keycode,
                    count as int,
                    per,
                    keysyms@,
                    keysym,
                    i as int,
                ),
                idx == i * per,
                idx <= 255 * 255,
                offset <= per_n,
                forall|off: int|
                    0 <= off < offset ==> !(0 <= i * per + off < keysyms@.len() && #[trigger] keysyms@[i
                        * per + off] == keysym),
            decreases per_n - offset,
        {
            if idx + offset < keysyms.len() && keysyms[idx + offset] == keysym {
                assert(keycode_has_keysym(keysyms@, per, i as int, keysym));
                return (min_keycode as usize + i) as u8;
            }
            offset += 1;
        }
        i += 1;
    }
    0
}

/// The modifier of each flag position: Ctrl, Alt, Shift, Super.
pub open spec fn modifier_at(k: int) -> Modifier {
    if k == 0 {
        Modifier::Ctrl
    } else if k == 1 {
        Modifier::Alt
    } else if k == 2 {
        Modifier::Shift
    } else {
        Modifier::Super
    }
}

impl X11Keymap {
    /// The release of the modifier at position `k` when it is held and not wanted (none when
    /// the mapping has no key for it).
    pub open spec fn release_at(&self, held: u8, want: u8, k: int) -> Seq<(u8, bool)> {
        let m = modifier_at(k);
        let kc = self.spec_modifier_keycode(m);
        if held & modifier_bit(m) != 0 && want & modifier_bit(m) == 0 && kc != 0 {
            seq![(kc, false)]
        } else {
            seq![]
        }
    }

    /// The press of the modifier at position `k` when it is wanted and not held (none when the
    /// mapping has no key for it).
    pub open spec fn press_at(&self, held: u8, want: u8, k: int) -> Seq<(u8, bool)> {
        let m = modifier_at(k);
        let kc = self.spec_modifier_keycode(m);
        if want & modifier_bit(m) != 0 && held & modifier_bit(m) == 0 && kc != 0 {
            seq![(kc, true)]
        } else {
            seq![]
        }
    }

    /// Going from the held modifiers to the wanted ones: releases in the order Super, Shift,
    /// Alt, Ctrl, then presses in the order Ctrl, Alt, Shift, Super.
    pub open spec fn modifier_events(&self, held: u8, want: u8) -> Seq<(u8, bool)> {
        self.release_at(held, want, 3) + self.release_at(held, want, 2) + self.release_at(
            held,
            want,
            1,
        ) + self.release_at(held, want, 0) + self.press_at(held, want, 0) + self.press_at(
            held,
            want,
            1,
        ) + self.press_at(held, want, 2) + self.press_at(held, want, 3)
    }

    /// The events of one stroke and the modifiers held after it: a key no keycode types is
    /// skipped; otherwise the modifiers change to the stroke's own (with Shift when the key
    /// needs it), and the key is pressed and released.
    pub open spec fn stroke_events(&self, held: u8, stroke: (Key, Modifiers)) -> (Seq<(u8, bool)>, u8) {
        match self.spec_keycode_for_key(stroke.0) {
            None => (seq![], held),
            Some((kc, shift)) => {
                let want = ((stroke.1.spec_bits() | (if shift {
                    4u8
                } else {
                    0u8
                })) & 15u8) as u8;
                (self.modifier_events(held, want) + seq![(kc, true), (kc, false)], want)
            },
        }
    }

    /// The events of the strokes, in order, and the modifiers held after them.
    pub open spec fn strokes_events(&self, strokes: Seq<(Key, Modifiers)>) -> (Seq<(u8, bool)>, u8)
        decreases strokes.len(),
    {
        if strokes.len() == 0 {
            (seq![], 0u8)
        } else {
            let (ev, held) = self.strokes_events(strokes.drop_last());
            let (ev2, held2) = self.stroke_events(held, strokes.last());
            (ev + ev2, held2)
        }
    }

    /// The key events (keycode, pressed) that send the strokes: the strokes' events, then the
    /// release of the modifiers still held.
    pub open spec fn spec_plan(&self, strokes: Seq<(Key, Modifiers)>) -> Seq<(u8, bool)> {
        let (ev, held) = self.strokes_events(strokes);
        ev + self.modifier_events(held, 0)
    }

    fn push_modifier_events(&self, events: &mut Vec<(u8, bool)>, held: u8, want: u8)
        ensures
            final(events)@ == old(events)@ + self.modifier_events(held, want),
    {
        let ghost start = events@;
        let order: [Modifier; 4] = [Modifier::Super, Modifier::Shift, Modifier::Alt, Modifier::Ctrl];
        let mut k: usize = 0;
        while k < 4
            invariant
                k <= 4,
                order@ == seq![Modifier::Super, Modifier::Shift, Modifier::Alt, Modifier::Ctrl],
                events@ == start + (if k == 0 {
                    seq![]
                } else if k == 1 {
                    self.release_at(held, want, 3)
                } else if k == 2 {
                    self.release_at(held, want, 3) + self.release_at(held, want, 2)
                } else if k == 3 {
                    self.release_at(held, want, 3) + self.release_at(held, want, 2)
                        + self.release_at(held, want, 1)
                } else {
                    self.release_at(held, want, 3) + self.release_at(held, want, 2)
                        + self.release_at(held, want, 1) + self.release_at(held, want, 0)
                }),
            decreases 4 - k,
        {
            let m = order[k];
            let b = Modifiers::of(m).bits();
            let kc = self.keycode_for_modifier(m);
            if held & b != 0 && want & b == 0 && kc != 0 {
                events.push((kc, false));
            }
            k += 1;
        }
        let ghost mid = events@;
        let order: [Modifier; 4] = [Modifier::Ctrl, Modifier::Alt, Modifier::Shift, Modifier::Super];
        let mut k: usize = 0;
        while k < 4
            invariant
                k <= 4,
                order@ == seq![Modifier::Ctrl, Modifier::Alt, Modifier::Shift, Modifier::Super],
                events@ == mid + (if k == 0 {
                    seq![]
                } else if k == 1 {
                    self.press_at(held, want, 0)
                } else if k == 2 {
                    self.press_at(held, want, 0) + self.press_at(held, want, 1)
                } else if k == 3 {
                    self.press_at(held, want, 0) + self.press_at(held, want, 1) + self.press_at(
                        held,
                        want,
                        2,
                    )
                } else {
                    self.press_at(held, want, 0) + self.press_at(held, want, 1) + self.press_at(
                        held,
                        want,
                        2,
                    ) + self.press_at(held, want, 3)
                }),
            decreases 4 - k,
        {
            let m = order[k];
            let b = Modifiers::of(m).bits();
            let kc = self.keycode_for_modifier(m);
            if want & b != 0 && held & b == 0 && kc != 0 {
                events.push((kc, true));
            }
            k += 1;
        }
        assert(events@ == old(events)@ + self.modifier_events(held, want));
    }

    /// The key events (keycode, pressed) that tap each key with its own modifiers, toggling
    /// only the modifiers that change between consecutive keys, and releasing the modifiers
    /// at the end.
    pub fn plan_key_events(&self, strokes: &[(Key, Modifiers)]) -> (res: Vec<(u8, bool)>)
        ensures
            res@ == self.spec_plan(strokes@),
    {
        let mut events: Vec<(u8, bool)> = Vec::new();
        let mut held: u8 = 0;
        let mut i: usize = 0;
        while i < strokes.len()
            invariant
                i <= strokes@.len(),
                self.strokes_events(strokes@.take(i as int)) == (events@, held),
            decreases strokes@.len() - i,
        {
            assert(strokes@.take(i + 1).drop_last() == strokes@.take(i as int));
            assert(strokes@.take(i + 1).last() == strokes@[i as int]);
            let (key, mods) = strokes[i];
            match self.keycode_for_key(key) {
                None => {},
                Some((kc, shift)) => {
                    let want: u8 = (mods.bits() | (if shift {
                        4u8
                    } else {
                        0u8
                    })) & 15u8;
                    self.push_modifier_events(&mut events, held, want);
                    events.push((kc, true));
                    events.push((kc, false));
                    held = want;
                },
            }
            i += 1;
        }
        assert(strokes@.take(strokes@.len() as int) == strokes@);
        self.push_modifier_events(&mut events, held, 0);
        events
    }
}

/// How many times the event occurs.
pub open spec fn count_event(ev: Seq<(u8, bool)>, e: (u8, bool)) -> int
    decreases ev.len(),
{
    if ev.len() == 0 {
        0
    } else {
        count_event(ev.drop_last(), e) + if ev.last() == e {
            1int
        } else {
            0int
        }
    }
}

proof fn lemma_count_event_add(a: Seq<(u8, bool)>, b: Seq<(u8, bool)>, e: (u8, bool))
    ensures
        count_event(a + b, e) == count_event(a, e) + count_event(b, e),
    decreases b.len(),
{
    if b.len() == 0 {
        assert(a + b == a);
    } else {
        lemma_count_event_add(a, b.drop_last(), e);
        assert((a + b).drop_last() == a + b.drop_last());
        assert((a + b).last() == b.last());
    }
}

proof fn lemma_count_event_small(x: (u8, bool), y: (u8, bool), e: (u8, bool))
    ensures
        count_event(Seq::<(u8, bool)>::empty(), e) == 0,
        count_event(seq![x], e) == if x == e {
            1int
        } else {
            0int
        },
        count_event(seq![x, y], e) == (if x == e {
            1int
        } else {
            0int
        }) + (if y == e {
            1int
        } else {
            0int
        }),
{
    assert(seq![x].drop_last() == Seq::<(u8, bool)>::empty());
    assert(seq![x].last() == x);
    assert(seq![x, y].drop_last() == seq![x]);
    assert(seq![x, y].last() == y);
    assert(count_event(seq![x], e) == count_event(Seq::<(u8, bool)>::empty(), e) + if x == e {
        1int
    } else {
        0int
    });
}

proof fn lemma_count_event_add8(
    a: Seq<(u8, bool)>,
    b: Seq<(u8, bool)>,
    c: Seq<(u8, bool)>,
    d: Seq<(u8, bool)>,
    f: Seq<(u8, bool)>,
    g: Seq<(u8, bool)>,
    h: Seq<(u8, bool)>,
    i: Seq<(u8, bool)>,
    e: (u8, bool),
)
    ensures
        count_event(a + b + c + d + f + g + h + i, e) == count_event(a, e) + count_event(b, e)
            + count_event(c, e) + count_event(d, e) + count_event(f, e) + count_event(g, e)
            + count_event(h, e) + count_event(i, e),
{
    lemma_count_event_add(a, b, e);
    lemma_count_event_add(a + b, c, e);
    lemma_count_event_add(a + b + c, d, e);
    lemma_count_event_add(a + b + c + d, f, e);
    lemma_count_event_add(a + b + c + d + f, g, e);
    lemma_count_event_add(a + b + c + d + f + g, h, e);
    lemma_count_event_add(a + b + c + d + f + g + h, i, e);
}

impl X11Keymap {
    /// `1` when the modifier at position `k` is held and its key is `kc` (not 0), else `0`.
    pub open spec fn held_at(&self, held: u8, kc: u8, k: int) -> int {
        let m = modifier_at(k);
        if held & modifier_bit(m) != 0 && self.spec_modifier_keycode(m) == kc && kc != 0 {
            1
        } else {
            0
        }
    }

    /// How many held modifiers have the key `kc`.
    pub open spec fn held_count(&self, held: u8, kc: u8) -> int {
        self.held_at(held, kc, 0) + self.held_at(held, kc, 1) + self.held_at(held, kc, 2)
            + self.held_at(held, kc, 3)
    }

    proof fn lemma_at_counts(&self, held: u8, want: u8, k: int, kc: u8)
        ensures
            count_event(self.release_at(held, want, k), (kc, true)) == 0,
            count_event(self.press_at(held, want, k), (kc, false)) == 0,
            count_event(self.press_at(held, want, k), (kc, true)) - count_event(
                self.release_at(held, want, k),
                (kc, false),
            ) == self.held_at(want, kc, k) - self.held_at(held, kc, k),
    {
        let x = (0u8, false);
        let m = modifier_at(k);
        lemma_count_event_small(x, x, (kc, true));
        lemma_count_event_small(x, x, (kc, false));
        lemma_count_event_small((self.spec_modifier_keycode(m), false), x, (kc, true));
        lemma_count_event_small((self.spec_modifier_keycode(m), false), x, (kc, false));
        lemma_count_event_small((self.spec_modifier_keycode(m), true), x, (kc, true));
        lemma_count_event_small((self.spec_modifier_keycode(m), true), x, (kc, false));
    }

    proof fn lemma_modifier_events_count(&self, held: u8, want: u8, kc: u8)
        ensures
            count_event(self.modifier_events(held, want), (kc, true)) - count_event(
                self.modifier_events(held, want),
                (kc, false),
            ) == self.held_count(want, kc) - self.held_count(held, kc),
    {
        let r3 = self.release_at(held, want, 3);
        let r2 = self.release_at(held, want, 2);
        let r1 = self.release_at(held, want, 1);
        let r0 = self.release_at(held, want, 0);
        let p0 = self.press_at(held, want, 0);
        let p1 = self.press_at(held, want, 1);
        let p2 = self.press_at(held, want, 2);
        let p3 = self.press_at(held, want, 3);
        lemma_count_event_add8(r3, r2, r1, r0, p0, p1, p2, p3, (kc, true));
        lemma_count_event_add8(r3, r2, r1, r0, p0, p1, p2, p3, (kc, false));
        self.lemma_at_counts(held, want, 0, kc);
        self.lemma_at_counts(held, want, 1, kc);
        self.lemma_at_counts(held, want, 2, kc);
        self.lemma_at_counts(held, want, 3, kc);
    }

    proof fn lemma_strokes_events_balance(&self, strokes: Seq<(Key, Modifiers)>, kc: u8)
        ensures
            count_event(self.strokes_events(strokes).0, (kc, true)) == count_event(
                self.strokes_events(strokes).0,
                (kc, false),
            ) + self.held_count(self.strokes_events(strokes).1, kc),
        decreases strokes.len(),
    {
        if strokes.len() == 0 {
            lemma_count_event_small((0u8, false), (0u8, false), (kc, true));
            lemma_count_event_small((0u8, false), (0u8, false), (kc, false));
            assert((0u8 & 1u8) == 0u8 && (0u8 & 2u8) == 0u8 && (0u8 & 4u8) == 0u8 && (0u8 & 8u8)
                == 0u8) by (bit_vector);
        } else {
            let p = strokes.drop_last();
            self.lemma_strokes_events_balance(p, kc);
            let (ev, held) = self.strokes_events(p);
            let (ev2, held2) = self.stroke_events(held, strokes.last());
            lemma_count_event_add(ev, ev2, (kc, true));
            lemma_count_event_add(ev, ev2, (kc, false));
            if let Some((k, shift)) = self.spec_keycode_for_key(strokes.last().0) {
                let want = held2;
                let me = self.modifier_events(held, want);
                self.lemma_modifier_events_count(held, want, kc);
                lemma_count_event_add(me, seq![(k, true), (k, false)], (kc, true));
                lemma_count_event_add(me, seq![(k, true), (k, false)], (kc, false));
                lemma_count_event_small((k, true), (k, false), (kc, true));
                lemma_count_event_small((k, true), (k, false), (kc, false));
            } else {
                lemma_count_event_small((0u8, false), (0u8, false), (kc, true));
                lemma_count_event_small((0u8, false), (0u8, false), (kc, false));
            }
        }
    }
}

/// Sending keys leaves no key down: in the planned events, every keycode is released as many
/// times as it is pressed.
pub proof fn lemma_plan_balanced(keymap: &X11Keymap, strokes: Seq<(Key, Modifiers)>, kc: u8)
    ensures
        count_event(keymap.spec_plan(strokes), (kc, true)) == count_event(
            keymap.spec_plan(strokes),
            (kc, false),
        ),
{
    keymap.lemma_strokes_events_balance(strokes, kc);
    let (ev, held) = keymap.strokes_events(strokes);
    keymap.lemma_modifier_events_count(held, 0, kc);
    lemma_count_event_add(ev, keymap.modifier_events(held, 0), (kc, true));
    lemma_count_event_add(ev, keymap.modifier_events(held, 0), (kc, false));
    assert((0u8 & 1u8) == 0u8 && (0u8 & 2u8) == 0u8 && (0u8 & 4u8) == 0u8 && (0u8 & 8u8) == 0u8)
        by (bit_vector);
}

/// How many more times the keycode is pressed than released in the events: 1 while its key
/// is held down after them.
pub open spec fn key_down(ev: Seq<(u8, bool)>, kc: u8) -> int {
    count_event(ev, (kc, true)) - count_event(ev, (kc, false))
}

/// Whether the key of a stroke is to be typed with the modifier: one of the stroke's own, or
/// Shift for a key that needs it.
pub open spec fn wants_modifier(stroke: (Key, Modifiers), shift: bool, m: Modifier) -> bool {
    stroke.1.has(m) || (shift && m == Modifier::Shift)
}

proof fn lemma_want_bit(x: u8, s: u8, b: u8)
    by (bit_vector)
    requires
        b == 1u8 || b == 2u8 || b == 4u8 || b == 8u8,
        s == 0u8 || s == 4u8,
    ensures
        (((x | s) & 15u8) & b != 0u8) == ((x & b != 0u8) || (s == 4u8 && b == 4u8)),
{
}

impl X11Keymap {
    /// Each modifier that the mapping has a key for has a key of its own.
    pub open spec fn distinct_modifier_keys(&self) -> bool {
        forall|m1: Modifier, m2: Modifier|
            m1 != m2 && self.spec_modifier_keycode(m1) != 0 ==> self.spec_modifier_keycode(m1)
                != self.spec_modifier_keycode(m2)
    }

    /// Where the plan presses the key of stroke `i` with exactly the modifiers that stroke
    /// wants held, at position `ps[i]`, before the key presses of the later strokes (nothing
    /// for a key that no keycode types).
    pub open spec fn tapped_with_own_modifiers(
        &self,
        strokes: Seq<(Key, Modifiers)>,
        plan: Seq<(u8, bool)>,
        ps: Seq<int>,
        i: int,
    ) -> bool {
        match self.spec_keycode_for_key(strokes[i].0) {
            None => true,
            Some((kc, shift)) => {
                &&& 0 <= ps[i] < plan.len()
                &&& plan[ps[i]] == (kc, true)
                &&& forall|m: Modifier|
                    self.spec_modifier_keycode(m) != 0 ==> key_down(
                        plan.take(ps[i]),
                        #[trigger] self.spec_modifier_keycode(m),
                    ) == (if wants_modifier(strokes[i], shift, m) {
                        1int
                    } else {
                        0int
                    })
                &&& forall|j: int|
                    i < j < strokes.len() && (#[trigger] self.spec_keycode_for_key(strokes[j].0))
                        is Some ==> ps[i] < ps[j]
            },
        }
    }

    spec fn want_of(stroke: (Key, Modifiers), shift: bool) -> u8 {
        ((stroke.1.spec_bits() | (if shift {
            4u8
        } else {
            0u8
        })) & 15u8) as u8
    }

    spec fn key_pos(&self, strokes: Seq<(Key, Modifiers)>, i: int) -> int {
        let (ev, held) = self.strokes_events(strokes.take(i));
        match self.spec_keycode_for_key(strokes[i].0) {
            Some((kc, shift)) => (ev.len() + self.modifier_events(
                held,
                Self::want_of(strokes[i], shift),
            ).len()) as int,
            None => ev.len() as int,
        }
    }

    proof fn lemma_events_step(&self, strokes: Seq<(Key, Modifiers)>, i: int)
        requires
            0 <= i < strokes.len(),
        ensures
            self.strokes_events(strokes.take(i + 1)) == ({
                let (ev, held) = self.strokes_events(strokes.take(i));
                let (ev2, held2) = self.stroke_events(held, strokes[i]);
                (ev + ev2, held2)
            }),
    {
        assert(strokes.take(i + 1).drop_last() == strokes.take(i));
        assert(strokes.take(i + 1).last() == strokes[i]);
    }

    proof fn lemma_events_prefix(&self, strokes: Seq<(Key, Modifiers)>, i: int, j: int)
        requires
            0 <= i <= j <= strokes.len(),
        ensures
            self.strokes_events(strokes.take(i)).0.len() <= self.strokes_events(strokes.take(j)).0.len(),
            self.strokes_events(strokes.take(j)).0.take(
                self.strokes_events(strokes.take(i)).0.len() as int,
            ) == self.strokes_events(strokes.take(i)).0,
        decreases j - i,
    {
        let a = self.strokes_events(strokes.take(i)).0;
        if i == j {
            assert(a.take(a.len() as int) == a);
        } else {
            self.lemma_events_prefix(strokes, i, j - 1);
            self.lemma_events_step(strokes, j - 1);
            let b = self.strokes_events(strokes.take(j - 1)).0;
            let c = self.strokes_events(strokes.take(j)).0;
            assert(c.take(a.len() as int) == b.take(a.len() as int));
        }
    }

    proof fn lemma_held_count_distinct(&self, want: u8, m: Modifier)
        requires
            self.distinct_modifier_keys(),
            self.spec_modifier_keycode(m) != 0,
        ensures
            self.held_count(want, self.spec_modifier_keycode(m)) == (if want & modifier_bit(m)
                != 0 {
                1int
            } else {
                0int
            }),
    {
        let kc = self.spec_modifier_keycode(m);
        assert(modifier_at(0) == Modifier::Ctrl);
        assert(modifier_at(1) == Modifier::Alt);
        assert(modifier_at(2) == Modifier::Shift);
        assert(modifier_at(3) == Modifier::Super);
        assert(m != Modifier::Ctrl ==> self.spec_modifier_keycode(Modifier::Ctrl) != kc);
        assert(m != Modifier::Alt ==> self.spec_modifier_keycode(Modifier::Alt) != kc);
        assert(m != Modifier::Shift ==> self.spec_modifier_keycode(Modifier::Shift) != kc);
        assert(m != Modifier::Super ==> self.spec_modifier_keycode(Modifier::Super) != kc);
    }

    proof fn lemma_modifiers_down(
        &self,
        strokes: Seq<(Key, Modifiers)>,
        i: int,
        kc: u8,
        shift: bool,
        m: Modifier,
    )
        requires
            self.distinct_modifier_keys(),
            0 <= i < strokes.len(),
            self.spec_keycode_for_key(strokes[i].0) == Some((kc, shift)),
            self.spec_modifier_keycode(m) != 0,
        ensures
            key_down(
                self.strokes_events(strokes.take(i)).0 + self.modifier_events(
                    self.strokes_events(strokes.take(i)).1,
                    Self::want_of(strokes[i], shift),
                ),
                self.spec_modifier_keycode(m),
            ) == (if wants_modifier(strokes[i], shift, m) {
                1int
            } else {
                0int
            }),
    {
        let (ev, held) = self.strokes_events(strokes.take(i));
        let want = Self::want_of(strokes[i], shift);
        let me = self.modifier_events(held, want);
        let mk = self.spec_modifier_keycode(m);
        self.lemma_strokes_events_balance(strokes.take(i), mk);
        self.lemma_modifier_events_count(held, want, mk);
        lemma_count_event_add(ev, me, (mk, true));
        lemma_count_event_add(ev, me, (mk, false));
        self.lemma_held_count_distinct(want, m);
        lemma_want_bit(
            strokes[i].1.spec_bits(),
            if shift {
                4u8
            } else {
                0u8
            },
            modifier_bit(m),
        );
    }

    proof fn lemma_tapped(&self, strokes: Seq<(Key, Modifiers)>, ps: Seq<int>, i: int)
        requires
            self.distinct_modifier_keys(),
            0 <= i < strokes.len(),
            ps.len() == strokes.len(),
            forall|k: int| 0 <= k < strokes.len() ==> ps[k] == self.key_pos(strokes, k),
        ensures
            self.tapped_with_own_modifiers(strokes, self.spec_plan(strokes), ps, i),
    {
        let n = strokes.len() as int;
        let plan = self.spec_plan(strokes);
        if let Some((kc, shift)) = self.spec_keycode_for_key(strokes[i].0) {
            let (ev, held) = self.strokes_events(strokes.take(i));
            let want = Self::want_of(strokes[i], shift);
            let me = self.modifier_events(held, want);
            let p = ps[i];
            self.lemma_events_step(strokes, i);
            let e1 = self.strokes_events(strokes.take(i + 1)).0;
            assert(e1 == ev + me + seq![(kc, true), (kc, false)]);
            self.lemma_events_prefix(strokes, i + 1, n);
            assert(strokes.take(n) == strokes);
            let en = self.strokes_events(strokes).0;
            assert(plan == en + self.modifier_events(self.strokes_events(strokes).1, 0));
            assert(plan.take(e1.len() as int) == e1);
            assert(p == ev.len() + me.len());
            assert(plan[p] == e1[p]);
            assert(plan.take(p) == e1.take(p));
            assert(e1.take(p) == ev + me);
            assert forall|m: Modifier|
                self.spec_modifier_keycode(m) != 0 implies key_down(
                    plan.take(ps[i]),
                    #[trigger] self.spec_modifier_keycode(m),
                ) == (if wants_modifier(strokes[i], shift, m) {
                    1int
                } else {
                    0int
                }) by {
                self.lemma_modifiers_down(strokes, i, kc, shift, m);
            }
            assert forall|j: int|
                i < j < strokes.len() && (#[trigger] self.spec_keycode_for_key(strokes[j].0))
                    is Some implies ps[i] < ps[j] by {
                self.lemma_events_prefix(strokes, i + 1, j);
            }
        }
    }
}

/// Each key is tapped with exactly its own modifiers: in the planned events, the key of every
/// stroke that the mapping can type is pressed, in stroke order, at a point where the modifier
/// keys held down are exactly the stroke's own modifiers, with Shift when the key needs it, so
/// that no modifier of an earlier key stays held over a later one. This holds for every
/// mapping whose modifiers have keys of their own.
pub proof fn lemma_plan_taps_with_own_modifiers(
    keymap: &X11Keymap,
    strokes: Seq<(Key, Modifiers)>,
)
    requires
        keymap.distinct_modifier_keys(),
    ensures
        exists|ps: Seq<int>|
            ps.len() == strokes.len() && forall|i: int|
                0 <= i < strokes.len() ==> #[trigger] keymap.tapped_with_own_modifiers(
                    strokes,
                    keymap.spec_plan(strokes),
                    ps,
                    i,
                ),
{
    let ps = Seq::new(strokes.len(), |k: int| keymap.key_pos(strokes, k));
    assert forall|i: int| 0 <= i < strokes.len() implies #[trigger] keymap.tapped_with_own_modifiers(
        strokes,
        keymap.spec_plan(strokes),
        ps,
        i,
    ) by {
        keymap.lemma_tapped(strokes, ps, i);
    }
    assert(ps.len() == strokes.len() && forall|i: int|
        0 <= i < strokes.len() ==> #[trigger] keymap.tapped_with_own_modifiers(
            strokes,
            keymap.spec_plan(strokes),
            ps,
            i,
        ));
}

} // verus!
