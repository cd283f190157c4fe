//! Platform output abstraction: keys, modifiers, and the backend interface.
use vstd::prelude::*;

pub mod x11;

verus! {

/// Modifier keys held alongside a [`Key`], as bit flags: `CTRL` is bit 0, `ALT` bit 1,
/// `SHIFT` bit 2, `SUPER` bit 3.
///
/// `Shift` is per-key: it ORs with the [`Key::Char`]'s intrinsic shift need (e.g. `Char('A')`
/// already implies Shift). Other modifiers stay held only for the keys they're attached to.
#[derive(Debug, Clone, Copy, PartialEq, Eq, Hash, Structural)]
pub struct Modifiers {
    bits: u8,
}

/// The flag bit of each modifier.
pub open spec fn modifier_bit(m: Modifier) -> u8 {
    match m {
        Modifier::Ctrl => 1,
        Modifier::Alt => 2,
        Modifier::Shift => 4,
        Modifier::Super => 8,
    }
}

/// A modifier key.
#[derive(Debug, Clone, Copy, PartialEq, Eq, Hash, Structural)]
pub enum Modifier {
    Ctrl,
    Alt,
    Shift,
    Super,
}

impl Modifiers {
    /// The flag bits.
    pub closed spec fn spec_bits(&self) -> u8 {
        self.bits
    }

    /// The modifier is among these.
    pub open spec fn has(&self, m: Modifier) -> bool {
        self.spec_bits() & modifier_bit(m) != 0
    }

    /// No modifier.
    pub fn empty() -> (res: Self)
        ensures
            res.spec_bits() == 0,
    {
        Modifiers { bits: 0 }
    }

    /// Exactly one modifier.
    pub fn of(m: Modifier) -> (res: Self)
        ensures
            res.spec_bits() == modifier_bit(m),
    {
        let bits = match m {
            Modifier::Ctrl => 1u8,
            Modifier::Alt => 2u8,
            Modifier::Shift => 4u8,
            Modifier::Super => 8u8,
        };
        Modifiers { bits }
    }

    /// The modifiers of the known flag bits of `bits` (other bits are dropped).
    pub fn from_bits_truncate(bits: u8) -> (res: Self)
        ensures
            res.spec_bits() == bits & 15,
    {
        Modifiers { bits: bits & 15 }
    }

    /// The flag bits.
    pub fn bits(&self) -> (res: u8)
        ensures
            res == self.spec_bits(),
    {
        self.bits
    }

    /// Whether the modifier is among these.
    pub fn contains(&self, m: Modifier) -> (res: bool)
        ensures
            res == self.has(m),
    {
        let b = match m {
            Modifier::Ctrl => 1u8,
            Modifier::Alt => 2u8,
            Modifier::Shift => 4u8,
            Modifier::Super => 8u8,
        };
        self.bits & b != 0
    }

    /// The modifiers of both.
    pub fn union(self, other: Self) -> (res: Self)
        ensures
            res.spec_bits() == self.spec_bits() | other.spec_bits(),
    {
        Modifiers { bits: self.bits | other.bits }
    }
}

/// Non-modifier keys.
#[derive(Debug, Clone, Copy, PartialEq, Eq, Hash, Structural)]
pub enum Key {
    Backspace,
    Return,
    Tab,
    Escape,
    Char(char),
}

/// Error produced by the platform output backend.
#[derive(Debug, Clone, PartialEq, Eq)]
pub enum PlatformError {
    /// An error of the active backend, by its message.
    Backend(String),
    /// No backend is available for this build (platform or feature mismatch).
    Unsupported,
}

/// The message that describes a platform error.
pub open spec fn spec_platform_error_message(e: PlatformError) -> Seq<char> {
    match e {
        PlatformError::Backend(m) => "backend error: "@ + m@,
        PlatformError::Unsupported => "unsupported platform"@,
    }
}

impl PlatformError {
    /// The message that describes the error.
    pub fn message(&self) -> (res: String)
        ensures
            res@ == spec_platform_error_message(*self),
    {
        match self {
            PlatformError::Backend(m) => {
                let mut s = String::from_str("backend error: ");
                s.append(m.as_str());
                s
            },
            PlatformError::Unsupported => String::from_str("unsupported platform"),
        }
    }
}

/// Output abstraction.
pub trait Output {
    /// Tap each key with its own modifier set, minimising modifier toggling between
    /// consecutive strokes.
    fn send_keys(&mut self, strokes: &[(Key, Modifiers)]) -> Result<(), PlatformError>;
}

/// Creates the keyboard output backend of this build. This library is built with no backend,
/// so it reports the platform as unsupported.
pub fn new() -> (res: Result<Box<dyn Output>, PlatformError>)
    ensures
        res matches Err(PlatformError::Unsupported),
{
    Err(PlatformError::Unsupported)
}

} // verus!
