//! Keyboard output abstraction of the platform.
use vstd::prelude::*;

verus! {

/// Error produced by the platform output backend.
#[derive(Debug, Clone, PartialEq, Eq)]
pub enum PlatformError {
    /// An error of the active backend, by its message.
    Backend(String),
    /// No backend is available for this build (platform or feature mismatch).
    Unsupported,
}

/// The message that describes a platform error.
pub open spec fn spec_platform_error_message(e: PlatformError) -> Seq<char> {
    match e {
        PlatformError::Backend(m) => "backend error: "@ + m@,
        PlatformError::Unsupported => "unsupported platform"@,
    }
}

impl PlatformError {
    /// The message that describes the error.
    pub fn message(&self) -> (res: String)
        ensures
            res@ == spec_platform_error_message(*self),
    {
        match self {
            PlatformError::Backend(m) => {
                let mut s = String::from_str("backend error: ");
                s.append(m.as_str());
                s
            },
            PlatformError::Unsupported => String::from_str("unsupported platform"),
        }
    }
}

/// Keyboard output abstraction.
pub trait KeyboardOutput {
    fn send_backspaces(&mut self, count: usize) -> Result<(), PlatformError>;

    fn send_string(&mut self, s: &str) -> Result<(), PlatformError>;

    fn send_key_combination(&mut self, key: &str, modifiers: &[&str]) -> Result<(), PlatformError>;
}

/// Creates the keyboard output backend of this build. This library is built with no backend,
/// so it reports the platform as unsupported.
pub fn create_output() -> (res: Result<Box<dyn KeyboardOutput>, PlatformError>)
    ensures
        res matches Err(PlatformError::Unsupported),
{
    Err(PlatformError::Unsupported)
}

} // verus!
