//! What word expansion asks of the shell that runs it.

use vstd::prelude::*;
use vstd::string::StringSliceAdditionalSpecFns;

verus! {

/// An expansion failure, with the message the shell prints for it.
#[derive(Debug)]
pub struct ExpandError {
    pub message: Vec<u8>,
}

/// A word as the parser hands it over: its raw text and the line it
/// starts on.
#[derive(Debug, Clone)]
pub struct Word {
    pub raw: Vec<u8>,
    pub line: usize,
}

/// The shell state that expansion reads and changes. The shell implements
/// it; expansion decides what to ask and what to do with the answers.
pub trait Context {
    /// The value of a variable, if it is set.
    fn env_var(&self, name: &[u8]) -> Option<Vec<u8>>;
    /// The value of a special parameter (`?`, `$`, `!`, `#`, `-`, ...).
    fn special_param(&self, name: u8) -> Option<Vec<u8>>;
    /// The positional parameter `index` (`0` is the shell name).
    fn positional_param(&self, index: usize) -> Option<Vec<u8>>;
    /// The positional parameters `$1`, `$2`, ...
    fn positional_params(&self) -> Vec<Vec<u8>>;
    /// Assigns a variable.
    fn set_var(&mut self, name: &[u8], value: Vec<u8>) -> Result<(), ExpandError>;
    /// Whether `set -u` is in effect.
    fn nounset_enabled(&self) -> bool;
    /// Whether pathname expansion is on (`set -f` turns it off).
    fn pathname_expansion_enabled(&self) -> (r: bool)
        default_ensures
            r,
    {
        true
    }
    /// The name of the shell, `$0`.
    fn shell_name(&self) -> Vec<u8>;
    /// Runs a command substitution and returns its output.
    fn command_substitute(&mut self, command: &[u8]) -> Result<Vec<u8>, ExpandError>;
    /// The home directory of a user, for `~user`.
    fn home_dir_for_user(&self, name: &[u8]) -> Option<Vec<u8>>;
    /// Sets the current line number; every query about the parameters
    /// and home directories answers as before.
    fn set_lineno(&mut self, _line: usize)
        ensures
            forall|n: &[u8], o: Option<Vec<u8>>| #[trigger] call_ensures(Self::env_var, (&*final(self), n), o)
                == call_ensures(Self::env_var, (&*old(self), n), o),
            forall|c: u8, o: Option<Vec<u8>>| #[trigger] call_ensures(Self::special_param, (&*final(self), c), o)
                == call_ensures(Self::special_param, (&*old(self), c), o),
            forall|i: usize, o: Option<Vec<u8>>| #[trigger] call_ensures(Self::positional_param, (&*final(self), i), o)
                == call_ensures(Self::positional_param, (&*old(self), i), o),
            forall|o: Vec<Vec<u8>>| #[trigger] call_ensures(Self::positional_params, (&*final(self),), o)
                == call_ensures(Self::positional_params, (&*old(self),), o),
            forall|b: bool| #[trigger] call_ensures(Self::nounset_enabled, (&*final(self),), b)
                == call_ensures(Self::nounset_enabled, (&*old(self),), b),
            forall|o: Vec<u8>| #[trigger] call_ensures(Self::shell_name, (&*final(self),), o)
                == call_ensures(Self::shell_name, (&*old(self),), o),
            forall|n: &[u8], o: Option<Vec<u8>>| #[trigger] call_ensures(Self::home_dir_for_user, (&*final(self), n), o)
                == call_ensures(Self::home_dir_for_user, (&*old(self), n), o),
    {
    }
    /// Advances the current line number by one; every query about the
    /// parameters and home directories answers as before.
    fn inc_lineno(&mut self)
        ensures
            forall|n: &[u8], o: Option<Vec<u8>>| #[trigger] call_ensures(Self::env_var, (&*final(self), n), o)
                == call_ensures(Self::env_var, (&*old(self), n), o),
            forall|c: u8, o: Option<Vec<u8>>| #[trigger] call_ensures(Self::special_param, (&*final(self), c), o)
                == call_ensures(Self::special_param, (&*old(self), c), o),
            forall|i: usize, o: Option<Vec<u8>>| #[trigger] call_ensures(Self::positional_param, (&*final(self), i), o)
                == call_ensures(Self::positional_param, (&*old(self), i), o),
            forall|o: Vec<Vec<u8>>| #[trigger] call_ensures(Self::positional_params, (&*final(self),), o)
                == call_ensures(Self::positional_params, (&*old(self),), o),
            forall|b: bool| #[trigger] call_ensures(Self::nounset_enabled, (&*final(self),), b)
                == call_ensures(Self::nounset_enabled, (&*old(self),), b),
            forall|o: Vec<u8>| #[trigger] call_ensures(Self::shell_name, (&*final(self),), o)
                == call_ensures(Self::shell_name, (&*old(self),), o),
            forall|n: &[u8], o: Option<Vec<u8>>| #[trigger] call_ensures(Self::home_dir_for_user, (&*final(self), n), o)
                == call_ensures(Self::home_dir_for_user, (&*old(self), n), o),
    {
    }
    /// The current line number.
    fn lineno(&self) -> (r: usize)
        default_ensures
            r == 0,
    {
        0
    }
    /// Whether a file exists at `path`.
    fn file_exists(&self, path: &[u8]) -> bool;
    /// The names of the entries of the directory at `path`, or `None` if
    /// it cannot be read.
    fn read_dir_entries(&self, path: &[u8]) -> Option<Vec<Vec<u8>>>;
}

/// An error with the bytes of `msg` as its message.
pub fn expand_error(msg: &str) -> (e: ExpandError)
    ensures
        e.message@ == msg.spec_bytes(),
{
    ExpandError { message: crate::chars::lit(msg) }
}

} // verus!
