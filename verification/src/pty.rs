//! Command-line handling for the wrapped child process.

use vstd::prelude::*;

verus! {

/// Split the wrapper's invocation into the child command and its
/// arguments: the command name comes from the wrapper's configuration and
/// is passed through with every argument unchanged, in order.
pub fn parse_command_from(command: String, args: Vec<String>) -> (r: (String, Vec<String>))
    ensures
        r.0 == command,
        r.1 == args,
{
    (command, args)
}

/// Bytes the wrapper reserves for its own hotkeys; they are filtered out of
/// the stream forwarded to the child.
pub fn is_wrapper_hotkey(byte: u8) -> (r: bool)
    ensures
        r == (byte == 0x02 || byte == 0x13 || byte == 0x11),
{
    byte == 0x02 || byte == 0x13 || byte == 0x11
}

} // verus!
