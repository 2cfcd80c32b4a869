//! Values exchanged with the tool server, and how its answers are read.

use vstd::prelude::*;

verus! {

/// One match of a code search.
#[derive(Debug, Clone)]
pub struct SearchResult {
    pub file: String,
    pub line: usize,
    pub content: String,
}

/// The outcome of a shell command.
#[derive(Debug, Clone)]
pub struct CommandResult {
    pub stdout: String,
    pub stderr: String,
    pub exit_code: i32,
}

/// Reads the reply to a `read_file` call: a tool error is passed on; an
/// answer that is a string is the file's text; any other answer is an
/// "Invalid response" error. `reply` holds the answer's text, or `None`
/// when the answer is not a string.
pub fn read_file_result(reply: Result<Option<String>, String>) -> (res: Result<String, String>)
    ensures
        match reply {
            Err(e) => res == Err::<String, String>(e),
            Ok(Some(t)) => res == Ok::<String, String>(t),
            Ok(None) => res matches Err(m) && m@ == "Invalid response"@,
        },
{
    match reply {
        Err(e) => Err(e),
        Ok(Some(t)) => Ok(t),
        Ok(None) => Err("Invalid response".to_string()),
    }
}

} // verus!
