use std::io::Write;

use vstd::prelude::*;

verus! {

/// Relies on std's write to standard output: prints the text as is.
#[verifier::external_body]
pub(crate) fn emit_text(s: &str) {
    let _ = write!(std::io::stdout(), "{}", s);
}

/// Relies on std's writeln to standard output: ends the current line.
#[verifier::external_body]
pub(crate) fn emit_newline() {
    let _ = writeln!(std::io::stdout());
}

/// Relies on std's write to standard output: prints the number in decimal.
#[verifier::external_body]
pub(crate) fn emit_number(n: usize) {
    let _ = write!(std::io::stdout(), "{}", n);
}

} // verus!
