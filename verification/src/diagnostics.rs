//! Coded diagnostics (`QAI-<AREA>-NNNN`) and the CLI exit-code table.

use vstd::prelude::*;
use crate::text::{decimal4, owned, push_char, push_decimal4};

verus! {

/// A diagnostic code: a namespace such as `QAI-QUR` and a number.
#[derive(Debug, Clone)]
pub struct DiagnosticCode {
    /// Namespace, e.g. `QAI-QUR`.
    pub namespace: String,
    /// Number within the namespace.
    pub number: u32,
}

/// Rendered form of a code: `<namespace>-<number zero-padded to four digits>`.
pub open spec fn code_text(namespace: Seq<char>, number: nat) -> Seq<char> {
    namespace + seq!['-'] + decimal4(number)
}

impl DiagnosticCode {
    /// Code `namespace`-`number`.
    pub fn new(namespace: &str, number: u32) -> (c: DiagnosticCode)
        ensures
            c.namespace@ == namespace@,
            c.number == number,
    {
        DiagnosticCode { namespace: owned(namespace), number }
    }

    /// Rendered text (`QAI-QUR-0303`).
    pub fn render(&self) -> (r: String)
        ensures
            r@ == code_text(self.namespace@, self.number as nat),
    {
        let mut r = owned(self.namespace.as_str());
        push_char(&mut r, '-');
        push_decimal4(&mut r, self.number as u64);
        r
    }
}

/// Process exit codes shared by every command.
pub const EXIT_OK: i32 = 0;
/// Generic failure.
pub const EXIT_GENERIC: i32 = 1;
/// Usage error.
pub const EXIT_USAGE: i32 = 2;
/// Validation failed.
pub const EXIT_VALIDATION: i32 = 3;
/// Denied by policy.
pub const EXIT_POLICY: i32 = 4;
/// Not found.
pub const EXIT_NOT_FOUND: i32 = 5;
/// Conflict or wrong state.
pub const EXIT_CONFLICT: i32 = 6;
/// Cancelled.
pub const EXIT_CANCELLED: i32 = 7;
/// Internal error.
pub const EXIT_INTERNAL: i32 = 70;

} // verus!
