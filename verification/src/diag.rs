//! Advisory diagnostics. The collapsing engine tolerates malformed lines;
//! these constructors describe what was tolerated, for a caller's logging
//! sink. They carry no effect on control flow.

use vstd::prelude::*;

use crate::bytes::subvec;

verus! {

#[derive(Clone, Copy, Debug, PartialEq, Eq, Structural)]
pub enum DiagLevel {
    Info,
    Warn,
}

#[derive(Clone, Copy, Debug, PartialEq, Eq, Structural)]
pub enum DiagKind {
    /// The run adopted an event-type filter.
    EventFilterResolved,
    /// A line in idle position could not be read as an event header.
    WeirdEventLine,
    /// A line inside an event could not be read as a frame line.
    WeirdStackLine,
}

/// One diagnostic: what happened, at which severity, and the line or token
/// it happened on.
pub struct Diag {
    pub kind: DiagKind,
    pub level: DiagLevel,
    pub text: Vec<u8>,
}

/// The run will only count events of type `ty` from here on.
pub fn filtering_for_events_of_type(ty: &[u8]) -> (d: Diag)
    ensures
        d.kind == DiagKind::EventFilterResolved,
        d.level == DiagLevel::Info,
        d.text@ == ty@,
{
    Diag { kind: DiagKind::EventFilterResolved, level: DiagLevel::Info, text: subvec(ty, 0, ty.len()) }
}

/// This line stood where a header belongs and was not one.
pub fn weird_event_line(line: &[u8]) -> (d: Diag)
    ensures
        d.kind == DiagKind::WeirdEventLine,
        d.level == DiagLevel::Warn,
        d.text@ == line@,
{
    Diag { kind: DiagKind::WeirdEventLine, level: DiagLevel::Warn, text: subvec(line, 0, line.len()) }
}

/// This line stood inside an event and was no frame line.
pub fn weird_stack_line(line: &[u8]) -> (d: Diag)
    ensures
        d.kind == DiagKind::WeirdStackLine,
        d.level == DiagLevel::Warn,
        d.text@ == line@,
{
    Diag { kind: DiagKind::WeirdStackLine, level: DiagLevel::Warn, text: subvec(line, 0, line.len()) }
}

} // verus!
