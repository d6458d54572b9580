//! Thin trusted boundary around the outside world: fresh identifiers,
//! timestamps, and one `String` primitive that vstd does not specify.
use vstd::prelude::*;

verus! {

/// Relies on `uuid::Uuid::new_v4` and its `Display` impl: a freshly drawn
/// random identifier in the hyphenated textual form. The value is random,
/// so nothing is promised of it.
#[verifier::external_body]
pub(crate) fn new_id() -> String {
    uuid::Uuid::new_v4().to_string()
}

/// Relies on `chrono::Local::now` and `DateTime::format`: the current local
/// time rendered as `YYYY-MM-DD HH:MM`. The value depends on the clock, so
/// nothing is promised of it.
#[verifier::external_body]
pub(crate) fn now_stamp() -> String {
    chrono::Local::now().format("%Y-%m-%d %H:%M").to_string()
}

/// Relies on `String::push`: appends exactly one character.
#[verifier::external_body]
pub(crate) fn push_char(s: &mut String, c: char)
    ensures
        final(s)@ == old(s)@.push(c),
{
    s.push(c);
}

} // verus!
