//! Dimmed text, as the `colored` crate writes it.

use colored::Colorize;
use vstd::prelude::*;

verus! {

/// What `colored` makes of a text that it dims while colouring is switched
/// on: the text between the codes that switch the dimming on and off again.
pub uninterp spec fn dimmed_form(text: Seq<char>) -> Seq<char>;

/// A text as it is shown: dimmed, or as it stands.
pub open spec fn shown(text: Seq<char>, dimmed: bool) -> Seq<char> {
    if dimmed {
        dimmed_form(text)
    } else {
        text
    }
}

/// Calls `colored::Colorize::dimmed` on the text and writes the outcome to a
/// string. Whether `colored` colours at all is a switch of the process: it
/// goes by where the output is sent and by variables such as `NO_COLOR`, and
/// the program may set it. So the contract says that the text comes back
/// either unchanged or in the one form that `colored` gives a dimmed text; it
/// takes the switch to hold still while the text is written. Nothing of this
/// is proved.
#[verifier::external_body]
pub(crate) fn dimmed(text: &str) -> (styled: String)
    ensures
        styled@ == text@ || styled@ == dimmed_form(text@),
{
    text.dimmed().to_string()
}

} // verus!
