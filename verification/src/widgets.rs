//! What the widgets of the browser compute before they draw.

use vstd::prelude::*;

verus! {

/// How many characters of a label are kept when only `fitting` of them fit:
/// two less, to make room for the dots, unless no more than two fit.
pub open spec fn kept_of(fitting: nat) -> nat {
    if fitting > 2 {
        (fitting - 2) as nat
    } else {
        fitting
    }
}

/// A label cut down to what fits: its first characters and three dots. A
/// label that is no longer than what is kept stays as it is.
pub open spec fn shortened(label: Seq<char>, fitting: nat) -> Seq<char> {
    if kept_of(fitting) < label.len() {
        label.take(kept_of(fitting) as int) + "..."@
    } else {
        label
    }
}

/// Cuts the label of a thumbnail down to the `fitting` characters that the
/// thumbnail has room for.
pub fn shorten_label(label: &str, fitting: usize) -> (text: String)
    ensures
        text@ == shortened(label@, fitting as nat),
{
    let new_len = if fitting > 2 {
        fitting - 2
    } else {
        fitting
    };
    if new_len < label.unicode_len() {
        let mut text = label.substring_char(0, new_len).to_owned();
        text.append("...");
        text
    } else {
        label.to_owned()
    }
}

} // verus!
