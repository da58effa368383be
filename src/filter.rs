//! Which windows are worth showing.
use vstd::prelude::*;
use crate::model::WindowInfo;
use crate::text::chars_equal;
use crate::text::chars_of;
use crate::text::contains_chars;
use crate::text::contains_seq;
use crate::text::lower_of;
use crate::text::lowercase;

verus! {

/// Whether a window with this title and class is left out of the list, given
/// the class in lower case: the dock's own window, desktop-shell and
/// system-helper windows, and windows with neither title nor class.
pub open spec fn skip_rule(title: Seq<char>, class: Seq<char>, class_lower: Seq<char>) -> bool {
    ||| title == "Aura Dock"@
    ||| class_lower == "aura-ui"@
    ||| class_lower == "aura_ui"@
    ||| class_lower == "gjs"@
    ||| contains_seq(class_lower, "gnome-shell"@)
    ||| contains_seq(class_lower, "gsd-"@)
    ||| class_lower == "ibus-extension-gtk3"@
    ||| class_lower == "ibus-ui-gtk3"@
    ||| contains_seq(class_lower, "polkit"@)
    ||| (title.len() == 0 && class.len() == 0)
}

/// The filter, given the class already in lower case.
pub fn should_skip_lowered(title: &str, class: &str, class_lower: &str) -> (r: bool)
    ensures
        r == skip_rule(title@, class@, class_lower@),
{
    let t = chars_of(title);
    let c = chars_of(class);
    let cl = chars_of(class_lower);
    chars_equal(&t, &chars_of("Aura Dock")) || chars_equal(&cl, &chars_of("aura-ui"))
        || chars_equal(&cl, &chars_of("aura_ui")) || chars_equal(&cl, &chars_of("gjs"))
        || contains_chars(&cl, &chars_of("gnome-shell")) || contains_chars(&cl, &chars_of("gsd-"))
        || chars_equal(&cl, &chars_of("ibus-extension-gtk3")) || chars_equal(
        &cl,
        &chars_of("ibus-ui-gtk3"),
    ) || contains_chars(&cl, &chars_of("polkit")) || (t.len() == 0 && c.len() == 0)
}

/// Whether a window is left out of the list. The class is compared without
/// regard to case.
pub fn should_skip_window(info: &WindowInfo) -> (r: bool)
    ensures
        r == skip_rule(info.title@, info.class@, lower_of(info.class@)),
{
    let class_lower = lowercase(info.class.as_str());
    should_skip_lowered(info.title.as_str(), info.class.as_str(), class_lower.as_str())
}

} // verus!
