//! Texts that the reports show.

use vstd::prelude::*;

use crate::compare::optional_count_text;
use crate::model::ModuleSummary;
use crate::text::{chars_of, push_text, string_from_range, text_copy, usize_text};

verus! {

/// An optional count as reports show it: the number, or `-`.
pub fn option_count(value: Option<usize>) -> (r: String)
    ensures
        r@ == optional_count_text(value),
{
    match value {
        Some(n) => usize_text(n),
        None => text_copy("-"),
    }
}

/// The KSP versions a module supports, as the module table shows them: the
/// exact version, else `min-max`, `min+`, `<=max`, or `-`.
pub open spec fn ksp_compat_spec(m: ModuleSummary) -> Seq<char> {
    match m.ksp_version {
        Some(v) => v@,
        None => match (m.ksp_version_min, m.ksp_version_max) {
            (Some(min), Some(max)) => min@ + "-"@ + max@,
            (Some(min), None) => min@ + "+"@,
            (None, Some(max)) => "<="@ + max@,
            (None, None) => "-"@,
        },
    }
}

pub fn ksp_compat(module: &ModuleSummary) -> (r: String)
    ensures
        r@ == ksp_compat_spec(*module),
{
    if let Some(version) = &module.ksp_version {
        return version.clone();
    }
    match (&module.ksp_version_min, &module.ksp_version_max) {
        (Some(min), Some(max)) => {
            let mut s = min.clone();
            push_text(&mut s, "-");
            push_text(&mut s, max.as_str());
            s
        },
        (Some(min), None) => {
            let mut s = min.clone();
            push_text(&mut s, "+");
            s
        },
        (None, Some(max)) => {
            let mut s = text_copy("<=");
            push_text(&mut s, max.as_str());
            s
        },
        (None, None) => text_copy("-"),
    }
}

/// A text cut to at most `max_chars` characters: when longer, its first
/// `max_chars - 1` characters (none when `max_chars` is 0) and `~`.
pub open spec fn truncate_spec(text: Seq<char>, max_chars: nat) -> Seq<char> {
    if text.len() <= max_chars {
        text
    } else {
        let keep = if max_chars == 0 {
            0
        } else {
            max_chars - 1
        };
        text.take(keep).push('~')
    }
}

pub fn truncate(text: &str, max_chars: usize) -> (r: String)
    ensures
        r@ == truncate_spec(text@, max_chars as nat),
{
    let chars = chars_of(text);
    if chars.len() <= max_chars {
        return text_copy(text);
    }
    let keep = max_chars.saturating_sub(1);
    let mut value = string_from_range(&chars, 0, keep);
    value.push('~');
    proof {
        assert(value@ =~= truncate_spec(text@, max_chars as nat));
    }
    value
}

} // verus!
