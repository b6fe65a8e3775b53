use vstd::prelude::*;

verus! {

/// The element type picked for one sorting run.
#[derive(Clone, Copy, Debug, PartialEq, Eq, Structural)]
pub enum ElementKind {
    Text,
    Int,
    Float,
}

/// The kind a parsed menu entry selects. An entry of 2 means integers and
/// 3 means floating-point; the remaining in-range entries (0, 1 and 4,
/// including the advertised text option 1) all reach the catch-all text
/// branch; everything else falls back to the integer default.
pub open spec fn kind_of_entry(entry: Option<i64>) -> ElementKind {
    match entry {
        Some(o) => if o == 2 {
            ElementKind::Int
        } else if o == 3 {
            ElementKind::Float
        } else if 0 <= o && o <= 4 {
            ElementKind::Text
        } else {
            ElementKind::Int
        },
        None => ElementKind::Int,
    }
}

/// Whether the entry triggers the fallback warning: it does exactly when
/// it is unreadable or outside the advertised range 0 through 4.
pub open spec fn entry_warns(entry: Option<i64>) -> bool {
    match entry {
        Some(o) => !(0 <= o && o <= 4),
        None => true,
    }
}

/// Decide the element kind from the parsed menu entry, together with
/// whether the caller owes the user a fallback warning.
pub fn select_kind(entry: Option<i64>) -> (r: (ElementKind, bool))
    ensures
        r.0 == kind_of_entry(entry),
        r.1 == entry_warns(entry),
{
    match entry {
        Some(o) => {
            if o == 2 {
                (ElementKind::Int, false)
            } else if o == 3 {
                (ElementKind::Float, false)
            } else if 0 <= o && o <= 4 {
                (ElementKind::Text, false)
            } else {
                (ElementKind::Int, true)
            }
        },
        None => (ElementKind::Int, true),
    }
}

} // verus!
