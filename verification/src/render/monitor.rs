//! Monitor-selection policy.
//!
//! The windowing layer enumerates the monitors and leaves the decision to
//! [`match_monitor_index`].
use vstd::prelude::*;

use crate::text;
use crate::text::{parse_index, position_containing_ignoring_case};

verus! {

/// The first index that is not `primary`.
pub open spec fn first_other(primary: usize) -> usize {
    if primary == 0 {
        1
    } else {
        0
    }
}

/// Without a request the primary monitor is avoided, and one of the first two is
/// taken.
pub proof fn default_avoids_the_primary(primary: usize)
    ensures
        first_other(primary) != primary,
        first_other(primary) < 2,
{
}

/// Choose which monitor to target for borderless fullscreen.
///
/// Given the enumerated monitor `names`, the index of the `primary` monitor, and
/// the user's request, return the index of the monitor to target, or `None` to
/// let the windowing layer pick the current monitor.
///
/// - A request that is a number: that monitor index, if it is in range.
/// - Any other request: the first monitor whose name contains it, ignoring case.
/// - No request: the first non-primary monitor when more than one exists.
pub fn match_monitor_index(names: &[String], primary: usize, requested: Option<&str>) -> (r: Option<
    usize,
>)
    ensures
        r is Some ==> r->0 < names@.len(),
        match requested {
            Some(request) => match text::index_of(request@) {
                Some(index) => if index < names@.len() {
                    r == Some(index as usize)
                } else {
                    r is None
                },
                None => text::is_first(r, text::lowered_texts(names@), text::lowered(request@)),
            },
            None => if names@.len() > 1 {
                r == Some(first_other(primary))
            } else {
                r is None
            },
        },
{
    match requested {
        Some(request) => {
            match parse_index(request) {
                Some(index) => {
                    if index < names.len() {
                        Some(index)
                    } else {
                        None
                    }
                },
                None => position_containing_ignoring_case(names, request),
            }
        },
        None => {
            if names.len() > 1 {
                // Prefer the first output that isn't the primary panel.
                if primary == 0 {
                    Some(1)
                } else {
                    Some(0)
                }
            } else {
                // Single (or no) output: the current monitor is used.
                None
            }
        },
    }
}

/// What to do about the monitor.
#[derive(Copy, Clone, Debug, PartialEq, Eq, Structural)]
pub enum MonitorChoice {
    /// Let the windowing layer pick.
    Default,
    /// The monitor at this place of the list.
    Index(usize),
    /// The request matches no monitor: warn, and let the windowing layer pick.
    Unmatched,
}

/// The name of a monitor; one that does not tell its name has the empty one.
fn monitor_name(name: &Option<String>) -> (r: String)
    ensures
        r@ == (match *name {
            Some(n) => n@,
            None => Seq::empty(),
        }),
{
    match name {
        Some(n) => n.clone(),
        None => String::new(),
    }
}

/// The names of monitors.
pub open spec fn named(names: Seq<Option<String>>) -> Seq<Seq<char>> {
    Seq::new(
        names.len(),
        |i: int|
            match names[i] {
                Some(n) => n@,
                None => Seq::empty(),
            },
    )
}

/// The lowercase names of monitors.
pub open spec fn lowered_names(names: Seq<Option<String>>) -> Seq<Seq<char>> {
    Seq::new(names.len(), |i: int| text::lowered(named(names)[i]))
}

/// Resolve a monitor request against the enumerated monitors (`None` where a
/// monitor does not tell its name), the place of the primary one among them (the
/// first where it is not known) and the request.
pub fn choose_monitor(
    names: &[Option<String>],
    primary: Option<usize>,
    requested: Option<&str>,
) -> (r: MonitorChoice)
    ensures
        r is Index ==> r->Index_0 < names@.len(),
        names@.len() == 0 ==> r == MonitorChoice::Default,
        names@.len() > 0 ==> match requested {
            Some(request) => match text::index_of(request@) {
                Some(index) => r == if index < names@.len() {
                    MonitorChoice::Index(index as usize)
                } else {
                    MonitorChoice::Unmatched
                },
                None => match r {
                    MonitorChoice::Default => false,
                    MonitorChoice::Index(i) => text::is_first(
                        Some(i),
                        lowered_names(names@),
                        text::lowered(request@),
                    ),
                    MonitorChoice::Unmatched => text::is_first(
                        None,
                        lowered_names(names@),
                        text::lowered(request@),
                    ),
                },
            },
            None => r == if names@.len() > 1 {
                MonitorChoice::Index(
                    first_other(
                        match primary {
                            Some(p) => p,
                            None => 0,
                        },
                    ),
                )
            } else {
                MonitorChoice::Default
            },
        },
{
    if names.len() == 0 {
        return MonitorChoice::Default;
    }
    let mut known: Vec<String> = Vec::new();
    let mut i: usize = 0;
    while i < names.len()
        invariant
            i <= names@.len(),
            known.len() == i,
            forall|j: int| 0 <= j < i ==> #[trigger] known[j]@ == named(names@)[j],
        decreases names@.len() - i,
    {
        known.push(monitor_name(&names[i]));
        i = i + 1;
    }
    proof {
        assert(text::lowered_texts(known@) =~= lowered_names(names@));
    }
    let primary: usize = match primary {
        Some(p) => p,
        None => 0,
    };
    match match_monitor_index(known.as_slice(), primary, requested) {
        Some(i) => MonitorChoice::Index(i),
        None => {
            if requested.is_some() {
                MonitorChoice::Unmatched
            } else {
                MonitorChoice::Default
            }
        },
    }
}

/// What monitor is targeted: a number in range is an index and any other number none; other
/// requests go by the names in lowercase; without a request it is one of the first two, and
/// not the primary one, as long as there are two.
pub proof fn monitors_are_chosen_by_index_name_or_default(
    names: &[String],
    primary: usize,
    requested: Option<&str>,
    r: Option<usize>,
    j: int,
)
    requires
        call_ensures(match_monitor_index, (names, primary, requested), r),
    ensures
        r is Some ==> r->0 < names@.len(),
        requested is None ==> (r is Some <==> names@.len() >= 2) && (r is Some ==> r->0 != primary
            && (r->0 == 0 || r->0 == 1 && primary == 0)),
        requested is Some && text::index_of(requested->0@) is Some ==> {
            let index = text::index_of(requested->0@)->0;
            (r is Some <==> index < names@.len()) && (r is Some ==> r->0 == index)
        },
        requested is Some && text::index_of(requested->0@) is None && 0 <= j < names@.len() ==> {
            let (needle, name) = (text::lowered(requested->0@), text::lowered(names@[j]@));
            &&& r is Some && r->0 == j ==> text::occurs(needle, name)
            &&& r is None || j < r->0 ==> !text::occurs(needle, name)
        },
{
    if requested is Some {
        text::lemma_index_range(requested->0@);
        if 0 <= j < names@.len() {
            assert(text::lowered_texts(names@)[j] == text::lowered(names@[j]@));
        }
    }
}

/// The same of monitors that may not tell their names, where an unknown primary one is taken
/// to be the first; without monitors there is nothing to choose, and a request that matches
/// none is told apart from no request.
pub proof fn unmatched_requests_are_told_apart(
    names: &[Option<String>],
    primary: Option<usize>,
    requested: Option<&str>,
    r: MonitorChoice,
    j: int,
)
    requires
        call_ensures(choose_monitor, (names, primary, requested), r),
    ensures
        r is Index ==> r->Index_0 < names@.len(),
        r == MonitorChoice::Unmatched ==> requested is Some && names@.len() > 0,
        r == MonitorChoice::Default <==> names@.len() == 0 || requested is None && names@.len()
            == 1,
        requested is None && names@.len() >= 2 ==> {
            let avoided = if primary is Some {
                primary->0
            } else {
                0
            };
            r is Index && r->Index_0 != avoided && (r->Index_0 == 0 || r->Index_0 == 1 && avoided
                == 0)
        },
        requested is Some && text::index_of(requested->0@) is Some && names@.len() > 0 ==> {
            let index = text::index_of(requested->0@)->0;
            (r is Index <==> index < names@.len()) && (r is Index ==> r->Index_0 == index)
        },
        requested is Some && text::index_of(requested->0@) is None && 0 <= j < names@.len()
            && names@[j] is Some ==> {
            let (needle, name) = (text::lowered(requested->0@), text::lowered(names@[j]->0@));
            &&& r is Index && r->Index_0 == j ==> text::occurs(needle, name)
            &&& r == MonitorChoice::Unmatched || j < r->Index_0 ==> !text::occurs(needle, name)
        },
{
    if requested is Some {
        text::lemma_index_range(requested->0@);
        if 0 <= j < names@.len() && names@[j] is Some {
            assert(lowered_names(names@)[j] == text::lowered(names@[j]->0@));
        }
    }
}

} // verus!
