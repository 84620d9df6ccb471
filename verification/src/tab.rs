//! The three views of the key tool, and how the one that is shown is chosen
//! and marked.

use vstd::prelude::*;
use vstd::string::*;

verus! {

/// One of the three views.
#[derive(Debug, Clone, Copy, PartialEq, Eq, Structural)]
pub enum Tab {
    Generate,
    Validate,
    Activate,
}

/// The style classes of the tab that is shown.
pub open spec fn selected_class() -> Seq<char> {
    "inline-block w-full p-3 text-slate-900 bg-slate-200 active focus:outline-none dark:bg-slate-700 dark:text-white"@
}

/// The style classes of a tab that is not shown.
pub open spec fn other_class() -> Seq<char> {
    "inline-block w-full p-3 bg-slate-50 hover:text-slate-700 hover:bg-slate-100 focus:outline-none dark:hover:text-white dark:bg-slate-900 dark:hover:bg-slate-700"@
}

/// The style classes of the tab `tab` while the tab `selected` is shown: those
/// of its state, and for the first and the last tab those that round its outer
/// corners.
pub open spec fn spec_class(tab: Tab, selected: Tab) -> Seq<char> {
    let state = if tab == selected {
        selected_class()
    } else {
        other_class()
    };
    match tab {
        Tab::Generate => state + " rounded-t-lg sm:rounded-none sm:rounded-s-lg"@,
        Tab::Validate => state,
        Tab::Activate => state + " rounded-b-lg sm:rounded-none sm:rounded-e-lg"@,
    }
}

impl Tab {
    /// The style classes of the tab `tab` while the tab `selected` is shown.
    pub fn class(tab: Tab, selected: Tab) -> (r: String)
        ensures
            r@ == spec_class(tab, selected),
    {
        let state: &str = if tab == selected {
            "inline-block w-full p-3 text-slate-900 bg-slate-200 active focus:outline-none dark:bg-slate-700 dark:text-white"
        } else {
            "inline-block w-full p-3 bg-slate-50 hover:text-slate-700 hover:bg-slate-100 focus:outline-none dark:hover:text-white dark:bg-slate-900 dark:hover:bg-slate-700"
        };
        match tab {
            Tab::Generate => String::from_str(state).concat(
                " rounded-t-lg sm:rounded-none sm:rounded-s-lg",
            ),
            Tab::Validate => String::from_str(state),
            Tab::Activate => String::from_str(state).concat(
                " rounded-b-lg sm:rounded-none sm:rounded-e-lg",
            ),
        }
    }

    /// The tab's name as it stands in an address.
    pub fn name(&self) -> (r: &'static str)
        ensures
            r@ == match *self {
                Tab::Generate => "generate"@,
                Tab::Validate => "validate"@,
                Tab::Activate => "activate"@,
            },
    {
        match self {
            Tab::Generate => "generate",
            Tab::Validate => "validate",
            Tab::Activate => "activate",
        }
    }

    /// The tab that an address asks for: the one to activate where the
    /// address names it, else the one to validate where the address names
    /// that, else the one to generate.
    pub fn from_params(activate: bool, validate: bool) -> (r: Tab)
        ensures
            r == if activate {
                Tab::Activate
            } else if validate {
                Tab::Validate
            } else {
                Tab::Generate
            },
    {
        if activate {
            Tab::Activate
        } else if validate {
            Tab::Validate
        } else {
            Tab::Generate
        }
    }
}

} // verus!
