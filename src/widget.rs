//! Settings of the log panel that shows the archive.
use vstd::prelude::*;

verus! {

/// Settings of the log panel: whether it shows the filter box.
pub struct Widget {
    pub filter: bool,
    pub _non_exhaustive_but_allow_fru: (),
}

impl Default for Widget {
    fn default() -> (r: Widget)
        ensures
            r.filter,
    {
        Widget { filter: true, _non_exhaustive_but_allow_fru: () }
    }
}

} // verus!
