//! The line at the foot of the screen.

use crate::app::App;
use vstd::prelude::*;
use vstd::string::StringExecFns;

verus! {

/// The line at the foot of the screen, which tells what is being done.
pub struct StateWidget {}

impl StateWidget {
    /// The text of the line: a blank, then the session's line.
    pub fn text(app: &App) -> (r: String)
        ensures
            r@ == seq![' '] + app.state_info@,
    {
        proof {
            reveal_strlit(" ");
        }
        let lead = String::from_str(" ");
        assert(lead@ =~= seq![' ']);
        lead.concat(app.state_info())
    }
}

} // verus!
