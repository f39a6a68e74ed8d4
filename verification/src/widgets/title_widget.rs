//! The title at the head of the screen.

use crate::app::App;
use vstd::prelude::*;
use vstd::string::StringExecFns;

verus! {

/// The title at the head of the screen.
pub struct TitleWidget {}

impl TitleWidget {
    /// The text of the title: the program's name and its version, with a
    /// dash between them and a blank at each end.
    pub fn title(app: &App) -> (r: String)
        ensures
            r@ == seq![' '] + "FastSSH"@ + seq![' ', '-', ' '] + "0.1.0"@ + seq![' '],
    {
        proof {
            reveal_strlit(" ");
            reveal_strlit(" - ");
        }
        let lead = String::from_str(" ");
        assert(lead@ =~= seq![' ']);
        assert(" - "@ =~= seq![' ', '-', ' ']);
        lead.concat(app.app_name()).concat(" - ").concat(app.app_version()).concat(" ")
    }
}

} // verus!
