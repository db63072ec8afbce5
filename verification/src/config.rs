//! Per-process configuration: which cards to drive, where their endpoints
//! live, and how many samples each rolling window keeps.

use vstd::prelude::*;
use vstd::string::StringExecFns;

verus! {

/// Configuration for the controllers, as the surrounding process supplies it.
///
/// Paths are plain strings; the controller resolves them against the device
/// root. `measurement_window` is the bound on both rolling sample windows and
/// must be at least 1 for the control loop to be meaningful.
#[derive(Clone, Debug)]
pub struct Config {
    pub cards: Vec<String>,
    pub measurement_window: usize,
    pub cards_path: String,
    pub endpoint_path: String,
    pub monitoring_path: String,
}

impl Config {
    /// The device root directory for one named card: the cards directory
    /// with the card's name appended.
    pub fn card_path(&self, card_name: &str) -> (r: String)
        ensures
            r@ == self.cards_path@ + "/"@ + card_name@,
    {
        let mut p = self.cards_path.clone();
        p.append("/");
        p.append(card_name);
        proof {
            assert(p@ =~= self.cards_path@ + "/"@ + card_name@);
        }
        p
    }
}

} // verus!
