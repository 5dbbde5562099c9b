use vstd::prelude::*;

use crate::account::InMemoryAccountRepo;
use crate::reminder::{ReminderRepo, WatermarkStore};

verus! {

/// The engine's persistence, gathered in one place: reminder rows, expansion
/// watermarks, and accounts.
pub struct Repos {
    pub reminders: ReminderRepo,
    pub watermarks: WatermarkStore,
    pub accounts: InMemoryAccountRepo,
}

impl Repos {
    /// Fresh, empty stores.
    pub fn create_inmemory() -> (r: Repos)
        ensures
            r.reminders.rows().len() == 0,
            r.watermarks.entries().len() == 0,
            r.accounts.accounts().len() == 0,
    {
        Repos {
            reminders: ReminderRepo::new(),
            watermarks: WatermarkStore::new(),
            accounts: InMemoryAccountRepo::new(),
        }
    }
}

} // verus!
