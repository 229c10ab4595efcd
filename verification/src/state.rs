//! What the app holds while it runs.

use vstd::prelude::*;
use crate::engine::Engine;
use crate::error::Error;
use crate::journal::JournalStore;
use crate::provider::{RegistryProvider, ShellRefresher};
use crate::winos::{boot, detected};

verus! {

pub struct AppState<R, S, J> {
    pub engine: Engine<R, S, J>,
}

impl<R: RegistryProvider, S: ShellRefresher, J: JournalStore> AppState<R, S, J> {
    /// Builds the engine from the machine's providers. A failure here means the
    /// registry could not even be read, which is not something to paper over:
    /// the caller shows it and stops.
    pub fn boot(registry: R, shell: S, journal: J) -> (r: Result<Self, Error>)
        requires
            registry.wf(),
        ensures
            registry.reliable() ==> r is Ok,
            r matches Ok(st) ==> st.engine.reg_view() == registry && st.engine.shell_view() == shell
                && st.engine.journal_view() == journal && (
                st.engine.os_view().build,
                st.engine.os_view().ubr,
                st.engine.os_view().display_version@,
                st.engine.os_view().product_name@,
            ) == detected(registry.model()) && crate::tweaks::shipped_table(st.engine.tweaks_view()),
    {
        let (registry, shell, os) = boot(registry, shell)?;
        let engine = Engine::new(registry, shell, os, journal);
        Ok(AppState { engine })
    }
}

} // verus!
