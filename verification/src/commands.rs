//! The state behind the launcher's commands and what each command does to it.
use vstd::prelude::*;

use crate::config::{
    config_from_read, config_wf, icon_map, repinned, texts, Config, ReadOutcome,
};
use crate::error::AppError;
use crate::path_identity::path_id;
use crate::platform::Platform;

verus! {

/// The settings in use, the file they are kept in, and the platform whose
/// path rules say when two paths are one.
#[derive(Debug)]
pub struct AppState {
    pub config: Config,
    pub config_path: String,
    pub platform: Platform,
}

/// `r` holds the same settings as `c`.
pub open spec fn same_config(r: Config, c: Config) -> bool {
    &&& r.root_folder == c.root_folder
    &&& r.pinned@ == c.pinned@
    &&& r.icons@ == c.icons@
}

impl AppState {
    /// The state is well formed: no workspace has two icons.
    pub open spec fn wf(&self) -> bool {
        config_wf(self.config, self.platform)
    }

    /// The state that starts from the settings file at `config_path`, given
    /// how reading it went: a missing file gives the default settings; a
    /// parsed file its settings, icon entries for one path merged (the
    /// later value wins); a file that could not be read or parsed is a
    /// `Config` error.
    pub fn new(config_path: String, outcome: ReadOutcome, platform: Platform) -> (r: Result<AppState, AppError>)
        ensures
            match outcome {
                ReadOutcome::Parsed(Ok(c)) => r matches Ok(s) && s.config.root_folder == c.root_folder
                    && s.config.pinned == c.pinned && icon_map(s.config.icons@, platform) == icon_map(
                    c.icons@,
                    platform,
                ) && (config_wf(c, platform) ==> s.config.icons@ == c.icons@) && s.config_path == config_path
                    && s.platform == platform,
                ReadOutcome::Parsed(Err(e)) => r matches Err(AppError::Config(
                    crate::config::ConfigError::Parse(f),
                )) && f == e,
                ReadOutcome::NotFound => r matches Ok(s) && s.config.root_folder is None
                    && s.config.pinned@.len() == 0 && s.config.icons@.len() == 0 && s.config_path
                    == config_path && s.platform == platform,
                ReadOutcome::Failed(e) => r matches Err(AppError::Config(
                    crate::config::ConfigError::Io(f),
                )) && f == e,
            },
            r matches Ok(s) ==> s.wf(),
    {
        match config_from_read(outcome, platform) {
            Ok(config) => Ok(AppState { config, config_path, platform }),
            Err(e) => Err(AppError::Config(e)),
        }
    }
}

/// A copy of the settings in use.
pub fn get_config(state: &AppState) -> (r: Config)
    ensures
        same_config(r, state.config),
{
    state.config.copy()
}

/// Chooses the folder to scan (or none) and gives the new settings.
pub fn set_root_folder(state: &mut AppState, path: Option<String>) -> (r: Config)
    requires
        old(state).wf(),
    ensures
        final(state).wf(),
        final(state).config.root_folder == path,
        final(state).config.pinned == old(state).config.pinned,
        final(state).config.icons == old(state).config.icons,
        final(state).config_path == old(state).config_path,
        final(state).platform == old(state).platform,
        same_config(r, final(state).config),
{
    state.config.set_root_folder(path);
    state.config.copy()
}

/// Pins or unpins `path` and gives the new settings. A pinned path is
/// listed once, last.
pub fn set_pinned(state: &mut AppState, path: String, pinned: bool) -> (r: Config)
    requires
        old(state).wf(),
    ensures
        final(state).wf(),
        texts(final(state).config.pinned@) == repinned(
            texts(old(state).config.pinned@),
            path@,
            pinned,
            old(state).platform,
        ),
        final(state).config.root_folder == old(state).config.root_folder,
        final(state).config.icons == old(state).config.icons,
        final(state).config_path == old(state).config_path,
        final(state).platform == old(state).platform,
        same_config(r, final(state).config),
{
    let platform = state.platform;
    state.config.set_pinned(path, pinned, platform);
    state.config.copy()
}

/// Sets or clears the icon of `workspace` and gives the new settings.
pub fn set_icon(state: &mut AppState, workspace: String, icon: Option<String>) -> (r: Config)
    requires
        old(state).wf(),
    ensures
        final(state).wf(),
        icon_map(final(state).config.icons@, old(state).platform) == match icon {
            Some(i) => icon_map(old(state).config.icons@, old(state).platform).insert(
                path_id(workspace@, old(state).platform),
                i@,
            ),
            None => icon_map(old(state).config.icons@, old(state).platform).remove(
                path_id(workspace@, old(state).platform),
            ),
        },
        final(state).config.root_folder == old(state).config.root_folder,
        final(state).config.pinned == old(state).config.pinned,
        final(state).config_path == old(state).config_path,
        final(state).platform == old(state).platform,
        same_config(r, final(state).config),
{
    let platform = state.platform;
    state.config.set_icon(workspace, icon, platform);
    state.config.copy()
}

} // verus!
