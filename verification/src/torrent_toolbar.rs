//! The toolbar above a panel that shows a torrent.

use vstd::prelude::*;

use crate::text::same_text;
use crate::torrent_rpc::TorrentView;
use crate::torrent_session::{is_active, Engine};

verus! {

/// What the toolbar shows, and which of its buttons can be pressed.
#[derive(Clone, Copy, Debug, PartialEq, Eq, Structural)]
pub struct TorrentToolbar {
    pub visible: bool,
    pub active_view: TorrentView,
    pub start_sensitive: bool,
    pub stop_sensitive: bool,
    pub downloaded_sensitive: bool,
    pub peers_sensitive: bool,
}

/// A new toolbar: hidden, with the view of all files chosen.
pub fn build() -> (toolbar: TorrentToolbar)
    ensures
        toolbar == (TorrentToolbar {
            visible: false,
            active_view: TorrentView::All,
            start_sensitive: true,
            stop_sensitive: true,
            downloaded_sensitive: true,
            peers_sensitive: true,
        }),
{
    TorrentToolbar {
        visible: false,
        active_view: TorrentView::All,
        start_sensitive: true,
        stop_sensitive: true,
        downloaded_sensitive: true,
        peers_sensitive: true,
    }
}

impl TorrentToolbar {
    /// The toolbar of a panel: hidden where the panel shows no torrent; otherwise a torrent
    /// that runs can be stopped and looked into, another one started.
    pub open spec fn refreshed(self, running: Option<bool>) -> TorrentToolbar {
        match running {
            None => TorrentToolbar { visible: false, ..self },
            Some(running) => TorrentToolbar {
                visible: true,
                start_sensitive: !running,
                stop_sensitive: running,
                downloaded_sensitive: running,
                peers_sensitive: running,
                ..self
            },
        }
    }

    /// The toolbar once a view button has changed its state: of the view buttons, the one that
    /// was pressed last is chosen.
    pub open spec fn toggled(self, view: TorrentView, active: bool) -> TorrentToolbar {
        if active {
            TorrentToolbar { active_view: view, ..self }
        } else {
            self
        }
    }

    /// Takes over that a view button has changed its state.
    pub fn toggle(&mut self, view: TorrentView, active: bool)
        ensures
            *final(self) == old(self).toggled(view, active),
    {
        if active {
            self.active_view = view;
        }
    }

    /// Brings the toolbar up to date with whether the torrent of the panel runs, if the panel
    /// shows one.
    pub fn update(&mut self, running: Option<bool>)
        ensures
            *final(self) == old(self).refreshed(running),
    {
        match running {
            None => {
                self.visible = false;
            },
            Some(running) => {
                self.visible = true;
                self.start_sensitive = !running;
                self.stop_sensitive = running;
                self.downloaded_sensitive = running;
                self.peers_sensitive = running;
            },
        }
    }

    /// Brings the toolbar up to date with the torrent that the panel shows, if it shows one.
    pub fn refresh(&mut self, engine: &Engine, torrent_path: Option<&str>)
        requires
            engine.wf(),
        ensures
            match torrent_path {
                None => *final(self) == old(self).refreshed(None),
                Some(path) => exists|running: bool|
                    *final(self) == old(self).refreshed(Some(running))
                        && #[trigger] engine@.can_answer_active(path@, running),
            },
    {
        match torrent_path {
            None => self.update(None),
            Some(path) => {
                let running = is_active(engine, path);
                self.update(Some(running));
                assert(engine@.can_answer_active(path@, running));
            },
        }
    }
}

/// What happened to a button or a dialog of the toolbar.
pub enum ToolbarEvent {
    /// A view button changed its state.
    Toggled { view: TorrentView, active: bool },
    /// The start button was pressed.
    StartPressed,
    /// The stop button was pressed.
    StopPressed,
    /// The cleanup button was pressed.
    CleanupPressed,
}

/// What is to be done.
pub enum ToolbarAction {
    Nothing,
    /// Shows the torrent in that view, if the panel shows one, and lists the panel anew.
    Show(TorrentView),
    /// Reads the torrent file, starts it and lists the panel anew.
    Start(String),
    /// Stops the torrent and lists the panel anew.
    Stop(String),
    /// Asks whether the torrent is to be cleaned up.
    Ask(String),
}

/// What is to be done about an event, in a panel that shows that torrent or none.
pub fn on_event(event: ToolbarEvent, torrent_path: Option<String>) -> (action: ToolbarAction)
    ensures
        match event {
            ToolbarEvent::Toggled { view, active } => action == (if active {
                ToolbarAction::Show(view)
            } else {
                ToolbarAction::Nothing
            }),
            ToolbarEvent::StartPressed => action == (match torrent_path {
                Some(path) => ToolbarAction::Start(path),
                None => ToolbarAction::Nothing,
            }),
            ToolbarEvent::StopPressed => action == (match torrent_path {
                Some(path) => ToolbarAction::Stop(path),
                None => ToolbarAction::Nothing,
            }),
            ToolbarEvent::CleanupPressed => action == (match torrent_path {
                Some(path) => ToolbarAction::Ask(path),
                None => ToolbarAction::Nothing,
            }),
        },
{
    match event {
        ToolbarEvent::Toggled { view, active } => if active {
            ToolbarAction::Show(view)
        } else {
            ToolbarAction::Nothing
        },
        ToolbarEvent::StartPressed => match torrent_path {
            Some(path) => ToolbarAction::Start(path),
            None => ToolbarAction::Nothing,
        },
        ToolbarEvent::StopPressed => match torrent_path {
            Some(path) => ToolbarAction::Stop(path),
            None => ToolbarAction::Nothing,
        },
        ToolbarEvent::CleanupPressed => match torrent_path {
            Some(path) => ToolbarAction::Ask(path),
            None => ToolbarAction::Nothing,
        },
    }
}

/// The answer that leaves everything as it is.
pub const CANCEL_RESPONSE: &'static str = "cancel";

/// The answer that cleans up.
pub const WIPE_RESPONSE: &'static str = "wipe";

/// Whether the torrent is to be cleaned up, by the answer that the dialog gave.
pub fn is_confirmed(response: &str) -> (confirmed: bool)
    ensures
        confirmed == (response@ == WIPE_RESPONSE@),
{
    same_text(response, WIPE_RESPONSE)
}

/// A view that was chosen stays chosen while the toolbar is brought up to date, and when the
/// button of another view is let go.
pub proof fn a_chosen_view_stays_chosen(
    toolbar: TorrentToolbar,
    view: TorrentView,
    other: TorrentView,
    running: Option<bool>,
)
    ensures
        toolbar.toggled(view, true).refreshed(running).active_view == view,
        toolbar.toggled(view, true).toggled(other, false).active_view == view,
{
}

/// A torrent that runs can be stopped but not started, another one started but not stopped.
pub proof fn a_torrent_is_either_started_or_stopped(toolbar: TorrentToolbar, running: bool)
    ensures
        toolbar.refreshed(Some(running)).start_sensitive != toolbar.refreshed(
            Some(running),
        ).stop_sensitive,
{
}

} // verus!
