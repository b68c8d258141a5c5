use virtualfs::page_torrents::seeding;
use virtualfs::torrent_rpc::TorrentView;
use virtualfs::torrent_session::Engine;
use virtualfs::torrent_toolbar::{
    build, is_confirmed, on_event, ToolbarAction, ToolbarEvent, CANCEL_RESPONSE, WIPE_RESPONSE,
};

#[test]
fn a_new_toolbar_is_hidden_and_shows_all_files() {
    let toolbar = build();
    assert!(!toolbar.visible);
    assert_eq!(toolbar.active_view, TorrentView::All);
}

#[test]
fn the_toolbar_follows_the_torrent_of_the_panel() {
    let mut toolbar = build();
    toolbar.update(Some(true));
    assert!(toolbar.visible && !toolbar.start_sensitive && toolbar.stop_sensitive);
    assert!(toolbar.downloaded_sensitive && toolbar.peers_sensitive);
    toolbar.update(Some(false));
    assert!(toolbar.visible && toolbar.start_sensitive && !toolbar.stop_sensitive);
    assert!(!toolbar.downloaded_sensitive && !toolbar.peers_sensitive);
    toolbar.update(None);
    assert!(!toolbar.visible);
    assert!(toolbar.start_sensitive && !toolbar.stop_sensitive);
}

#[test]
fn a_torrent_that_is_not_open_can_be_started() {
    let engine = Engine::new();
    let mut toolbar = build();
    toolbar.refresh(&engine, Some("/x/a.torrent"));
    assert!(toolbar.visible && toolbar.start_sensitive && !toolbar.stop_sensitive);
    toolbar.refresh(&engine, None);
    assert!(!toolbar.visible);
}

#[test]
fn a_chosen_view_stays_chosen_when_the_toolbar_is_refreshed() {
    let mut toolbar = build();
    toolbar.toggle(TorrentView::Peers, true);
    toolbar.toggle(TorrentView::All, false);
    toolbar.update(Some(true));
    assert_eq!(toolbar.active_view, TorrentView::Peers);
    toolbar.refresh(&Engine::new(), Some("/x/a.torrent"));
    assert_eq!(toolbar.active_view, TorrentView::Peers);
    toolbar.toggle(TorrentView::Downloaded, true);
    assert_eq!(toolbar.active_view, TorrentView::Downloaded);
}

#[test]
fn buttons_act_on_the_torrent_of_the_panel() {
    let path = || Some("/x/a.torrent".to_string());
    let toggled = |active| ToolbarEvent::Toggled { view: TorrentView::Peers, active };
    assert!(matches!(on_event(toggled(true), None), ToolbarAction::Show(TorrentView::Peers)));
    assert!(matches!(on_event(toggled(false), path()), ToolbarAction::Nothing));
    assert!(matches!(on_event(ToolbarEvent::StartPressed, path()), ToolbarAction::Start(p) if p == "/x/a.torrent"));
    assert!(matches!(on_event(ToolbarEvent::StopPressed, path()), ToolbarAction::Stop(p) if p == "/x/a.torrent"));
    assert!(matches!(on_event(ToolbarEvent::CleanupPressed, path()), ToolbarAction::Ask(p) if p == "/x/a.torrent"));
    assert!(matches!(on_event(ToolbarEvent::StartPressed, None), ToolbarAction::Nothing));
    assert!(matches!(on_event(ToolbarEvent::StopPressed, None), ToolbarAction::Nothing));
    assert!(matches!(on_event(ToolbarEvent::CleanupPressed, None), ToolbarAction::Nothing));
}

#[test]
fn only_one_answer_cleans_up() {
    assert!(is_confirmed(WIPE_RESPONSE));
    assert!(!is_confirmed(CANCEL_RESPONSE));
    assert!(!is_confirmed("close"));
}

#[test]
fn torrents_are_seeded_unless_the_configuration_says_otherwise() {
    assert!(seeding(None));
    assert!(seeding(Some(true)));
    assert!(!seeding(Some(false)));
}
