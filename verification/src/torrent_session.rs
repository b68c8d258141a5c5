//! The torrents that are open: how many panels look at each, which are running, what has
//! arrived, and where it is kept.

use std::sync::Arc;
use vstd::prelude::*;
use vstd::string::*;

use crate::decimal::{decimal, decimal_text};
use crate::order::{
    in_strict_name_order, is_stable_sort, lemma_sorted_strictly, sort_by_name, Named,
};
use crate::path_map::PathMap;
use crate::rpc::{is_joined, is_separator, join_path, last_part_start, refusal, AppError};
use crate::text::joined;

verus! {

/// `librqbit::ManagedTorrent`: one torrent that a session runs.
#[verifier::external_type_specification]
#[verifier::external_body]
pub struct ExManagedTorrent(librqbit::ManagedTorrent);

/// `librqbit::Session`: what runs the torrents.
#[verifier::external_type_specification]
#[verifier::external_body]
pub struct ExSession(librqbit::Session);

/// `tokio::runtime::Handle`: the runtime that a session was started on.
#[verifier::external_type_specification]
#[verifier::external_body]
pub struct ExRuntimeHandle(tokio::runtime::Handle);

/// What is remembered of a torrent between two runs.
#[derive(Clone, Debug, PartialEq, Eq)]
pub struct TorrentState {
    pub info_hash: String,
    pub selected: Vec<usize>,
}

/// A peer that a torrent is connected to.
#[derive(Clone, Debug, PartialEq, Eq)]
pub struct PeerRow {
    pub addr: String,
    pub state: String,
    pub fetched_bytes: u64,
    pub pieces: u32,
    pub errors: u32,
}

impl Named for PeerRow {
    open spec fn key(&self) -> Seq<char> {
        self.addr@
    }

    fn key_text(&self) -> (text: &str) {
        self.addr.as_str()
    }
}

/// How much of a file has arrived.
#[derive(Clone, Copy, Debug, PartialEq, Eq)]
pub struct FileProgress {
    pub index: usize,
    pub done_bytes: u64,
    pub total_bytes: u64,
}

impl FileProgress {
    /// Whether every byte of a file that has any is there.
    pub open spec fn complete(self) -> bool {
        self.total_bytes > 0 && self.done_bytes >= self.total_bytes
    }

    /// Whether every byte of a file that has any is there.
    pub fn is_complete(&self) -> (complete: bool)
        ensures
            complete == self.complete(),
    {
        self.total_bytes > 0 && self.done_bytes >= self.total_bytes
    }
}

/// Where the files of a torrent are kept.
pub open spec fn data_dir(torrent_path: Seq<char>) -> Seq<char> {
    torrent_path + "-data"@
}

/// Where the state of a torrent is kept.
pub open spec fn state_file(torrent_path: Seq<char>) -> Seq<char> {
    torrent_path + "-state.json"@
}

/// The folder, next to the torrent file, that holds what was downloaded.
pub fn data_dir_for(torrent_path: &str) -> (path: String)
    ensures
        path@ == data_dir(torrent_path@),
{
    joined(torrent_path, "-data")
}

/// The file, next to the torrent file, that holds the state.
pub fn state_file_for(torrent_path: &str) -> (path: String)
    ensures
        path@ == state_file(torrent_path@),
{
    joined(torrent_path, "-state.json")
}

/// The file that a new state is written to before it takes the place of the old one.
pub fn state_temp_file_for(torrent_path: &str) -> (path: String)
    ensures
        path@ == torrent_path@ + "-state.json.tmp"@,
{
    joined(torrent_path, "-state.json.tmp")
}

/// Whether `path` is where a file of a torrent is kept.
pub open spec fn is_downloaded_path(
    torrent_path: Seq<char>,
    file_path: Seq<char>,
    path: Seq<char>,
) -> bool {
    is_joined(data_dir(torrent_path), file_path, path)
}

/// Where a file of a torrent is kept.
pub fn downloaded_file_path(torrent_path: &str, file_path: &str) -> (path: String)
    ensures
        is_downloaded_path(torrent_path@, file_path@, path@),
{
    join_path(data_dir_for(torrent_path).as_str(), file_path)
}

/// What a card about a peer says.
pub open spec fn peer_card_text(row: PeerRow) -> Seq<char> {
    "address: "@ + row.addr@ + "\nstate: "@ + row.state@ + "\nfetched bytes: "@ + decimal(
        row.fetched_bytes as nat,
    ) + "\nchecked pieces: "@ + decimal(row.pieces as nat) + "\nerrors: "@ + decimal(
        row.errors as nat,
    ) + "\n"@
}

/// A card about a peer, one fact to a line.
pub fn peer_card(row: &PeerRow) -> (card: String)
    ensures
        card@ == peer_card_text(*row),
{
    let mut card = joined("address: ", row.addr.as_str());
    card.append("\nstate: ");
    card.append(row.state.as_str());
    card.append("\nfetched bytes: ");
    card.append(decimal_text(row.fetched_bytes).as_str());
    card.append("\nchecked pieces: ");
    card.append(decimal_text(row.pieces as u64).as_str());
    card.append("\nerrors: ");
    card.append(decimal_text(row.errors as u64).as_str());
    card.append("\n");
    card
}

/// A torrent that the session runs.
pub struct Managed {
    pub id: usize,
    pub handle: Arc<librqbit::ManagedTorrent>,
}

/// The session, the torrents it runs, and how many panels have each of them open.
pub struct Engine {
    session: Option<Arc<librqbit::Session>>,
    torrents: PathMap<Managed>,
    refs: PathMap<usize>,
    runtime: Option<tokio::runtime::Handle>,
    seeding: bool,
}

/// What an [`Engine`] knows.
pub struct EngineState {
    pub session: Option<Arc<librqbit::Session>>,
    pub torrents: Map<Seq<char>, Managed>,
    pub refs: Map<Seq<char>, usize>,
    pub runtime: Option<tokio::runtime::Handle>,
    pub seeding: bool,
}

impl View for Engine {
    type V = EngineState;

    closed spec fn view(&self) -> EngineState {
        EngineState {
            session: self.session,
            torrents: self.torrents@,
            refs: self.refs@,
            runtime: self.runtime,
            seeding: self.seeding,
        }
    }
}

impl EngineState {
    /// How many panels have a torrent open.
    pub open spec fn open_count(self, torrent_path: Seq<char>) -> nat {
        if self.refs.contains_key(torrent_path) {
            self.refs[torrent_path] as nat
        } else {
            0
        }
    }

    /// Whether no torrent is kept with a count of zero.
    pub open spec fn counts_are_positive(self) -> bool {
        forall|p: Seq<char>| #[trigger] self.refs.contains_key(p) ==> self.refs[p] > 0
    }

    /// Whether a handle is that of an open torrent.
    pub open spec fn runs(self, handle: Arc<librqbit::ManagedTorrent>) -> bool {
        exists|p: Seq<char>|
            self.torrents.contains_key(p) && (#[trigger] self.torrents[p]).handle == handle
    }

    /// One more panel has opened a torrent.
    pub open spec fn acquired(self, torrent_path: Seq<char>) -> EngineState {
        EngineState {
            refs: self.refs.insert(torrent_path, (self.open_count(torrent_path) + 1) as usize),
            ..self
        }
    }

    /// A panel has left a torrent; nothing happens to one that nobody had open.
    pub open spec fn released(self, torrent_path: Seq<char>) -> EngineState {
        EngineState {
            refs: if self.open_count(torrent_path) <= 1 {
                self.refs.remove(torrent_path)
            } else {
                self.refs.insert(torrent_path, (self.open_count(torrent_path) - 1) as usize)
            },
            ..self
        }
    }

    /// The torrent is no longer run.
    pub open spec fn forgotten(self, torrent_path: Seq<char>) -> EngineState {
        EngineState { torrents: self.torrents.remove(torrent_path), ..self }
    }

    /// The torrent is closed unless a panel has it open.
    pub open spec fn closed_if_unused(self, torrent_path: Seq<char>) -> EngineState {
        if self.refs.contains_key(torrent_path) {
            self
        } else {
            self.forgotten(torrent_path)
        }
    }
}

impl Engine {
    /// The tables are in order, and no count is zero.
    pub closed spec fn wf(&self) -> bool {
        &&& self.torrents.wf()
        &&& self.refs.wf()
        &&& self@.counts_are_positive()
    }

    /// The number of open torrents.
    pub closed spec fn open_torrents(&self) -> nat {
        self.torrents.count()
    }

    /// Nothing is open, no session runs, and seeding is on.
    pub fn new() -> (engine: Engine)
        ensures
            engine.wf(),
            engine@.session is None,
            engine@.runtime is None,
            engine@.torrents == Map::<Seq<char>, Managed>::empty(),
            engine@.refs == Map::<Seq<char>, usize>::empty(),
            engine@.seeding,
            engine.open_torrents() == 0,
    {
        Engine {
            session: None,
            torrents: PathMap::new(),
            refs: PathMap::new(),
            runtime: None,
            seeding: true,
        }
    }
}

impl Default for Engine {
    fn default() -> (engine: Engine)
        ensures
            engine.wf(),
            engine@.session is None,
            engine@.runtime is None,
            engine@.torrents == Map::<Seq<char>, Managed>::empty(),
            engine@.refs == Map::<Seq<char>, usize>::empty(),
            engine@.seeding,
            engine.open_torrents() == 0,
    {
        Engine::new()
    }
}

/// The runtime that the session was started on.
pub fn runtime(engine: &Engine) -> (handle: Option<&tokio::runtime::Handle>)
    ensures
        match handle {
            Some(h) => engine@.runtime == Some(*h),
            None => engine@.runtime is None,
        },
{
    engine.runtime.as_ref()
}

/// One more panel opens a torrent.
pub fn acquire(engine: &mut Engine, torrent_path: &str)
    requires
        old(engine).wf(),
        old(engine)@.open_count(torrent_path@) < usize::MAX,
    ensures
        final(engine).wf(),
        final(engine)@ == old(engine)@.acquired(torrent_path@),
{
    let count: usize = open_count(engine, torrent_path);
    let ghost before = engine@;
    engine.refs.insert(torrent_path, count + 1);
    assert(engine@ == before.acquired(torrent_path@));
    assert(engine@.counts_are_positive());
}

/// How many panels have a torrent open.
pub fn open_count(engine: &Engine, torrent_path: &str) -> (count: usize)
    requires
        engine.wf(),
    ensures
        count == engine@.open_count(torrent_path@),
{
    match engine.refs.get(torrent_path) {
        Some(n) => *n,
        None => 0,
    }
}

/// A panel leaves a torrent. The answer is whether the torrent has to be looked at again
/// after [`CLOSE_GRACE_SECS`]: the last panel has left and there is a runtime to wait on.
pub fn release(engine: &mut Engine, torrent_path: &str) -> (close_later: bool)
    requires
        old(engine).wf(),
    ensures
        final(engine).wf(),
        final(engine)@ == old(engine)@.released(torrent_path@),
        close_later == (old(engine)@.open_count(torrent_path@) == 1 && old(engine)@.runtime is Some),
{
    let count: usize = open_count(engine, torrent_path);
    let ghost before = engine@;
    if count == 0 {
        assert(engine@.refs =~= before.released(torrent_path@).refs);
        return false;
    }
    if count == 1 {
        engine.refs.remove(torrent_path);
        assert(engine@ == before.released(torrent_path@));
        return engine.runtime.is_some();
    }
    engine.refs.insert(torrent_path, count - 1);
    assert(engine@ == before.released(torrent_path@));
    false
}

/// Closes a torrent that no panel has open; what is handed back is still to be deleted
/// from its session, without the files.
pub fn close_unused(engine: &mut Engine, torrent_path: &str) -> (pending: Option<
    (usize, Arc<librqbit::Session>),
>)
    requires
        old(engine).wf(),
    ensures
        final(engine).wf(),
        final(engine)@ == old(engine)@.closed_if_unused(torrent_path@),
        match pending {
            Some((id, session)) => {
                &&& !old(engine)@.refs.contains_key(torrent_path@)
                &&& old(engine)@.torrents.contains_key(torrent_path@)
                &&& id == old(engine)@.torrents[torrent_path@].id
                &&& old(engine)@.session == Some(session)
            },
            None => {
                ||| old(engine)@.refs.contains_key(torrent_path@)
                ||| !old(engine)@.torrents.contains_key(torrent_path@)
                ||| old(engine)@.session is None
            },
        },
{
    if engine.refs.contains_key(torrent_path) {
        return None;
    }
    match engine.torrents.remove(torrent_path) {
        Some(managed) => match &engine.session {
            Some(session) => Some((managed.id, session.clone())),
            None => None,
        },
        None => None,
    }
}

/// Forgets every torrent and every panel; the session that is handed back is to be stopped.
pub fn shutdown(engine: &mut Engine) -> (session: Option<Arc<librqbit::Session>>)
    requires
        old(engine).wf(),
    ensures
        final(engine).wf(),
        session == old(engine)@.session,
        final(engine)@ == (EngineState {
            session: None,
            torrents: Map::<Seq<char>, Managed>::empty(),
            refs: Map::<Seq<char>, usize>::empty(),
            ..old(engine)@
        }),
{
    engine.torrents.clear();
    engine.refs.clear();
    engine.session.take()
}

/// Whether what was downloaded is also given to others.
pub fn seeding_enabled(engine: &Engine) -> (enabled: bool)
    ensures
        enabled == engine@.seeding,
{
    engine.seeding
}

/// Turns seeding on or off.
pub fn set_seeding_enabled(engine: &mut Engine, enabled: bool)
    ensures
        final(engine)@ == (EngineState { seeding: enabled, ..old(engine)@ }),
        old(engine).wf() ==> final(engine).wf(),
{
    engine.seeding = enabled;
}

/// Whether the session runs a torrent, or has paused it.
pub fn is_open(engine: &Engine, torrent_path: &str) -> (open: bool)
    requires
        engine.wf(),
    ensures
        open == engine@.torrents.contains_key(torrent_path@),
{
    engine.torrents.contains_key(torrent_path)
}

/// How long, in seconds, a torrent that no panel has open is kept.
pub const CLOSE_GRACE_SECS: u64 = 5;

/// How often a torrent is asked to pause.
pub const STOP_ATTEMPTS: usize = 30;

/// How long, in milliseconds, is waited before the next attempt.
pub const STOP_RETRY_DELAY_MILLIS: u64 = 300;

/// The setting that says whether seeding is on.
pub const SEEDING_KEY: &'static str = "torrent.seed";

/// What a torrent is doing.
#[derive(Clone, Copy, Debug, PartialEq, Eq, Structural)]
pub enum TorrentStatsState {
    Initializing,
    Live,
    Paused,
    Error,
}

impl TorrentStatsState {
    /// Whether the torrent is at work.
    pub open spec fn active(self) -> bool {
        self is Live || self is Initializing
    }

    /// Whether the torrent is at work.
    pub fn is_active(self) -> (active: bool)
        ensures
            active == self.active(),
    {
        matches!(self, TorrentStatsState::Live | TorrentStatsState::Initializing)
    }
}

/// How a torrent is getting on.
#[derive(Clone, Debug, PartialEq, Eq)]
pub struct TorrentStats {
    pub state: TorrentStatsState,
    pub file_progress: Vec<u64>,
    pub error: Option<String>,
    pub progress_bytes: u64,
    pub uploaded_bytes: u64,
    pub total_bytes: u64,
    pub finished: bool,
}

/// Calls `ManagedTorrent::stats`. What it reads changes while the torrent runs, so nothing
/// is claimed of the numbers; the speeds, which are floating point, are left out.
#[verifier::external_body]
pub(crate) fn read_stats(handle: &Arc<librqbit::ManagedTorrent>) -> (stats: TorrentStats) {
    let s = handle.stats();
    let state = match s.state {
        librqbit::TorrentStatsState::Initializing => TorrentStatsState::Initializing,
        librqbit::TorrentStatsState::Live => TorrentStatsState::Live,
        librqbit::TorrentStatsState::Paused => TorrentStatsState::Paused,
        librqbit::TorrentStatsState::Error => TorrentStatsState::Error,
    };
    let (error, finished) = (s.error, s.finished);
    let (progress_bytes, uploaded_bytes) = (s.progress_bytes, s.uploaded_bytes);
    let (file_progress, total_bytes) = (s.file_progress, s.total_bytes);
    TorrentStats { state, file_progress, error, progress_bytes, uploaded_bytes, total_bytes, finished }
}

/// Calls `TorrentStateLive::per_peer_stats_snapshot` where the torrent is live. The rows
/// come out of a map keyed by address, in no order, so no address stands twice; which
/// peers there are changes from call to call.
#[verifier::external_body]
pub(crate) fn peer_snapshot(handle: &Arc<librqbit::ManagedTorrent>) -> (rows: Vec<PeerRow>)
    ensures
        forall|i: int, j: int|
            0 <= i < j < rows@.len() ==> (#[trigger] rows@[i]).addr@ != (#[trigger] rows@[j]).addr@,
{
    handle.with_state(|state| match state {
        librqbit::ManagedTorrentState::Live(live) => {
            let snapshot = live.per_peer_stats_snapshot(Default::default());
            snapshot.peers.into_iter().map(|(addr, s)| PeerRow {
                addr,
                state: s.state.to_string(),
                fetched_bytes: s.counters.fetched_bytes,
                pieces: s.counters.downloaded_and_checked_pieces,
                errors: s.counters.errors,
            }).collect()
        },
        _ => Vec::new(),
    })
}

/// Whether a torrent that is asked how it is getting on can answer with these statistics.
pub closed spec fn reports(handle: Arc<librqbit::ManagedTorrent>, stats: TorrentStats) -> bool {
    call_ensures(read_stats, (&handle,), stats)
}

/// How a torrent is getting on; nothing is known of one that is not open.
pub fn stats(engine: &Engine, torrent_path: &str) -> (stats: Option<TorrentStats>)
    requires
        engine.wf(),
    ensures
        match stats {
            Some(s) => {
                &&& engine@.torrents.contains_key(torrent_path@)
                &&& reports(engine@.torrents[torrent_path@].handle, s)
            },
            None => !engine@.torrents.contains_key(torrent_path@),
        },
{
    match engine.torrents.get(torrent_path) {
        Some(managed) => Some(read_stats(&managed.handle)),
        None => None,
    }
}

/// Whether statistics are those of a torrent at work.
pub fn stats_are_active(stats: &Option<TorrentStats>) -> (active: bool)
    ensures
        active == (stats matches Some(s) && s.state.active()),
{
    match stats {
        Some(s) => s.state.is_active(),
        None => false,
    }
}

/// Whether a torrent is at work.
pub fn is_active(engine: &Engine, torrent_path: &str) -> (active: bool)
    requires
        engine.wf(),
    ensures
        engine@.can_answer_active(torrent_path@, active),
{
    stats_are_active(&stats(engine, torrent_path))
}

/// What is shown of the progress of the files: one row for each file that statistics
/// tell of, with the size that is known of it, or zero.
pub open spec fn progress_of(done: Seq<u64>, sizes: Seq<u64>) -> Seq<FileProgress> {
    Seq::new(
        done.len(),
        |i: int|
            FileProgress {
                index: i as usize,
                done_bytes: done[i],
                total_bytes: if i < sizes.len() {
                    sizes[i]
                } else {
                    0
                },
            },
    )
}

/// The progress of the files by the numbers of bytes that have arrived.
pub fn progress_rows(done: &[u64], sizes: &[u64]) -> (rows: Vec<FileProgress>)
    ensures
        rows@ == progress_of(done@, sizes@),
{
    let mut rows: Vec<FileProgress> = Vec::new();
    let mut index: usize = 0;
    while index < done.len()
        invariant
            index <= done@.len(),
            rows@ == progress_of(done@, sizes@).take(index as int),
        decreases done@.len() - index,
    {
        let total_bytes: u64 = if index < sizes.len() {
            sizes[index]
        } else {
            0
        };
        rows.push(FileProgress { index, done_bytes: done[index], total_bytes });
        index += 1;
        assert(rows@ =~= progress_of(done@, sizes@).take(index as int));
    }
    assert(progress_of(done@, sizes@).take(index as int) =~= progress_of(done@, sizes@));
    rows
}

/// The progress of every file of a torrent; none of one that is not open.
pub fn file_progress(engine: &Engine, torrent_path: &str, sizes: &[u64]) -> (rows: Vec<
    FileProgress,
>)
    requires
        engine.wf(),
    ensures
        if engine@.torrents.contains_key(torrent_path@) {
            exists|s: TorrentStats| #[trigger]
                reports(engine@.torrents[torrent_path@].handle, s) && rows@ == progress_of(
                    s.file_progress@,
                    sizes@,
                )
        } else {
            rows@.len() == 0
        },
{
    match stats(engine, torrent_path) {
        Some(s) => progress_rows(s.file_progress.as_slice(), sizes),
        None => Vec::new(),
    }
}

/// Whether the bytes that have arrived of a file reach its size.
pub open spec fn file_is_done(done: Seq<u64>, index: usize, size: u64) -> bool {
    index < done.len() && done[index as int] >= size
}

/// Whether the bytes that have arrived of a file reach its size.
pub fn file_done(done: &[u64], index: usize, size: u64) -> (complete: bool)
    ensures
        complete == file_is_done(done@, index, size),
{
    index < done.len() && done[index] >= size
}

impl EngineState {
    /// Whether a torrent that is asked how it is getting on can answer so that a file of it
    /// has arrived or not. No file of a torrent that is not open has.
    pub open spec fn can_answer_complete(
        self,
        torrent_path: Seq<char>,
        index: usize,
        size: u64,
        complete: bool,
    ) -> bool {
        if self.torrents.contains_key(torrent_path) {
            exists|s: TorrentStats| #[trigger]
                reports(self.torrents[torrent_path].handle, s) && complete == file_is_done(
                    s.file_progress@,
                    index,
                    size,
                )
        } else {
            !complete
        }
    }

    /// Whether a torrent that is asked for its peers can answer so that these are its peers in
    /// the order of their addresses. A torrent that is not open has none.
    pub open spec fn can_answer_peers(self, torrent_path: Seq<char>, rows: Seq<PeerRow>) -> bool {
        if self.torrents.contains_key(torrent_path) {
            exists|found: Vec<PeerRow>| #[trigger]
                is_connected_to(self.torrents[torrent_path].handle, found) && is_stable_sort(
                    rows,
                    found@,
                )
        } else {
            rows.len() == 0
        }
    }

    /// Whether a torrent that is asked how it is getting on can answer so that it is at work or
    /// not. A torrent that is not open is not.
    pub open spec fn can_answer_active(self, torrent_path: Seq<char>, active: bool) -> bool {
        if self.torrents.contains_key(torrent_path) {
            exists|s: TorrentStats| #[trigger]
                reports(self.torrents[torrent_path].handle, s) && active == s.state.active()
        } else {
            !active
        }
    }
}

/// Whether a file of an open torrent has arrived.
pub fn is_file_complete(engine: &Engine, torrent_path: &str, index: usize, size: u64) -> (complete:
    bool)
    requires
        engine.wf(),
    ensures
        engine@.can_answer_complete(torrent_path@, index, size, complete),
{
    match stats(engine, torrent_path) {
        Some(s) => file_done(s.file_progress.as_slice(), index, size),
        None => false,
    }
}

/// Whether a torrent that is asked for its peers can answer with these.
pub closed spec fn is_connected_to(
    handle: Arc<librqbit::ManagedTorrent>,
    found: Vec<PeerRow>,
) -> bool {
    call_ensures(peer_snapshot, (&handle,), found)
}

/// The peers in the order of their addresses.
pub fn ordered_peers(rows: Vec<PeerRow>) -> (ordered: Vec<PeerRow>)
    ensures
        is_stable_sort(ordered@, rows@),
{
    sort_by_name(rows)
}

/// The peers of a live torrent in the order of their addresses; none of one that is not
/// open.
pub fn peers(engine: &Engine, torrent_path: &str) -> (rows: Vec<PeerRow>)
    requires
        engine.wf(),
    ensures
        in_strict_name_order(rows@),
        engine@.can_answer_peers(torrent_path@, rows@),
{
    match engine.torrents.get(torrent_path) {
        Some(managed) => {
            let found = peer_snapshot(&managed.handle);
            assert(is_connected_to(managed.handle, found));
            let rows = ordered_peers(found);
            proof {
                lemma_sorted_strictly(rows@, found@);
            }
            rows
        },
        None => Vec::new(),
    }
}

/// How many of some states are those of torrents at work.
pub open spec fn active_count(states: Seq<TorrentStatsState>) -> nat
    decreases states.len(),
{
    if states.len() == 0 {
        0
    } else {
        active_count(states.drop_last()) + if states.last().active() {
            1nat
        } else {
            0nat
        }
    }
}

/// Some of the states are active exactly when their number is positive.
pub proof fn lemma_active_count(states: Seq<TorrentStatsState>)
    ensures
        active_count(states) <= states.len(),
        active_count(states) > 0 <==> exists|i: int|
            0 <= i < states.len() && (#[trigger] states[i]).active(),
    decreases states.len(),
{
    if states.len() > 0 {
        let before = states.drop_last();
        lemma_active_count(before);
        if states.last().active() {
            assert(states[states.len() - 1].active());
        }
        if exists|i: int| 0 <= i < before.len() && (#[trigger] before[i]).active() {
            let i = choose|i: int| 0 <= i < before.len() && (#[trigger] before[i]).active();
            assert(states[i].active());
        }
        if exists|i: int| 0 <= i < states.len() && (#[trigger] states[i]).active() {
            let i = choose|i: int| 0 <= i < states.len() && (#[trigger] states[i]).active();
            if i < before.len() {
                assert(before[i].active());
            }
        }
    }
}

/// How many torrents are at work, by their states; nothing to show where none is.
pub fn activity_of(states: &[TorrentStatsState]) -> (torrents: Option<usize>)
    ensures
        match torrents {
            Some(n) => n == active_count(states@) && n > 0,
            None => active_count(states@) == 0,
        },
{
    let mut active: usize = 0;
    let mut i: usize = 0;
    assert(states@.take(0) =~= Seq::<TorrentStatsState>::empty());
    while i < states.len()
        invariant
            i <= states@.len(),
            active <= i,
            active == active_count(states@.take(i as int)),
        decreases states@.len() - i,
    {
        assert(states@.take(i + 1).drop_last() =~= states@.take(i as int));
        if states[i].is_active() {
            active += 1;
        }
        i += 1;
    }
    assert(states@.take(i as int) =~= states@);
    if active == 0 {
        None
    } else {
        Some(active)
    }
}

impl EngineState {
    /// Whether every open torrent, and no other, was asked how it is getting on, and these
    /// are the answers.
    pub open spec fn are_reported(self, answers: Map<Seq<char>, TorrentStats>) -> bool {
        &&& answers.dom() == self.torrents.dom()
        &&& forall|p: Seq<char>| #[trigger]
            answers.contains_key(p) ==> reports(self.torrents[p].handle, answers[p])
    }
}

/// The torrents that are at work, by what they answered.
pub open spec fn at_work(answers: Map<Seq<char>, TorrentStats>) -> Set<Seq<char>> {
    answers.dom().filter(|p: Seq<char>| answers[p].state.active())
}

/// Those of some paths at whose places there is a state of a torrent at work.
spec fn active_paths(paths: Seq<Seq<char>>, states: Seq<TorrentStatsState>) -> Set<Seq<char>>
    decreases states.len(),
{
    if states.len() == 0 {
        Set::empty()
    } else {
        let before = active_paths(paths, states.drop_last());
        if states.last().active() {
            before.insert(paths[states.len() - 1])
        } else {
            before
        }
    }
}

/// As many different paths are at work as there are active states.
proof fn lemma_active_paths(paths: Seq<Seq<char>>, states: Seq<TorrentStatsState>)
    requires
        states.len() <= paths.len(),
        paths.no_duplicates(),
    ensures
        active_paths(paths, states).finite(),
        active_paths(paths, states).len() == active_count(states),
        forall|p: Seq<char>| #[trigger]
            active_paths(paths, states).contains(p) <==> exists|i: int|
                0 <= i < states.len() && #[trigger] paths[i] == p && states[i].active(),
    decreases states.len(),
{
    if states.len() > 0 {
        let before = states.drop_last();
        let last = states.len() - 1;
        lemma_active_paths(paths, before);
        assert(!active_paths(paths, before).contains(paths[last]));
        assert forall|p: Seq<char>| #[trigger]
            active_paths(paths, states).contains(p) <==> exists|i: int|
                0 <= i < states.len() && #[trigger] paths[i] == p && states[i].active() by {
            if active_paths(paths, before).contains(p) {
                let i = choose|i: int|
                    0 <= i < before.len() && #[trigger] paths[i] == p && before[i].active();
                assert(states[i].active());
            }
            if exists|i: int| 0 <= i < states.len() && #[trigger] paths[i] == p && states[i].active() {
                let i = choose|i: int|
                    0 <= i < states.len() && #[trigger] paths[i] == p && states[i].active();
                if i < last {
                    assert(before[i].active());
                }
            }
        }
    }
}

/// How many of the open torrents are at work; nothing to show where none is.
pub fn activity(engine: &Engine) -> (torrents: Option<usize>)
    requires
        engine.wf(),
    ensures
        exists|answers: Map<Seq<char>, TorrentStats>| #[trigger]
            engine@.are_reported(answers) && at_work(answers).finite() && match torrents {
                Some(n) => n > 0 && n == at_work(answers).len(),
                None => at_work(answers).len() == 0,
            },
        torrents matches Some(n) ==> 0 < n <= engine.open_torrents(),
        (forall|p: Seq<char>| !#[trigger] engine@.torrents.contains_key(p)) ==> torrents is None,
{
    let mut states: Vec<TorrentStatsState> = Vec::new();
    let ghost mut said: Seq<TorrentStats> = Seq::empty();
    let mut i: usize = 0;
    while i < engine.torrents.len()
        invariant
            engine.wf(),
            i <= engine.torrents.count(),
            states@.len() == i,
            said.len() == i,
            forall|k: int|
                0 <= k < i ==> (#[trigger] said[k]).state == states@[k] && reports(
                    engine.torrents.value(k).handle,
                    said[k],
                ),
        decreases engine.torrents.count() - i,
    {
        let answer = read_stats(&engine.torrents.value_at(i).handle);
        assert(reports(engine.torrents.value(i as int).handle, answer));
        states.push(answer.state);
        proof {
            said = said.push(answer);
        }
        i += 1;
    }
    proof {
        lemma_active_count(states@);
        engine.torrents.lemma_places();
        if engine.torrents.count() > 0 {
            assert(engine@.torrents.contains_key(engine.torrents.path(0)));
        }
        lemma_reported(engine, said, states@);
    }
    activity_of(states.as_slice())
}

/// What the torrents said, each at its place, are the answers of all open torrents, and as
/// many of them are at work as there are active states.
proof fn lemma_reported(engine: &Engine, said: Seq<TorrentStats>, states: Seq<TorrentStatsState>)
    requires
        engine.wf(),
        said.len() == engine.torrents.count(),
        states.len() == said.len(),
        forall|k: int|
            0 <= k < said.len() ==> (#[trigger] said[k]).state == states[k] && reports(
                engine.torrents.value(k).handle,
                said[k],
            ),
    ensures
        exists|answers: Map<Seq<char>, TorrentStats>| #[trigger]
            engine@.are_reported(answers) && at_work(answers).finite() && at_work(answers).len()
                == active_count(states),
{
    engine.torrents.lemma_places();
    let paths = Seq::new(engine.torrents.count(), |k: int| engine.torrents.path(k));
    let answers = Map::new(
        |p: Seq<char>| engine@.torrents.contains_key(p),
        |p: Seq<char>| said[choose|k: int| 0 <= k < paths.len() && #[trigger] paths[k] == p],
    );
    assert forall|i: int, j: int| 0 <= i < paths.len() && 0 <= j < paths.len() && i != j implies paths[i]
        != paths[j] by {
        assert(engine.torrents.path(i) != engine.torrents.path(j));
    }
    assert forall|p: Seq<char>| #[trigger] answers.contains_key(p) implies exists|k: int|
        0 <= k < paths.len() && #[trigger] paths[k] == p && answers[p] == said[k] by {
        let k = choose|k: int|
            0 <= k < engine.torrents.count() && #[trigger] engine.torrents.path(k) == p;
        assert(paths[k] == p);
    }
    assert forall|k: int| 0 <= k < paths.len() implies answers.contains_key(#[trigger] paths[k])
        && answers[paths[k]] == said[k] by {
        assert(engine@.torrents.contains_key(engine.torrents.path(k)));
    }
    assert forall|p: Seq<char>| #[trigger] answers.contains_key(p) implies reports(
        engine@.torrents[p].handle,
        answers[p],
    ) by {
        let k = choose|k: int|
            0 <= k < paths.len() && #[trigger] paths[k] == p && answers[p] == said[k];
        assert(engine.torrents.path(k) == p);
    }
    assert(answers.dom() =~= engine@.torrents.dom());
    lemma_active_paths(paths, states);
    assert(at_work(answers) =~= active_paths(paths, states));
    assert(engine@.are_reported(answers));
}

/// The torrents that the session runs or has paused.
pub fn handles(engine: &Engine) -> (handles: Vec<Arc<librqbit::ManagedTorrent>>)
    requires
        engine.wf(),
    ensures
        handles@.len() == engine.open_torrents(),
        forall|i: int| 0 <= i < handles@.len() ==> engine@.runs(#[trigger] handles@[i]),
        forall|p: Seq<char>| #[trigger]
            engine@.torrents.contains_key(p) ==> handles@.contains(engine@.torrents[p].handle),
{
    let mut handles: Vec<Arc<librqbit::ManagedTorrent>> = Vec::new();
    let mut i: usize = 0;
    while i < engine.torrents.len()
        invariant
            engine.wf(),
            i <= engine.torrents.count(),
            handles@.len() == i,
            forall|k: int| 0 <= k < i ==> #[trigger] handles@[k] == engine.torrents.value(k).handle,
        decreases engine.torrents.count() - i,
    {
        handles.push(engine.torrents.value_at(i).handle.clone());
        i += 1;
    }
    proof {
        engine.torrents.lemma_places();
        assert forall|k: int| 0 <= k < handles@.len() implies engine@.runs(
            #[trigger] handles@[k],
        ) by {
            assert(engine@.torrents.contains_key(engine.torrents.path(k)));
        }
        assert forall|p: Seq<char>| #[trigger]
            engine@.torrents.contains_key(p) implies handles@.contains(
            engine@.torrents[p].handle,
        ) by {
            let k = choose|k: int|
                0 <= k < engine.torrents.count() && #[trigger] engine.torrents.path(k) == p;
            assert(handles@[k] == engine.torrents.value(k).handle);
        }
    }
    handles
}

/// The session, where one runs.
pub fn current_session(engine: &Engine) -> (session: Option<Arc<librqbit::Session>>)
    ensures
        session == engine@.session,
{
    match &engine.session {
        Some(session) => Some(session.clone()),
        None => None,
    }
}

/// Whether a new session has to keep from uploading.
pub fn upload_disabled(engine: &Engine) -> (disabled: bool)
    ensures
        disabled == !engine@.seeding,
{
    !engine.seeding
}

/// Takes a new session in, with the runtime that it was started on, unless another one was
/// taken in while it started; the session to go on with is handed back.
pub fn adopt_session(
    engine: &mut Engine,
    started: Arc<librqbit::Session>,
    runtime: Option<tokio::runtime::Handle>,
) -> (session: Arc<librqbit::Session>)
    requires
        old(engine).wf(),
    ensures
        final(engine).wf(),
        match old(engine)@.session {
            Some(existing) => session == existing && final(engine)@ == old(engine)@,
            None => {
                &&& session == started
                &&& final(engine)@ == (EngineState {
                    session: Some(started),
                    runtime: runtime,
                    ..old(engine)@
                })
            },
        },
{
    match &engine.session {
        Some(existing) => existing.clone(),
        None => {
            engine.runtime = runtime;
            engine.session = Some(started.clone());
            started
        },
    }
}

/// A refusal that names its reason.
pub open spec fn because(what: Seq<char>, reason: Seq<char>) -> Seq<char> {
    what + ": "@ + reason
}

/// The outcome of work on a session, with a failure told as `what: reason`.
fn session_result<T>(what: &str, outcome: Result<T, String>) -> (result: Result<T, AppError>)
    ensures
        match outcome {
            Ok(value) => result == Ok::<T, AppError>(value),
            Err(reason) => result matches Err(e) && e.is_other(because(what@, reason@)),
        },
{
    match outcome {
        Ok(value) => Ok(value),
        Err(reason) => {
            let mut text = joined(what, ": ");
            text.append(reason.as_str());
            Err(AppError::Other(text))
        },
    }
}

/// What comes of starting a session.
pub fn session_started<T>(outcome: Result<T, String>) -> (result: Result<T, AppError>)
    ensures
        match outcome {
            Ok(value) => result == Ok::<T, AppError>(value),
            Err(reason) => result matches Err(e) && e.is_other(
                because("could not start the torrent session"@, reason@),
            ),
        },
{
    session_result("could not start the torrent session", outcome)
}

/// What comes of asking a paused torrent to go on.
pub fn resumed(outcome: Result<(), String>) -> (result: Result<(), AppError>)
    ensures
        match outcome {
            Ok(value) => result == Ok::<(), AppError>(value),
            Err(reason) => result matches Err(e) && e.is_other(
                because("could not resume the torrent"@, reason@),
            ),
        },
{
    session_result("could not resume the torrent", outcome)
}

/// What comes of telling a session which files are wanted.
pub fn selection_changed(outcome: Result<(), String>) -> (result: Result<(), AppError>)
    ensures
        match outcome {
            Ok(value) => result == Ok::<(), AppError>(value),
            Err(reason) => result matches Err(e) && e.is_other(
                because("could not change the file selection"@, reason@),
            ),
        },
{
    session_result("could not change the file selection", outcome)
}

/// How a torrent is added to a session.
pub struct AddSettings {
    pub paused: bool,
    pub overwrite: bool,
    pub only_files: Option<Vec<usize>>,
    pub output_folder: String,
}

/// What starting a torrent takes.
pub enum StartPlan {
    /// It is open: the session is to go on with it.
    Resume(Arc<librqbit::Session>, Arc<librqbit::ManagedTorrent>),
    /// It is open and there is no session to ask.
    Nothing,
    /// It is to be added to a session.
    Add(AddSettings),
}

/// What starting a torrent takes.
pub fn start_plan(engine: &Engine, torrent_path: &str, selected: Option<Vec<usize>>) -> (plan:
    StartPlan)
    requires
        engine.wf(),
    ensures
        if engine@.torrents.contains_key(torrent_path@) {
            match engine@.session {
                Some(session) => plan == StartPlan::Resume(
                    session,
                    engine@.torrents[torrent_path@].handle,
                ),
                None => plan is Nothing,
            }
        } else {
            plan matches StartPlan::Add(settings) && {
                &&& !settings.paused
                &&& settings.overwrite
                &&& settings.only_files == selected
                &&& settings.output_folder@ == data_dir(torrent_path@)
            }
        },
{
    match engine.torrents.get(torrent_path) {
        Some(managed) => match &engine.session {
            Some(session) => StartPlan::Resume(session.clone(), managed.handle.clone()),
            None => StartPlan::Nothing,
        },
        None => StartPlan::Add(
            AddSettings {
                paused: false,
                overwrite: true,
                only_files: selected,
                output_folder: data_dir_for(torrent_path),
            },
        ),
    }
}

/// What a session answers when a torrent is added.
pub enum AddOutcome {
    Added(usize, Arc<librqbit::ManagedTorrent>),
    AlreadyManaged,
    ListOnly,
    Failed(String),
}

/// Forty small hexadecimal digits.
pub open spec fn is_hash_text(text: Seq<char>) -> bool {
    &&& text.len() == 40
    &&& forall|i: int|
        0 <= i < text.len() ==> ('0' <= #[trigger] text[i] <= '9' || 'a' <= text[i] <= 'f')
}

/// Calls `ManagedTorrent::info_hash` and writes the hash out with `Id20::as_string`: twenty
/// bytes as small hexadecimal digits. Which hash it is lies with the torrent.
#[verifier::external_body]
pub(crate) fn info_hash_text(handle: &Arc<librqbit::ManagedTorrent>) -> (text: String)
    ensures
        is_hash_text(text@),
{
    handle.info_hash().as_string()
}

/// Whether a torrent that is asked for its info hash can answer with this text.
pub closed spec fn is_hashed_as(handle: Arc<librqbit::ManagedTorrent>, text: String) -> bool {
    call_ensures(info_hash_text, (&handle,), text)
}

impl EngineState {
    /// The session runs a torrent under an id.
    pub open spec fn started(
        self,
        torrent_path: Seq<char>,
        id: usize,
        handle: Arc<librqbit::ManagedTorrent>,
    ) -> EngineState {
        EngineState { torrents: self.torrents.insert(torrent_path, Managed { id, handle }), ..self }
    }
}

/// The files that a selection names; none where there is no selection.
pub open spec fn selected_files(selected: Option<Vec<usize>>) -> Seq<usize> {
    match selected {
        Some(files) => files@,
        None => Seq::empty(),
    }
}

/// Notes that the session runs a torrent; the state that is handed back is to be written.
pub fn record_started(
    engine: &mut Engine,
    torrent_path: &str,
    id: usize,
    handle: Arc<librqbit::ManagedTorrent>,
    info_hash: String,
    selected: Option<Vec<usize>>,
) -> (state: TorrentState)
    requires
        old(engine).wf(),
    ensures
        final(engine).wf(),
        final(engine)@ == old(engine)@.started(torrent_path@, id, handle),
        state.info_hash == info_hash,
        state.selected@ == selected_files(selected),
{
    engine.torrents.insert(torrent_path, Managed { id, handle });
    let selected = match selected {
        Some(files) => files,
        None => Vec::new(),
    };
    TorrentState { info_hash, selected }
}

/// What comes of adding a torrent: the state to write, or why it was not added.
pub fn finish_start(
    engine: &mut Engine,
    torrent_path: &str,
    selected: Option<Vec<usize>>,
    outcome: AddOutcome,
) -> (result: Result<TorrentState, AppError>)
    requires
        old(engine).wf(),
    ensures
        final(engine).wf(),
        match outcome {
            AddOutcome::Added(id, handle) => {
                &&& final(engine)@ == old(engine)@.started(torrent_path@, id, handle)
                &&& result matches Ok(state) && is_hashed_as(handle, state.info_hash)
                    && is_hash_text(state.info_hash@) && state.selected@ == selected_files(selected)
            },
            AddOutcome::AlreadyManaged => {
                &&& final(engine)@ == old(engine)@
                &&& result matches Err(e) && e.is_other(
                    "this torrent is already open somewhere else in the session"@,
                )
            },
            AddOutcome::ListOnly => {
                &&& final(engine)@ == old(engine)@
                &&& result matches Err(e) && e.is_other("the torrent was not added"@)
            },
            AddOutcome::Failed(reason) => {
                &&& final(engine)@ == old(engine)@
                &&& result matches Err(e) && e.is_other(
                    because("could not add the torrent"@, reason@),
                )
            },
        },
{
    match outcome {
        AddOutcome::Added(id, handle) => {
            let info_hash = info_hash_text(&handle);
            assert(is_hashed_as(handle, info_hash));
            Ok(record_started(engine, torrent_path, id, handle, info_hash, selected))
        },
        AddOutcome::AlreadyManaged => Err(
            refusal("this torrent is already open somewhere else in the session"),
        ),
        AddOutcome::ListOnly => Err(refusal("the torrent was not added")),
        AddOutcome::Failed(reason) => session_result("could not add the torrent", Err(reason)),
    }
}

/// Whom to ask to pause a torrent; nobody where it is not open or no session runs.
pub fn stop_target(engine: &Engine, torrent_path: &str) -> (target: Option<
    (Arc<librqbit::Session>, Arc<librqbit::ManagedTorrent>),
>)
    requires
        engine.wf(),
    ensures
        match target {
            Some((session, handle)) => {
                &&& engine@.torrents.contains_key(torrent_path@)
                &&& engine@.session == Some(session)
                &&& handle == engine@.torrents[torrent_path@].handle
            },
            None => !engine@.torrents.contains_key(torrent_path@) || engine@.session is None,
        },
{
    match engine.torrents.get(torrent_path) {
        Some(managed) => match &engine.session {
            Some(session) => Some((session.clone(), managed.handle.clone())),
            None => None,
        },
        None => None,
    }
}

/// The attempts to pause a torrent that have failed.
pub struct StopAttempts {
    pub failed: usize,
    pub last: Option<String>,
}

/// What to do next about a torrent that is to pause.
pub enum StopAction {
    /// It is paused.
    Finished,
    /// Ask it to pause.
    Pause,
    /// It has been asked often enough.
    GiveUp(AppError),
}

impl StopAttempts {
    /// No attempt was made.
    pub fn new() -> (attempts: StopAttempts)
        ensures
            attempts.failed == 0,
            attempts.last is None,
    {
        StopAttempts { failed: 0, last: None }
    }

    /// The reason that is given in the end.
    pub open spec fn reason(self) -> Seq<char> {
        match self.last {
            Some(text) => text@,
            None => "unknown reason"@,
        }
    }

    /// What to do next, given whether the torrent is paused by now.
    pub open spec fn next(self, paused: bool, action: StopAction) -> bool {
        if self.failed >= STOP_ATTEMPTS {
            action matches StopAction::GiveUp(e) && e.is_other(
                because("could not pause the torrent"@, self.reason()),
            )
        } else if paused {
            action is Finished
        } else {
            action is Pause
        }
    }

    /// What to do next, given whether the torrent is paused by now.
    pub fn action(&self, paused: bool) -> (action: StopAction)
        ensures
            self.next(paused, action),
    {
        if self.failed >= STOP_ATTEMPTS {
            let reason = match &self.last {
                Some(text) => text.clone(),
                None => "unknown reason".to_owned(),
            };
            let mut text = joined("could not pause the torrent", ": ");
            text.append(reason.as_str());
            return StopAction::GiveUp(AppError::Other(text));
        }
        if paused {
            StopAction::Finished
        } else {
            StopAction::Pause
        }
    }

    /// Looks whether the torrent is paused, and decides what to do next.
    pub fn step(&self, handle: &Arc<librqbit::ManagedTorrent>) -> (action: StopAction)
        ensures
            exists|s: TorrentStats| #[trigger]
                reports(*handle, s) && self.next(s.state is Paused, action),
    {
        let stats = read_stats(handle);
        assert(reports(*handle, stats));
        self.action(matches!(stats.state, TorrentStatsState::Paused))
    }

    /// An attempt has failed.
    pub fn note_failure(&mut self, reason: String)
        requires
            old(self).failed < STOP_ATTEMPTS,
        ensures
            final(self).failed == old(self).failed + 1,
            final(self).last == Some(reason),
    {
        self.failed = self.failed + 1;
        self.last = Some(reason);
    }
}

/// Whom to tell which files of a torrent are wanted. A torrent that is not open takes no
/// selection; where no session runs there is nobody to tell.
pub fn selection_target(engine: &Engine, torrent_path: &str) -> (target: Result<
    Option<(Arc<librqbit::Session>, Arc<librqbit::ManagedTorrent>)>,
    AppError,
>)
    requires
        engine.wf(),
    ensures
        if engine@.torrents.contains_key(torrent_path@) {
            match engine@.session {
                Some(session) => target == Ok::<_, AppError>(
                    Some((session, engine@.torrents[torrent_path@].handle)),
                ),
                None => target matches Ok(None),
            }
        } else {
            target matches Err(e) && e.is_other("this torrent is not running"@)
        },
{
    match engine.torrents.get(torrent_path) {
        Some(managed) => match &engine.session {
            Some(session) => Ok(Some((session.clone(), managed.handle.clone()))),
            None => Ok(None),
        },
        None => Err(refusal("this torrent is not running")),
    }
}

/// What wiping a torrent takes, in this order: the torrent leaves its session together
/// with its files, then the folder is removed, then each of the files that is there.
pub struct CleanupPlan {
    pub delete: Option<(usize, Arc<librqbit::Session>)>,
    pub folder: String,
    pub files: Vec<String>,
}

/// The paths of some files.
pub open spec fn texts(files: Seq<String>) -> Seq<Seq<char>> {
    files.map_values(|t: String| t@)
}

/// Forgets a torrent, and says what wiping it takes. The torrent file itself goes only
/// where that is asked for.
pub fn cleanup_plan(engine: &mut Engine, torrent_path: &str, delete_torrent_file: bool) -> (plan:
    CleanupPlan)
    requires
        old(engine).wf(),
    ensures
        final(engine).wf(),
        final(engine)@ == old(engine)@.forgotten(torrent_path@),
        match plan.delete {
            Some((id, session)) => {
                &&& old(engine)@.torrents.contains_key(torrent_path@)
                &&& id == old(engine)@.torrents[torrent_path@].id
                &&& old(engine)@.session == Some(session)
            },
            None => !old(engine)@.torrents.contains_key(torrent_path@) || old(
                engine,
            )@.session is None,
        },
        plan.folder@ == data_dir(torrent_path@),
        texts(plan.files@) == if delete_torrent_file {
            seq![state_file(torrent_path@), torrent_path@]
        } else {
            seq![state_file(torrent_path@)]
        },
{
    let delete = match engine.torrents.remove(torrent_path) {
        Some(managed) => match &engine.session {
            Some(session) => Some((managed.id, session.clone())),
            None => None,
        },
        None => None,
    };
    let mut files: Vec<String> = Vec::new();
    files.push(state_file_for(torrent_path));
    if delete_torrent_file {
        files.push(torrent_path.to_owned());
    }
    assert(texts(files@) =~= if delete_torrent_file {
        seq![state_file(torrent_path@), torrent_path@]
    } else {
        seq![state_file(torrent_path@)]
    });
    CleanupPlan { delete, folder: data_dir_for(torrent_path), files }
}

impl EngineState {
    /// That many panels more have opened a torrent.
    pub open spec fn acquired_times(self, torrent_path: Seq<char>, n: nat) -> EngineState
        decreases n,
    {
        if n == 0 {
            self
        } else {
            self.acquired_times(torrent_path, (n - 1) as nat).acquired(torrent_path)
        }
    }

    /// That many panels have left a torrent.
    pub open spec fn released_times(self, torrent_path: Seq<char>, n: nat) -> EngineState
        decreases n,
    {
        if n == 0 {
            self
        } else {
            self.released_times(torrent_path, (n - 1) as nat).released(torrent_path)
        }
    }
}

/// A panel that opens a torrent and leaves it changes nothing.
pub proof fn releasing_undoes_acquiring(engine: EngineState, torrent_path: Seq<char>)
    requires
        engine.counts_are_positive(),
        engine.open_count(torrent_path) < usize::MAX,
    ensures
        engine.acquired(torrent_path).released(torrent_path) == engine,
{
    let after = engine.acquired(torrent_path).released(torrent_path);
    assert(engine.acquired(torrent_path).open_count(torrent_path) == engine.open_count(torrent_path)
        + 1);
    assert(after.refs =~= engine.refs);
}

/// A torrent that many panels opened is in use until every one of them has left.
pub proof fn a_torrent_is_in_use_until_every_panel_has_left(
    engine: EngineState,
    torrent_path: Seq<char>,
    opened: nat,
    left: nat,
)
    requires
        left <= opened,
        engine.open_count(torrent_path) + opened <= usize::MAX,
    ensures
        engine.acquired_times(torrent_path, opened).released_times(torrent_path, left).open_count(
            torrent_path,
        ) == engine.open_count(torrent_path) + opened - left,
    decreases left,
{
    lemma_acquired_times(engine, torrent_path, opened);
    if left > 0 {
        a_torrent_is_in_use_until_every_panel_has_left(
            engine,
            torrent_path,
            opened,
            (left - 1) as nat,
        );
    }
}

proof fn lemma_acquired_times(engine: EngineState, torrent_path: Seq<char>, n: nat)
    requires
        engine.open_count(torrent_path) + n <= usize::MAX,
    ensures
        engine.acquired_times(torrent_path, n).open_count(torrent_path) == engine.open_count(
            torrent_path,
        ) + n,
    decreases n,
{
    if n > 0 {
        lemma_acquired_times(engine, torrent_path, (n - 1) as nat);
    }
}

/// What panels do to one torrent leaves the count of every other as it is.
pub proof fn torrents_are_counted_independently(
    engine: EngineState,
    torrent_path: Seq<char>,
    other: Seq<char>,
)
    requires
        torrent_path != other,
    ensures
        engine.acquired(torrent_path).open_count(other) == engine.open_count(other),
        engine.released(torrent_path).open_count(other) == engine.open_count(other),
{
}

/// Leaving a torrent that nobody opened changes nothing.
pub proof fn releasing_an_unopened_torrent_is_harmless(
    engine: EngineState,
    torrent_path: Seq<char>,
)
    requires
        engine.counts_are_positive(),
        engine.open_count(torrent_path) == 0,
    ensures
        engine.released(torrent_path) == engine,
{
    assert(engine.released(torrent_path).refs =~= engine.refs);
}

/// A torrent that some panel still has open is not closed.
pub proof fn a_torrent_in_use_is_not_closed(engine: EngineState, torrent_path: Seq<char>)
    requires
        engine.open_count(torrent_path) > 0,
    ensures
        engine.closed_if_unused(torrent_path) == engine,
{
}

/// A torrent that the last panel has left, and another has opened before it was looked at
/// again, is not closed.
pub proof fn a_brief_dip_to_zero_does_not_close_a_torrent(
    engine: EngineState,
    torrent_path: Seq<char>,
)
    ensures
        engine.released(torrent_path).acquired(torrent_path).closed_if_unused(torrent_path).torrents
            == engine.torrents,
{
}

/// Once the last panel has left, looking at the torrent again closes it, and no other.
pub proof fn the_last_panel_closes_a_torrent(engine: EngineState, torrent_path: Seq<char>)
    requires
        engine.open_count(torrent_path) == 1,
    ensures
        engine.released(torrent_path).closed_if_unused(torrent_path).torrents
            == engine.torrents.remove(torrent_path),
{
}

/// A name appended to a path stays in the same directory.
proof fn lemma_same_directory(path: Seq<char>, ending: Seq<char>)
    requires
        forall|i: int| 0 <= i < ending.len() ==> ending[i] != '/',
    ensures
        last_part_start(path + ending) == last_part_start(path),
    decreases ending.len(),
{
    if ending.len() == 0 {
        assert(path + ending =~= path);
    } else {
        assert((path + ending).drop_last() =~= path + ending.drop_last());
        assert((path + ending).last() == ending.last());
        lemma_same_directory(path, ending.drop_last());
    }
}

/// The data folder and the state file lie in the directory of the torrent file.
pub proof fn data_and_state_sit_next_to_the_torrent(torrent_path: Seq<char>)
    ensures
        last_part_start(data_dir(torrent_path)) == last_part_start(torrent_path),
        last_part_start(state_file(torrent_path)) == last_part_start(torrent_path),
{
    reveal_strlit("-data");
    reveal_strlit("-state.json");
    lemma_same_directory(torrent_path, "-data"@);
    lemma_same_directory(torrent_path, "-state.json"@);
}

/// The state file is not inside the data folder, nor is it the folder.
pub proof fn the_state_file_is_not_inside_the_data_folder(torrent_path: Seq<char>)
    ensures
        state_file(torrent_path) != data_dir(torrent_path),
        !(data_dir(torrent_path) + seq!['/']).is_prefix_of(state_file(torrent_path)),
{
    reveal_strlit("-data");
    reveal_strlit("-state.json");
    let at = torrent_path.len() as int + 1;
    assert(state_file(torrent_path)[at] == 's');
    assert(data_dir(torrent_path)[at] == 'd');
    assert((data_dir(torrent_path) + seq!['/'])[at] == 'd');
}

/// On a machine whose paths have slashes, a file of a torrent whose path is not absolute is kept
/// inside the data folder.
pub proof fn downloaded_files_are_kept_in_the_data_folder(
    torrent_path: Seq<char>,
    file_path: Seq<char>,
    path: Seq<char>,
)
    requires
        forall|separator: char| #[trigger] is_separator(separator) ==> separator == '/',
        is_downloaded_path(torrent_path, file_path, path),
        !(file_path.len() > 0 && file_path[0] == '/'),
    ensures
        path == data_dir(torrent_path) + seq!['/'] + file_path,
{
    reveal_strlit("-data");
    assert(data_dir(torrent_path).last() == 'a');
}

/// For a file that has any bytes, the row that shows its progress is complete exactly when
/// the file counts as downloaded.
pub proof fn a_shown_file_is_complete_when_it_is_downloaded(
    done: Seq<u64>,
    sizes: Seq<u64>,
    index: usize,
)
    requires
        index < done.len(),
        index < sizes.len(),
        sizes[index as int] > 0,
    ensures
        progress_of(done, sizes)[index as int].complete() == file_is_done(
            done,
            index,
            sizes[index as int],
        ),
{
}

impl StopAttempts {
    /// The attempts that failed for these reasons, one after another.
    pub open spec fn after(reasons: Seq<String>) -> StopAttempts
        decreases reasons.len(),
    {
        if reasons.len() == 0 {
            StopAttempts { failed: 0, last: None }
        } else {
            StopAttempts {
                failed: (StopAttempts::after(reasons.drop_last()).failed + 1) as usize,
                last: Some(reasons.last()),
            }
        }
    }
}

proof fn lemma_attempts_after(reasons: Seq<String>)
    requires
        reasons.len() <= STOP_ATTEMPTS,
    ensures
        StopAttempts::after(reasons).failed == reasons.len(),
    decreases reasons.len(),
{
    if reasons.len() > 0 {
        lemma_attempts_after(reasons.drop_last());
    }
}

/// A torrent is asked to pause no more than [`STOP_ATTEMPTS`] times; when as many attempts
/// have failed, the reason of the last is given.
pub proof fn stopping_comes_to_an_end(reasons: Seq<String>, paused: bool, action: StopAction)
    requires
        reasons.len() <= STOP_ATTEMPTS,
        StopAttempts::after(reasons).next(paused, action),
    ensures
        action is Pause ==> reasons.len() < STOP_ATTEMPTS,
        reasons.len() == STOP_ATTEMPTS ==> (action matches StopAction::GiveUp(e) && e.is_other(
            because("could not pause the torrent"@, reasons.last()@),
        )),
{
    lemma_attempts_after(reasons);
}

} // verus!
