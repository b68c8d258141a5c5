//! Files on their way to and from a server: chunks that are put together or written out,
//! and how often progress is told.

use vstd::prelude::*;

use crate::rpc::{remote_result, AppError};

verus! {

/// How many milliseconds lie at least between two reports of progress.
pub const PROGRESS_INTERVAL_MILLIS: u128 = 100;

/// Whether progress is told again after that many milliseconds.
pub fn progress_due(elapsed_millis: u128) -> (due: bool)
    ensures
        due == (elapsed_millis >= PROGRESS_INTERVAL_MILLIS),
{
    elapsed_millis >= PROGRESS_INTERVAL_MILLIS
}

/// What a transfer hands over: some bytes, none at the end, or why it broke off.
pub open spec fn chunk_model(chunk: Result<Vec<u8>, String>) -> Result<Seq<u8>, Seq<char>> {
    match chunk {
        Ok(bytes) => Ok(bytes@),
        Err(text) => Err(text@),
    }
}

/// How far a transfer has come.
pub enum Arrived {
    /// These bytes have arrived, and more may follow.
    Open(Seq<u8>),
    /// These bytes are all.
    Complete(Seq<u8>),
    /// It broke off.
    Broken(Seq<char>),
}

impl Arrived {
    /// How far a transfer has come after one more chunk. An empty chunk ends it; nothing that
    /// follows the end counts.
    pub open spec fn and(self, chunk: Result<Seq<u8>, Seq<char>>) -> Arrived {
        match self {
            Arrived::Open(bytes) => match chunk {
                Ok(more) => if more.len() == 0 {
                    Arrived::Complete(bytes)
                } else {
                    Arrived::Open(bytes + more)
                },
                Err(text) => Arrived::Broken(text),
            },
            _ => self,
        }
    }

    /// How far a transfer has come after these chunks.
    pub open spec fn after(chunks: Seq<Result<Seq<u8>, Seq<char>>>) -> Arrived
        decreases chunks.len(),
    {
        if chunks.len() == 0 {
            Arrived::Open(Seq::empty())
        } else {
            Arrived::after(chunks.drop_last()).and(chunks.last())
        }
    }

    /// What a transfer comes to when no chunk follows.
    pub open spec fn outcome(self) -> Result<Seq<u8>, Seq<char>> {
        match self {
            Arrived::Open(bytes) => Ok(bytes),
            Arrived::Complete(bytes) => Ok(bytes),
            Arrived::Broken(text) => Err(text),
        }
    }
}

/// What is done with a chunk.
pub enum ChunkAction {
    /// It is added to what has arrived.
    Take(Vec<u8>),
    /// The transfer is complete.
    Finish,
    /// The transfer broke off.
    Fail(String),
}

/// What is done with a chunk.
pub fn chunk_action(chunk: Result<Vec<u8>, String>) -> (action: ChunkAction)
    ensures
        match action {
            ChunkAction::Take(bytes) => chunk == Ok::<Vec<u8>, String>(bytes) && bytes@.len() > 0,
            ChunkAction::Finish => chunk matches Ok(bytes) && bytes@.len() == 0,
            ChunkAction::Fail(text) => chunk == Err::<Vec<u8>, String>(text),
        },
{
    match chunk {
        Ok(bytes) => if bytes.len() == 0 {
            ChunkAction::Finish
        } else {
            ChunkAction::Take(bytes)
        },
        Err(text) => ChunkAction::Fail(text),
    }
}

/// The chunks of a transfer, put together.
pub struct Assembly {
    bytes: Vec<u8>,
    complete: bool,
    broken: Option<String>,
}

impl View for Assembly {
    type V = Arrived;

    closed spec fn view(&self) -> Arrived {
        match self.broken {
            Some(text) => Arrived::Broken(text@),
            None => if self.complete {
                Arrived::Complete(self.bytes@)
            } else {
                Arrived::Open(self.bytes@)
            },
        }
    }
}

impl Assembly {
    pub fn new() -> (assembly: Assembly)
        ensures
            assembly@ == Arrived::after(Seq::empty()),
    {
        let assembly = Assembly { bytes: Vec::new(), complete: false, broken: None };
        assert(assembly.bytes@ =~= Seq::<u8>::empty());
        assembly
    }

    /// Whether no further chunk counts.
    pub fn is_closed(&self) -> (closed: bool)
        ensures
            closed == !(self@ is Open),
    {
        self.complete || self.broken.is_some()
    }

    /// Adds a chunk that arrived that many milliseconds after progress was last told. Gives
    /// the number of bytes that have arrived where it is time to tell it again.
    pub fn add(&mut self, chunk: Result<Vec<u8>, String>, elapsed_millis: u128) -> (report: Option<
        u64,
    >)
        ensures
            final(self)@ == old(self)@.and(chunk_model(chunk)),
            match final(self)@ {
                Arrived::Open(bytes) if elapsed_millis >= PROGRESS_INTERVAL_MILLIS => report
                    == Some(bytes.len() as u64),
                _ => report is None,
            },
    {
        if self.is_closed() {
            return None;
        }
        match chunk_action(chunk) {
            ChunkAction::Take(more) => {
                self.bytes.extend_from_slice(more.as_slice());
                assert(self.bytes@ =~= old(self).bytes@ + more@);
                if progress_due(elapsed_millis) {
                    return Some(self.bytes.len() as u64);
                }
                None
            },
            ChunkAction::Finish => {
                self.complete = true;
                None
            },
            ChunkAction::Fail(text) => {
                self.broken = Some(text);
                None
            },
        }
    }

    /// What the transfer came to.
    pub fn finish(self) -> (outcome: Result<Vec<u8>, String>)
        ensures
            chunk_model(outcome) == self@.outcome(),
    {
        match self.broken {
            Some(text) => Err(text),
            None => Ok(self.bytes),
        }
    }
}

/// The bytes of some chunks, one after another.
pub open spec fn concatenated(chunks: Seq<Seq<u8>>) -> Seq<u8>
    decreases chunks.len(),
{
    if chunks.len() == 0 {
        Seq::empty()
    } else {
        concatenated(chunks.drop_last()) + chunks.last()
    }
}

/// Chunks that arrived without an error.
pub open spec fn sound(chunks: Seq<Seq<u8>>) -> Seq<Result<Seq<u8>, Seq<char>>> {
    chunks.map_values(|c: Seq<u8>| Ok::<Seq<u8>, Seq<char>>(c))
}

/// Chunks that hold bytes are put together in the order in which they arrive, with nothing
/// lost and nothing added.
pub proof fn chunks_are_put_together_in_order(chunks: Seq<Seq<u8>>)
    requires
        forall|i: int| 0 <= i < chunks.len() ==> (#[trigger] chunks[i]).len() > 0,
    ensures
        Arrived::after(sound(chunks)) == Arrived::Open(concatenated(chunks)),
    decreases chunks.len(),
{
    if chunks.len() > 0 {
        chunks_are_put_together_in_order(chunks.drop_last());
        assert(sound(chunks).drop_last() =~= sound(chunks.drop_last()));
        assert(sound(chunks).last() == Ok::<Seq<u8>, Seq<char>>(chunks.last()));
        assert(chunks.last() == chunks[chunks.len() - 1]);
    }
}

/// What follows the end of a transfer changes nothing.
pub proof fn nothing_counts_after_the_end(
    chunks: Seq<Result<Seq<u8>, Seq<char>>>,
    more: Seq<Result<Seq<u8>, Seq<char>>>,
)
    requires
        !(Arrived::after(chunks) is Open),
    ensures
        Arrived::after(chunks + more) == Arrived::after(chunks),
    decreases more.len(),
{
    if more.len() > 0 {
        nothing_counts_after_the_end(chunks, more.drop_last());
        assert((chunks + more).drop_last() =~= chunks + more.drop_last());
        assert((chunks + more).last() == more.last());
    } else {
        assert(chunks + more =~= chunks);
    }
}

/// A transfer that breaks off gives its error, whatever arrived before.
pub proof fn a_broken_transfer_gives_its_error(
    chunks: Seq<Result<Seq<u8>, Seq<char>>>,
    text: Seq<char>,
)
    requires
        Arrived::after(chunks) is Open,
    ensures
        Arrived::after(chunks.push(Err(text))).outcome() == Err::<Seq<u8>, Seq<char>>(text),
{
    assert(chunks.push(Err(text)).drop_last() =~= chunks);
}

/// The result of reading a file: first that of putting its chunks together, then that of the
/// download.
pub fn assembled_then_downloaded(
    assembled: Result<Result<Vec<u8>, String>, String>,
    download: Result<Result<(), String>, String>,
) -> (result: Result<Vec<u8>, AppError>)
    ensures
        match assembled {
            Ok(Err(text)) => result matches Err(e) && e.is_remote(text@),
            Err(text) => result matches Err(e) && e.is_remote(text@),
            Ok(Ok(bytes)) => match download {
                Ok(Ok(_)) => result == Ok::<Vec<u8>, AppError>(bytes),
                Ok(Err(text)) => result matches Err(e) && e.is_remote(text@),
                Err(text) => result matches Err(e) && e.is_remote(text@),
            },
        },
{
    let bytes = match remote_result(assembled) {
        Ok(bytes) => bytes,
        Err(e) => {
            return Err(e);
        },
    };
    match remote_result(download) {
        Ok(_) => Ok(bytes),
        Err(e) => Err(e),
    }
}

/// The result of reading a file: first that of the download, then that of collecting its
/// chunks.
pub fn downloaded_then_collected(
    download: Result<Result<(), String>, String>,
    collected: Result<Result<Vec<u8>, String>, String>,
) -> (result: Result<Vec<u8>, AppError>)
    ensures
        match download {
            Ok(Err(text)) => result matches Err(e) && e.is_remote(text@),
            Err(text) => result matches Err(e) && e.is_remote(text@),
            Ok(Ok(_)) => match collected {
                Ok(Ok(bytes)) => result == Ok::<Vec<u8>, AppError>(bytes),
                Ok(Err(text)) => result matches Err(e) && e.is_remote(text@),
                Err(text) => result matches Err(e) && e.is_remote(text@),
            },
        },
{
    match remote_result(download) {
        Ok(_) => remote_result(collected),
        Err(e) => Err(e),
    }
}

/// What is told of a finished download: first the result of the download, then that of the
/// task which wrote the file.
pub fn written_result(
    download: Result<Result<(), String>, String>,
    written: Result<Result<(), String>, String>,
) -> (result: Result<(), String>)
    ensures
        match download {
            Ok(Err(text)) => result == Err::<(), String>(text),
            Err(text) => result == Err::<(), String>(text),
            Ok(Ok(_)) => match written {
                Ok(outcome) => result == outcome,
                Err(text) => result == Err::<(), String>(text),
            },
        },
{
    match download {
        Ok(Ok(_)) => match written {
            Ok(outcome) => outcome,
            Err(text) => Err(text),
        },
        Ok(Err(text)) => Err(text),
        Err(text) => Err(text),
    }
}

/// What is shown of a finished upload: its error, if there was one.
pub fn upload_error(outcome: Result<Result<(), String>, String>) -> (error: Option<String>)
    ensures
        match outcome {
            Ok(Ok(_)) => error is None,
            Ok(Err(text)) => error == Some(text),
            Err(text) => error == Some(text),
        },
{
    match outcome {
        Ok(Ok(_)) => None,
        Ok(Err(text)) => Some(text),
        Err(text) => Some(text),
    }
}

/// The total to tell after a read of `n` bytes, if any were read.
pub open spec fn told(before: nat, n: nat) -> Option<nat> {
    if n > 0 {
        Some(before + n)
    } else {
        None
    }
}

/// Counts the bytes that were read of a file on its way to a server.
pub struct ProgressReader {
    pub total_read: u64,
}

impl ProgressReader {
    pub fn new() -> (reader: ProgressReader)
        ensures
            reader.total_read == 0,
    {
        ProgressReader { total_read: 0 }
    }

    /// Starts over.
    pub fn rewind(&mut self)
        ensures
            final(self).total_read == 0,
    {
        self.total_read = 0;
    }

    /// Notes the outcome of one read, and hands it on together with the total to tell, if
    /// any bytes were read.
    pub fn read<E>(&mut self, outcome: Result<usize, E>) -> (noted: (Result<usize, E>, Option<u64>))
        requires
            outcome matches Ok(n) ==> old(self).total_read + n <= u64::MAX,
        ensures
            noted.0 == outcome,
            match outcome {
                Ok(n) => {
                    &&& final(self).total_read == old(self).total_read + n
                    &&& match told(old(self).total_read as nat, n as nat) {
                        Some(total) => noted.1 == Some(total as u64),
                        None => noted.1 is None,
                    }
                },
                Err(_) => final(self).total_read == old(self).total_read && noted.1 is None,
            },
    {
        match outcome {
            Ok(n) => {
                if n > 0 {
                    self.total_read = self.total_read + n as u64;
                    return (Ok(n), Some(self.total_read));
                }
                (Ok(n), None)
            },
            Err(e) => (Err(e), None),
        }
    }
}

/// The totals that are told of reads of these sizes.
pub open spec fn running_totals(sizes: Seq<nat>) -> Seq<nat>
    decreases sizes.len(),
{
    if sizes.len() == 0 {
        Seq::empty()
    } else {
        let before = running_totals(sizes.drop_last());
        match told(total(sizes.drop_last()), sizes.last()) {
            Some(now) => before.push(now),
            None => before,
        }
    }
}

/// How many bytes reads of these sizes come to.
pub open spec fn total(sizes: Seq<nat>) -> nat
    decreases sizes.len(),
{
    if sizes.len() == 0 {
        0
    } else {
        total(sizes.drop_last()) + sizes.last()
    }
}

/// What is told is how much has been read so far, not how much the last read gave: it grows
/// from report to report and ends with the whole.
pub proof fn progress_is_a_running_total(sizes: Seq<nat>)
    ensures
        forall|i: int, j: int|
            0 <= i < j < running_totals(sizes).len() ==> running_totals(sizes)[i] < running_totals(
                sizes,
            )[j],
        running_totals(sizes).len() > 0 ==> running_totals(sizes).last() == total(sizes),
        running_totals(sizes).len() == 0 ==> total(sizes) == 0,
    decreases sizes.len(),
{
    if sizes.len() > 0 {
        progress_is_a_running_total(sizes.drop_last());
        let before = running_totals(sizes.drop_last());
        if sizes.last() > 0 {
            assert forall|i: int, j: int| 0 <= i < j < running_totals(sizes).len() implies running_totals(
                sizes,
            )[i] < running_totals(sizes)[j] by {
                if j == before.len() {
                    assert(before[i] <= before.last()) by {
                        if i < before.len() - 1 {
                            assert(before[i] < before[before.len() - 1]);
                        }
                    }
                }
            }
        }
    }
}

} // verus!
