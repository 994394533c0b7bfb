//! The decisions of the client session: when a received file is written,
//! how much of it is kept for a content callback, and when the session is
//! over.
use vstd::prelude::*;

verus! {

/// The client of an evaluation.
#[derive(Clone, Copy, Debug)]
pub struct ExecutorClient;

/// Whether a received file is written to its destination: a file from a
/// failed run only when failures are allowed, and never onto the very file
/// it is read from.
pub open spec fn writes_file(success: bool, allow_failure: bool, same_as_source: bool) -> bool {
    (success || allow_failure) && !same_as_source
}

pub fn should_write(success: bool, allow_failure: bool, same_as_source: bool) -> (r: bool)
    ensures
        r == writes_file(success, allow_failure, same_as_source),
{
    (success || allow_failure) && !same_as_source
}

pub open spec fn min(a: int, b: int) -> int {
    if a < b {
        a
    } else {
        b
    }
}

/// Append to `buffer` as much of `chunk` as keeps it within `limit` bytes:
/// the buffer ends up holding the first `limit` bytes of the stream.
pub fn append_capped(buffer: &mut Vec<u8>, chunk: &Vec<u8>, limit: usize)
    ensures
        old(buffer)@.len() >= limit ==> final(buffer)@ == old(buffer)@,
        old(buffer)@.len() < limit ==> final(buffer)@ == (old(buffer)@ + chunk@).subrange(
            0,
            min(limit as int, (old(buffer)@.len() + chunk@.len()) as int),
        ),
{
    if buffer.len() >= limit {
        return;
    }
    let room = limit - buffer.len();
    let take = if chunk.len() < room {
        chunk.len()
    } else {
        room
    };
    let ghost start = buffer@;
    let mut i: usize = 0;
    while i < take
        invariant
            take <= chunk@.len(),
            0 <= i <= take,
            buffer@ == start + chunk@.subrange(0, i as int),
        decreases take - i,
    {
        buffer.push(chunk[i]);
        i = i + 1;
        assert(buffer@ =~= start + chunk@.subrange(0, i as int));
    }
    assert(buffer@ =~= (start + chunk@).subrange(0, min(limit as int, (start.len() + chunk@.len()) as int)));
}

/// Where the end of a session stands: `None` until the server says the
/// evaluation is done, then the number of files still to receive.
#[derive(Clone, Copy, Debug, PartialEq, Eq, Structural)]
pub struct ClientSession {
    pub missing_files: Option<u64>,
}

impl ClientSession {
    pub fn new() -> (r: ClientSession)
        ensures
            r.missing_files is None,
    {
        ClientSession { missing_files: None }
    }

    /// Whether the session loop goes on.
    pub fn running(&self) -> (r: bool)
        ensures
            r == (self.missing_files != Some(0u64)),
    {
        match self.missing_files {
            Some(m) => m > 0,
            None => true,
        }
    }

    /// The server sent a file; once the evaluation is done, it is one of the
    /// missing ones.
    pub fn file_received(&mut self)
        ensures
            old(self).missing_files is None ==> final(self).missing_files is None,
            old(self).missing_files matches Some(m) ==> final(self).missing_files == Some(
                if m > 0 { (m - 1) as u64 } else { 0u64 },
            ),
    {
        if let Some(m) = self.missing_files {
            self.missing_files = Some(if m > 0 { m - 1 } else { 0 });
        }
    }

    /// The evaluation is done; `local[i]` says whether the `i`-th result
    /// file is already in the local store. Returns the indexes to ask the
    /// server for; the session then waits for exactly those.
    pub fn evaluation_done(&mut self, local: &Vec<bool>) -> (r: Vec<usize>)
        ensures
            forall|j: int| 0 <= j < r@.len() ==> (#[trigger] r@[j]) < local@.len() && !local@[r@[j] as int],
            forall|a: int, b: int| 0 <= a < b < r@.len() ==> r@[a] < r@[b],
            forall|i: int| 0 <= i < local@.len() && !local@[i] ==> r@.contains(i as usize),
            final(self).missing_files == Some(r@.len() as u64),
    {
        let mut r: Vec<usize> = Vec::new();
        let mut i: usize = 0;
        while i < local.len()
            invariant
                0 <= i <= local@.len(),
                r@.len() <= i,
                forall|j: int| 0 <= j < r@.len() ==> (#[trigger] r@[j]) < i && !local@[r@[j] as int],
                forall|a: int, b: int| 0 <= a < b < r@.len() ==> r@[a] < r@[b],
                forall|x: int| 0 <= x < i && !local@[x] ==> r@.contains(x as usize),
            decreases local@.len() - i,
        {
            if !local[i] {
                let ghost before = r@;
                r.push(i);
                proof {
                    assert(r@[r@.len() - 1] == i);
                    assert forall|x: int| 0 <= x < i + 1 && !local@[x] implies r@.contains(x as usize) by {
                        if x < i {
                            let y = choose|y: int| 0 <= y < before.len() && before[y] == x as usize;
                            assert(r@[y] == before[y]);
                        }
                    }
                }
            }
            i = i + 1;
        }
        self.missing_files = Some(r.len() as u64);
        r
    }
}

} // verus!
