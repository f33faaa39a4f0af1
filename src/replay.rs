//! The replay buffer: the bytes captured from a connection, served again to
//! its reader before the live stream takes over.
use vstd::prelude::*;

verus! {

/// Where the position of a replay buffer over `data` stands after a read of
/// up to `want` bytes from `pos`: reads while replaying take as many bytes as
/// fit, and an exhausted buffer never moves.
pub open spec fn replay_step(data: Seq<u8>, pos: nat, want: nat) -> nat {
    if pos < data.len() {
        if want < data.len() - pos {
            pos + want
        } else {
            data.len()
        }
    } else {
        pos
    }
}

/// What a run of reads observes. The reads ask for `wants[0]`, `wants[1]`,
/// ... bytes, starting at position `pos` of the captured `data`; a read that
/// goes to the live stream instead of the buffer receives what the stream
/// yields, its entry of `live`.
pub open spec fn observed(data: Seq<u8>, pos: nat, wants: Seq<nat>, live: Seq<Seq<u8>>) -> Seq<
    u8,
>
    decreases wants.len(),
{
    if wants.len() == 0 || live.len() == 0 {
        Seq::empty()
    } else if pos < data.len() {
        data.subrange(pos as int, replay_step(data, pos, wants[0]) as int) + observed(
            data,
            replay_step(data, pos, wants[0]),
            wants.drop_first(),
            live.drop_first(),
        )
    } else {
        live[0] + observed(data, pos, wants.drop_first(), live.drop_first())
    }
}

/// The position after a run of reads.
pub open spec fn position_after(data: Seq<u8>, pos: nat, wants: Seq<nat>) -> nat
    decreases wants.len(),
{
    if wants.len() == 0 {
        pos
    } else {
        position_after(data, replay_step(data, pos, wants[0]), wants.drop_first())
    }
}

/// How many reads of a run go to the live stream.
pub open spec fn live_reads(data: Seq<u8>, pos: nat, wants: Seq<nat>) -> nat
    decreases wants.len(),
{
    if wants.len() == 0 {
        0
    } else if pos < data.len() {
        live_reads(data, replay_step(data, pos, wants[0]), wants.drop_first())
    } else {
        1 + live_reads(data, pos, wants.drop_first())
    }
}

/// Once every captured byte has been served, every later read goes to the
/// live stream, the buffer no longer moves, and the reader observes exactly
/// what the stream yields.
pub proof fn lemma_exhausted_reads_are_live(
    data: Seq<u8>,
    pos: nat,
    wants: Seq<nat>,
    live: Seq<Seq<u8>>,
)
    requires
        pos >= data.len(),
        live.len() == wants.len(),
    ensures
        live_reads(data, pos, wants) == wants.len(),
        position_after(data, pos, wants) == pos,
        observed(data, pos, wants, live) == live.flatten(),
    decreases wants.len(),
{
    if wants.len() > 0 {
        lemma_exhausted_reads_are_live(data, pos, wants.drop_first(), live.drop_first());
    }
}

/// A run of reads from position `pos` observes the captured bytes from `pos`
/// up to where the run leaves the buffer, followed by what the live stream
/// yields to the reads that go to it; those are the last reads of the run,
/// and the stream is read only once every captured byte has been served.
pub proof fn lemma_replay_then_live(data: Seq<u8>, pos: nat, wants: Seq<nat>, live: Seq<Seq<u8>>)
    requires
        pos <= data.len(),
        live.len() == wants.len(),
    ensures
        pos <= position_after(data, pos, wants) <= data.len(),
        live_reads(data, pos, wants) <= wants.len(),
        live_reads(data, pos, wants) > 0 ==> position_after(data, pos, wants) == data.len(),
        observed(data, pos, wants, live) == data.subrange(
            pos as int,
            position_after(data, pos, wants) as int,
        ) + live.skip(wants.len() - live_reads(data, pos, wants)).flatten(),
    decreases wants.len(),
{
    if wants.len() == 0 {
        assert(data.subrange(pos as int, pos as int) =~= Seq::<u8>::empty());
        assert(live.skip(0) =~= live);
    } else if pos < data.len() {
        let next = replay_step(data, pos, wants[0]);
        let w = wants.len() as int;
        let m = live_reads(data, pos, wants) as int;
        lemma_replay_then_live(data, next, wants.drop_first(), live.drop_first());
        assert(live.drop_first().skip(w - 1 - m) =~= live.skip(w - m));
        let f = position_after(data, pos, wants) as int;
        assert(data.subrange(pos as int, next as int) + data.subrange(next as int, f)
            =~= data.subrange(pos as int, f));
    } else {
        lemma_exhausted_reads_are_live(data, pos, wants, live);
        assert(data.subrange(pos as int, pos as int) =~= Seq::<u8>::empty());
        assert(live.skip(0) =~= live);
    }
}

/// Where a read was served from.
#[derive(Debug, Clone, Copy, PartialEq, Eq)]
pub enum ReadSource {
    /// This many captured bytes were copied to the front of the destination.
    Replayed(usize),
    /// The captured bytes are used up: the read goes to the live stream.
    Live,
}

/// A read into a destination that held `dest` and holds `dest2` afterwards
/// took the buffer from `before` to `after` and answered `r`.
pub open spec fn read_served(
    before: ReplayBuffer,
    after: ReplayBuffer,
    dest: Seq<u8>,
    dest2: Seq<u8>,
    r: ReadSource,
) -> bool {
    &&& after.captured() == before.captured()
    &&& after.position() == replay_step(before.captured(), before.position(), dest.len())
    &&& dest2.len() == dest.len()
    &&& match r {
        ReadSource::Replayed(k) => {
            &&& before.position() < before.captured().len()
            &&& k == after.position() - before.position()
            &&& dest2.take(k as int) == before.captured().subrange(
                before.position() as int,
                after.position() as int,
            )
            &&& dest2.skip(k as int) == dest.skip(k as int)
        },
        ReadSource::Live => {
            &&& before.position() >= before.captured().len()
            &&& dest2 == dest
        },
    }
}

/// The captured bytes and how far the reader has got through them.
pub struct ReplayBuffer {
    data: Vec<u8>,
    pos: usize,
}

impl ReplayBuffer {
    /// The captured bytes.
    pub closed spec fn captured(&self) -> Seq<u8> {
        self.data@
    }

    /// How many captured bytes have been served.
    pub closed spec fn position(&self) -> nat {
        self.pos as nat
    }

    pub closed spec fn wf(&self) -> bool {
        self.pos <= self.data@.len()
    }

    /// A buffer that will serve `captured` from its first byte.
    pub fn new(captured: Vec<u8>) -> (r: ReplayBuffer)
        ensures
            r.wf(),
            r.captured() == captured@,
            r.position() == 0,
    {
        ReplayBuffer { data: captured, pos: 0 }
    }

    /// Whether every captured byte has been served.
    pub fn is_exhausted(&self) -> (r: bool)
        requires
            self.wf(),
        ensures
            r == (self.position() >= self.captured().len()),
    {
        self.pos >= self.data.len()
    }

    /// Serves a read into `dest`: while captured bytes remain, copies as many
    /// of them as fit to the front of `dest`; after that, leaves `dest` alone
    /// and answers that the read belongs to the live stream.
    pub fn read(&mut self, dest: &mut [u8]) -> (r: ReadSource)
        requires
            old(self).wf(),
        ensures
            final(self).wf(),
            read_served(*old(self), *final(self), old(dest)@, final(dest)@, r),
    {
        if self.pos >= self.data.len() {
            return ReadSource::Live;
        }
        let remaining = self.data.len() - self.pos;
        let k: usize = if dest.len() < remaining {
            dest.len()
        } else {
            remaining
        };
        let ghost start = dest@;
        let mut i: usize = 0;
        while i < k
            invariant
                self.wf(),
                i <= k <= dest@.len(),
                self.pos + k <= self.data.len(),
                dest@.len() == start.len(),
                forall|j: int| 0 <= j < i ==> dest@[j] == self.data@[self.pos + j],
                forall|j: int| i <= j < dest@.len() ==> dest@[j] == start[j],
            decreases k - i,
        {
            dest[i] = self.data[self.pos + i];
            i = i + 1;
        }
        proof {
            assert(dest@.take(k as int) =~= self.data@.subrange(
                self.pos as int,
                self.pos + k,
            ));
            assert(dest@.skip(k as int) =~= start.skip(k as int));
        }
        self.pos = self.pos + k;
        ReadSource::Replayed(k)
    }
}

} // verus!
