//! What the first read of a connection leaves behind: the server name of its
//! ClientHello and a replay buffer over the bytes that were read.
use vstd::prelude::*;
use crate::replay::{read_served, ReadSource, ReplayBuffer};
use crate::sni::{parse_sni, sni_of, SniError};

verus! {

/// The server name taken from a connection's captured bytes, and the replay
/// buffer that hands those bytes back to the connection's reader.
pub struct Peeked {
    sni: String,
    replay: ReplayBuffer,
}

impl Peeked {
    /// The server name; empty where the ClientHello named none.
    pub closed spec fn sni(&self) -> Seq<char> {
        self.sni@
    }

    /// The replay buffer over the captured bytes.
    pub closed spec fn replay(&self) -> ReplayBuffer {
        self.replay
    }

    pub open spec fn wf(&self) -> bool {
        self.replay().wf()
    }

    /// Takes the bytes captured by the first read of a connection. Fails as
    /// extraction fails on them; otherwise keeps the server name and a buffer
    /// that will replay every captured byte.
    pub fn capture(captured: Vec<u8>) -> (r: Result<Peeked, SniError>)
        ensures
            match r {
                Ok(p) => {
                    &&& sni_of(captured@) == Ok::<Seq<char>, SniError>(p.sni())
                    &&& p.wf()
                    &&& p.replay().captured() == captured@
                    &&& p.replay().position() == 0
                },
                Err(e) => sni_of(captured@) == Err::<Seq<char>, SniError>(e),
            },
    {
        let n = captured.len();
        let parsed = parse_sni(captured.as_slice(), n);
        proof {
            assert(captured@.take(n as int) =~= captured@);
        }
        match parsed {
            Ok(sni) => Ok(Peeked { sni, replay: ReplayBuffer::new(captured) }),
            Err(e) => Err(e),
        }
    }

    /// The server name, the same on every call.
    pub fn get_sni(&self) -> (r: String)
        ensures
            r@ == self.sni(),
    {
        self.sni.clone()
    }

    /// Serves a read from the replay buffer, as `ReplayBuffer::read` does;
    /// the server name stays as it was.
    pub fn read(&mut self, dest: &mut [u8]) -> (r: ReadSource)
        requires
            old(self).wf(),
        ensures
            final(self).wf(),
            final(self).sni() == old(self).sni(),
            read_served(old(self).replay(), final(self).replay(), old(dest)@, final(dest)@, r),
    {
        self.replay.read(dest)
    }
}

} // verus!
