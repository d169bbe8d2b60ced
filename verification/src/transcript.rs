//! The Fiat-Shamir transcript interface the verifier consumes.
//!
//! The verifier only ever pulls proof elements and challenges in a strict
//! canonical order, so the interface is specified over two streams: the
//! remaining proof elements ([`Transcript::reads`]) and the remaining
//! challenges ([`Transcript::chals`]).  [`ListTranscript`] is the concrete
//! replay implementation: it serves pre-recorded elements and challenges,
//! which is exactly what a verifier needs to check a recorded proof.

use vstd::prelude::*;
use crate::field::{all_wf, Fp};
use crate::Error;

verus! {

/// The next challenge of a stream: its first entry, or zero once the
/// stream is exhausted.
pub open spec fn ch_head(chals: Seq<Fp>) -> Fp {
    if chals.len() > 0 {
        chals[0]
    } else {
        Fp { v: 0 }
    }
}

/// The challenge stream after one squeeze.
pub open spec fn ch_tail(chals: Seq<Fp>) -> Seq<Fp> {
    if chals.len() > 0 {
        chals.skip(1)
    } else {
        chals
    }
}

/// A source of proof elements and verifier challenges.  An implementation
/// must serve only canonical field elements.
pub trait Transcript: Sized {
    /// The elements still readable from the proof stream.
    spec fn reads(&self) -> Seq<Fp>;

    /// The challenges still to be squeezed.
    spec fn chals(&self) -> Seq<Fp>;

    /// The transcript's internal invariant.
    spec fn wf(&self) -> bool;

    /// Pulls one extension-field element from the proof stream.
    fn read_felt_ext(&mut self) -> (r: Result<Fp, Error>)
        requires
            old(self).wf(),
        ensures
            final(self).wf(),
            final(self).chals() == old(self).chals(),
            old(self).reads().len() == 0 ==> r == Err::<Fp, Error>(Error::TranscriptExhausted)
                && final(self).reads() == old(self).reads(),
            old(self).reads().len() > 0 ==> r == Ok::<Fp, Error>(old(self).reads()[0])
                && old(self).reads()[0].wf() && final(self).reads() == old(self).reads().skip(1),
    ;

    /// Pulls `n` extension-field elements from the proof stream.
    fn read_felt_exts(&mut self, n: usize) -> (r: Result<Vec<Fp>, Error>)
        requires
            old(self).wf(),
        ensures
            final(self).wf(),
            final(self).chals() == old(self).chals(),
            old(self).reads().len() < n ==> r == Err::<Vec<Fp>, Error>(Error::TranscriptExhausted)
                && final(self).reads() == old(self).reads(),
            old(self).reads().len() >= n ==> (r matches Ok(v) && v@ == old(self).reads().take(
                n as int,
            ) && all_wf(v@)) && final(self).reads() == old(self).reads().skip(n as int),
    ;

    /// Pulls `n` base-field elements and embeds them as extension elements.
    fn read_felts_as_exts(&mut self, n: usize) -> (r: Result<Vec<Fp>, Error>)
        requires
            old(self).wf(),
        ensures
            final(self).wf(),
            final(self).chals() == old(self).chals(),
            old(self).reads().len() < n ==> r == Err::<Vec<Fp>, Error>(Error::TranscriptExhausted)
                && final(self).reads() == old(self).reads(),
            old(self).reads().len() >= n ==> (r matches Ok(v) && v@ == old(self).reads().take(
                n as int,
            ) && all_wf(v@)) && final(self).reads() == old(self).reads().skip(n as int),
    ;

    /// Derives a fresh challenge from the current transcript state.
    fn squeeze_challenge(&mut self) -> (r: Fp)
        requires
            old(self).wf(),
        ensures
            final(self).wf(),
            r.wf(),
            final(self).reads() == old(self).reads(),
            r == ch_head(old(self).chals()),
            final(self).chals() == ch_tail(old(self).chals()),
    ;

    /// Absorbs pre-known base-field values into the transcript state.
    fn common_felts(&mut self, felts: &[Fp])
        requires
            old(self).wf(),
        ensures
            final(self).wf(),
            final(self).reads() == old(self).reads(),
            final(self).chals() == old(self).chals(),
    ;
}

/// A transcript that replays a recorded proof stream and a recorded
/// challenge stream.  Once the challenge stream is exhausted, squeezing
/// returns zero.
pub struct ListTranscript {
    pub elems: Vec<Fp>,
    pub pos: usize,
    pub chal_list: Vec<Fp>,
    pub chal_pos: usize,
}

impl ListTranscript {
    /// A transcript serving the given proof elements and challenges.
    pub fn new(elems: Vec<Fp>, chals: Vec<Fp>) -> (r: ListTranscript)
        requires
            all_wf(elems@),
            all_wf(chals@),
        ensures
            r.wf(),
            r.reads() == elems@,
            r.chals() == chals@,
    {
        let r = ListTranscript { elems, pos: 0, chal_list: chals, chal_pos: 0 };
        proof {
            assert(r.elems@.skip(0) =~= r.elems@);
            assert(r.chal_list@.skip(0) =~= r.chal_list@);
        }
        r
    }
}

impl Transcript for ListTranscript {
    open spec fn reads(&self) -> Seq<Fp> {
        self.elems@.skip(self.pos as int)
    }

    open spec fn chals(&self) -> Seq<Fp> {
        self.chal_list@.skip(self.chal_pos as int)
    }

    open spec fn wf(&self) -> bool {
        &&& self.pos <= self.elems@.len()
        &&& self.chal_pos <= self.chal_list@.len()
        &&& all_wf(self.elems@)
        &&& all_wf(self.chal_list@)
    }

    fn read_felt_ext(&mut self) -> (r: Result<Fp, Error>) {
        if self.pos < self.elems.len() {
            let v: Fp = self.elems[self.pos];
            self.pos = self.pos + 1;
            proof {
                assert(self.elems@.skip(self.pos as int) =~= old(self).reads().skip(1));
            }
            Ok(v)
        } else {
            Err(Error::TranscriptExhausted)
        }
    }

    fn read_felt_exts(&mut self, n: usize) -> (r: Result<Vec<Fp>, Error>) {
        if n > self.elems.len() - self.pos {
            return Err(Error::TranscriptExhausted);
        }
        let mut out: Vec<Fp> = Vec::new();
        let start: usize = self.pos;
        let mut i: usize = 0;
        while i < n
            invariant
                i <= n,
                start + n <= self.elems@.len(),
                start + n <= usize::MAX,
                out@ == self.elems@.subrange(start as int, start + i),
                *self == (ListTranscript { pos: start, ..*old(self) }),
                old(self).wf(),
            decreases n - i,
        {
            proof {
                assert(self.elems@.subrange(start as int, start + i + 1) =~= self.elems@.subrange(
                    start as int,
                    start + i,
                ).push(self.elems@[start + i]));
            }
            out.push(self.elems[start + i]);
            i = i + 1;
        }
        self.pos = start + n;
        proof {
            assert(out@ =~= old(self).reads().take(n as int));
            assert(self.elems@.skip(self.pos as int) =~= old(self).reads().skip(n as int));
            assert(all_wf(out@));
        }
        Ok(out)
    }

    fn read_felts_as_exts(&mut self, n: usize) -> (r: Result<Vec<Fp>, Error>) {
        self.read_felt_exts(n)
    }

    fn squeeze_challenge(&mut self) -> (r: Fp) {
        if self.chal_pos < self.chal_list.len() {
            let v: Fp = self.chal_list[self.chal_pos];
            self.chal_pos = self.chal_pos + 1;
            proof {
                assert(self.chal_list@.skip(self.chal_pos as int) =~= old(self).chals().skip(1));
            }
            v
        } else {
            Fp::zero()
        }
    }

    fn common_felts(&mut self, felts: &[Fp]) {
    }
}

} // verus!
