//! The queue in which captures wait to be written.

use crate::capture::Capture;
use crate::row::Epoch;
use std::collections::VecDeque;
use vstd::prelude::*;

verus! {

/// How many captures need to be in the queue before they are written, unless
/// another number is configured.
pub const DB_WRITE_BUFFER_SIZE: usize = 20;

/// Captures in the order in which they came.
pub struct LFQueue {
    queue: VecDeque<Capture>,
}

impl View for LFQueue {
    type V = Seq<Capture>;

    /// The waiting captures, oldest first.
    closed spec fn view(&self) -> Seq<Capture> {
        self.queue@
    }
}

impl LFQueue {
    /// An empty queue.
    pub fn new() -> (q: LFQueue)
        ensures
            q@ == Seq::<Capture>::empty(),
    {
        LFQueue { queue: VecDeque::new() }
    }

    /// Puts a capture at the end of the queue.
    pub fn capture(&mut self, name: String, args: Vec<pyo3::PyObject>, start: Epoch, end: Epoch)
        ensures
            final(self)@ == old(self)@.push(Capture { name, args, start, end }),
    {
        let c = Capture { name, args, start, end };
        self.queue.push_back(c);
    }

    /// Whether no capture is waiting.
    pub fn empty(&self) -> (b: bool)
        ensures
            b == (self@.len() == 0),
    {
        self.queue.len() == 0
    }

    /// How many captures are waiting.
    pub fn len(&self) -> (n: usize)
        ensures
            n == self@.len(),
    {
        self.queue.len()
    }

    /// Takes the oldest capture out of the queue.
    pub fn pop(&mut self) -> (c: Option<Capture>)
        ensures
            match c {
                Some(c) => {
                    &&& old(self)@.len() > 0
                    &&& c == old(self)@[0]
                    &&& final(self)@ == old(self)@.drop_first()
                },
                None => old(self)@.len() == 0 && final(self)@ == old(self)@,
            },
    {
        let c = self.queue.pop_front();
        proof {
            if old(self)@.len() > 0 {
                assert(self@ =~= old(self)@.drop_first());
            }
        }
        c
    }

    /// Empties the queue if more than `threshold` captures are waiting, and
    /// returns what was taken out, oldest first. A queue with fewer
    /// captures stays as it is.
    pub fn consume_capture(&mut self, threshold: usize) -> (taken: Vec<Capture>)
        ensures
            old(self)@.len() > threshold ==> {
                &&& taken@ == old(self)@
                &&& final(self)@ == Seq::<Capture>::empty()
            },
            old(self)@.len() <= threshold ==> {
                &&& taken@ == Seq::<Capture>::empty()
                &&& final(self)@ == old(self)@
            },
    {
        let mut taken: Vec<Capture> = Vec::new();
        if self.queue.len() > threshold {
            while self.queue.len() > 0
                invariant
                    taken@ + self@ == old(self)@,
                decreases self@.len(),
            {
                match self.pop() {
                    Some(c) => {
                        taken.push(c);
                        proof {
                            assert(taken@ + self@ =~= old(self)@);
                        }
                    },
                    None => {},
                }
            }
            proof {
                assert(taken@ =~= taken@ + self@);
                assert(self@ =~= Seq::<Capture>::empty());
            }
        }
        taken
    }
}

} // verus!
