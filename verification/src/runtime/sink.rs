//! The state of a run that is not part of a value: where `print` output goes
//! and the inference seed. Output is written to a capture buffer while one
//! is active; otherwise the line is handed back for the caller to print.

use vstd::prelude::*;
use crate::decoder::{Rng, SPLITMIX_GAMMA};
use crate::runtime::memory::Memories;
use crate::text::{push_char, push_str};

verus! {

pub struct Sink {
    capture: Option<String>,
    seed: u64,
    rng: Rng,
    /// The run's governed memory (stores hold indices of the runtime's values).
    memory: Memories<u64>,
}

impl Sink {
    /// The text captured so far, when a capture is active.
    pub closed spec fn captured(&self) -> Option<Seq<char>> {
        match self.capture {
            Some(s) => Some(s@),
            None => None,
        }
    }

    /// The run's governed-memory registry.
    pub closed spec fn spec_memory(&self) -> Memories<u64> {
        self.memory
    }

    pub closed spec fn spec_seed(&self) -> u64 {
        self.seed
    }

    /// The state of the run's decoder generator.
    pub closed spec fn spec_rng_state(&self) -> u64 {
        self.rng.spec_state()
    }

    /// A fresh run: output is not captured, the seed is 0.
    pub fn new() -> (s: Sink)
        ensures
            s.captured() is None,
            s.spec_seed() == 0,
            s.spec_rng_state() == 0u64.wrapping_add(SPLITMIX_GAMMA),
            s.spec_memory().wf(),
            s.spec_memory().spec_stores().len() == 0,
            s.spec_memory().spec_clock() == 0,
            s.spec_memory().spec_audit().len() == 0,
    {
        Sink { capture: None, seed: 0, rng: Rng::new(0), memory: Memories::new() }
    }

    /// Starts capturing output into an empty buffer.
    pub fn begin_capture(&mut self)
        ensures
            final(self).captured() == Some(Seq::<char>::empty()),
            final(self).spec_seed() == old(self).spec_seed(),
            final(self).spec_rng_state() == old(self).spec_rng_state(),
    {
        self.capture = Some(String::new());
    }

    /// Stops capturing and returns everything emitted since `begin_capture`
    /// (nothing when no capture was active).
    pub fn end_capture(&mut self) -> (r: String)
        ensures
            r@ == (match old(self).captured() {
                Some(c) => c,
                None => Seq::<char>::empty(),
            }),
            final(self).captured() is None,
            final(self).spec_seed() == old(self).spec_seed(),
            final(self).spec_rng_state() == old(self).spec_rng_state(),
    {
        let taken = self.capture.take();
        match taken {
            Some(s) => s,
            None => String::new(),
        }
    }

    /// Emits one line of program output: appended, newline-terminated, to
    /// the capture buffer when one is active; otherwise handed back to be
    /// printed.
    pub fn emit_line(&mut self, line: &str) -> (out: Option<String>)
        ensures
            match old(self).captured() {
                Some(c) => final(self).captured() == Some(c + line@ + seq!['\n']) && out is None,
                None => final(self).captured() is None && out is Some && out->0@ == line@,
            },
            final(self).spec_seed() == old(self).spec_seed(),
            final(self).spec_rng_state() == old(self).spec_rng_state(),
    {
        match self.capture.take() {
            Some(mut buf) => {
                push_str(&mut buf, line);
                push_char(&mut buf, '\n');
                self.capture = Some(buf);
                None
            },
            None => Some(String::from_str(line)),
        }
    }

    /// Sets the run's inference seed, which starts a fresh run: the decoder
    /// generator is reseeded and governed memory is reset (every store, the
    /// logical clock and the audit log).
    pub fn set_seed(&mut self, seed: u64)
        ensures
            final(self).spec_seed() == seed,
            final(self).spec_rng_state() == seed.wrapping_add(SPLITMIX_GAMMA),
            final(self).captured() == old(self).captured(),
            final(self).spec_memory().wf(),
            final(self).spec_memory().spec_stores().len() == 0,
            final(self).spec_memory().spec_clock() == 0,
            final(self).spec_memory().spec_audit().len() == 0,
    {
        self.seed = seed;
        self.rng = Rng::new(seed);
        self.memory.reset();
    }

    /// The run's governed memory, to read and update in place.
    pub fn memory(&mut self) -> (m: &mut Memories<u64>)
        ensures
            *m == old(self).spec_memory(),
            final(self).spec_memory() == *final(m),
            final(self).spec_seed() == old(self).spec_seed(),
            final(self).spec_rng_state() == old(self).spec_rng_state(),
            final(self).captured() == old(self).captured(),
    {
        &mut self.memory
    }

    /// The run's inference seed.
    pub fn seed(&self) -> (r: u64)
        ensures
            r == self.spec_seed(),
    {
        self.seed
    }

    /// The run's decoder generator; every `divine` draws from this one
    /// sequence.
    pub fn rng(&mut self) -> (r: &mut Rng)
        ensures
            r.spec_state() == old(self).spec_rng_state(),
            final(self).spec_rng_state() == final(r).spec_state(),
            final(self).spec_seed() == old(self).spec_seed(),
            final(self).captured() == old(self).captured(),
    {
        &mut self.rng
    }
}

} // verus!
