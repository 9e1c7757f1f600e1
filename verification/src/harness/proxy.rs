//! A cuttable link for injecting network partitions.
//!
//! The torture harness puts one of these between each broker and the
//! controller: `cut()` severs the link (live connections are killed, new ones
//! are accepted and immediately dropped), `heal()` restores it. Cutting a
//! broker's controller link makes the controller declare it dead and re-elect
//! while the broker itself keeps serving clients — the zombie-leader
//! scenario, which is the sharpest live test of epoch fencing.

use vstd::prelude::*;

verus! {

/// Which connections a proxy carries.
pub struct TcpProxy {
    enabled: bool,
    /// Bumped on every cut; a connection of an older generation is dead.
    generation: u64,
}

/// The state of a link.
pub ghost struct Link {
    pub enabled: bool,
    pub generation: u64,
}

impl View for TcpProxy {
    type V = Link;

    closed spec fn view(&self) -> Link {
        Link { enabled: self.enabled, generation: self.generation }
    }
}

/// A link after a cut.
pub open spec fn severed(l: Link) -> Link {
    Link { enabled: false, generation: l.generation.wrapping_add(1) }
}

/// A link after `n` cuts, healed after each.
pub open spec fn cut_times(l: Link, n: nat) -> Link
    decreases n,
{
    if n == 0 {
        l
    } else {
        Link { enabled: true, ..severed(cut_times(l, (n - 1) as nat)) }
    }
}

impl TcpProxy {
    pub fn new() -> (r: TcpProxy)
        ensures
            r@ == (Link { enabled: true, generation: 0 }),
    {
        TcpProxy { enabled: true, generation: 0 }
    }

    /// Severs the link: kills live connections, refuses new ones.
    pub fn cut(&mut self)
        ensures
            final(self)@ == severed(old(self)@),
    {
        self.enabled = false;
        self.generation = self.generation.wrapping_add(1);
    }

    pub fn heal(&mut self)
        ensures
            final(self)@ == (Link { enabled: true, ..old(self)@ }),
    {
        self.enabled = true;
    }

    pub fn is_up(&self) -> (r: bool)
        ensures
            r == self@.enabled,
    {
        self.enabled
    }

    /// The generation of a connection that comes in now, or `None` where it is
    /// refused by instant close.
    pub fn accept(&self) -> (r: Option<u64>)
        ensures
            r == if self@.enabled {
                Some(self@.generation)
            } else {
                None
            },
    {
        if self.enabled {
            Some(self.generation)
        } else {
            None
        }
    }

    /// Whether a connection of that generation has been cut.
    pub fn is_stale(&self, generation: u64) -> (r: bool)
        ensures
            r == (generation != self@.generation),
    {
        generation != self.generation
    }
}

proof fn lemma_cut_times(l: Link, n: nat)
    ensures
        cut_times(l, n).generation == (l.generation + n) % 0x1_0000_0000_0000_0000int,
        n > 0 || l.enabled ==> cut_times(l, n).enabled,
    decreases n,
{
    if n > 0 {
        lemma_cut_times(l, (n - 1) as nat);
    }
}

/// A cut kills every connection that came in before it, also after any number
/// of further cuts and heals below 2^64; and no connection comes in until the
/// heal.
pub proof fn law_cut_kills(l: Link, n: nat)
    requires
        0 < n < 0x1_0000_0000_0000_0000,
    ensures
        cut_times(l, n).generation != l.generation,
        severed(l).generation != l.generation,
        !severed(l).enabled,
{
    lemma_cut_times(l, n);
    lemma_cut_times(l, 1);
    assert(cut_times(l, 1).generation == severed(cut_times(l, 0)).generation);
}

} // verus!
