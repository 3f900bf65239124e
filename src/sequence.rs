use vstd::prelude::*;

verus! {

/// Adds `n` to a 32-bit sequence number, wrapping modulo 2^32.
pub open spec fn seq_advance(s: u32, n: nat) -> u32 {
    ((s as nat + n) % 0x1_0000_0000) as u32
}

/// Advancing by `a` and then by `b` is advancing by `a + b`.
pub proof fn lemma_advance_add(s: u32, a: nat, b: nat)
    ensures
        seq_advance(seq_advance(s, a), b) == seq_advance(s, a + b),
{
    let m: int = 0x1_0000_0000;
    let x: int = s as int + a;
    assert(((x % m) + b) % m == (x + b) % m) by (nonlinear_arith)
        requires m == 0x1_0000_0000, x >= 0, b >= 0;
}

/// A run of counter values in which each one is one past the one before:
/// the last is as many past the first as the run has steps.
pub proof fn lemma_counter_run(run: Seq<u32>)
    requires
        run.len() >= 1,
        forall|i: int| 0 <= i < run.len() - 1 ==> run[i + 1] == seq_advance(run[i], 1),
    ensures
        run.last() == seq_advance(run[0], (run.len() - 1) as nat),
    decreases run.len(),
{
    if run.len() == 1 {
        assert(seq_advance(run[0], 0) == run[0]);
    } else {
        let init = run.drop_last();
        assert forall|i: int| 0 <= i < init.len() - 1 implies init[i + 1] == seq_advance(init[i], 1) by {
            assert(run[i + 1] == seq_advance(run[i], 1));
        }
        lemma_counter_run(init);
        assert(run[run.len() - 1] == seq_advance(run[run.len() - 2], 1));
        lemma_advance_add(run[0], (run.len() - 2) as nat, 1);
    }
}

/// The pair of per-direction packet counters of one connection.
#[derive(Clone, Copy, Debug, PartialEq, Eq)]
pub struct Sequence {
    pub client_sequence_num: u32,
    pub server_sequence_num: u32,
}

impl Sequence {
    pub fn new() -> (r: Sequence)
        ensures
            r.client_sequence_num == 0,
            r.server_sequence_num == 0,
    {
        Sequence { client_sequence_num: 0, server_sequence_num: 0 }
    }

    /// Counts one more packet sent, wrapping at 2^32.
    pub fn client_auto_increment(&mut self)
        ensures
            final(self).client_sequence_num == seq_advance(old(self).client_sequence_num, 1),
            final(self).server_sequence_num == old(self).server_sequence_num,
    {
        self.client_sequence_num = self.client_sequence_num.wrapping_add(1);
    }

    /// Counts one more packet received, wrapping at 2^32.
    pub fn server_auto_increment(&mut self)
        ensures
            final(self).server_sequence_num == seq_advance(old(self).server_sequence_num, 1),
            final(self).client_sequence_num == old(self).client_sequence_num,
    {
        self.server_sequence_num = self.server_sequence_num.wrapping_add(1);
    }
}

} // verus!
