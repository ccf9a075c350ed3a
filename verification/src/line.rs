//! Delay line: the last samples fed in, in a ring of fixed length.
use crate::bits::ZERO;
use vstd::arithmetic::div_mod::{lemma_add_mod_noop, lemma_mod_bound, lemma_small_mod};
use vstd::prelude::*;

verus! {

/// A ring of samples. Seen from outside it is the sequence of the last samples
/// fed in, the oldest first; a fresh line has been fed silence.
pub struct Line {
    ring: Vec<u32>,
    pos: usize,
}

/// A block of `n` silent samples.
pub open spec fn silence(n: nat) -> Seq<u32> {
    Seq::new(n, |i: int| ZERO)
}

/// What a line with contents `held` holds once `samples` were fed in.
pub open spec fn fed(held: Seq<u32>, samples: Seq<u32>) -> Seq<u32> {
    (held + samples).skip(samples.len() as int)
}

impl View for Line {
    type V = Seq<u32>;

    closed spec fn view(&self) -> Seq<u32> {
        Seq::new(
            self.ring@.len(),
            |k: int| self.ring@[(self.pos + k) % (self.ring@.len() as int)],
        )
    }
}

impl Line {
    /// Whether the line is in working order: it has room for a sample.
    pub closed spec fn wf(&self) -> bool {
        self.pos < self.ring@.len()
    }

    /// A line of `len` silent samples.
    pub fn new(len: usize) -> (r: Self)
        ensures
            len > 0 ==> r.wf(),
            r@ == silence(len as nat),
    {
        let ring: Vec<u32> = vec![ZERO; len];
        let r = Line { ring, pos: 0 };
        assert forall|k: int| 0 <= k < len implies r@[k] == ZERO by {
            lemma_small_mod(k as nat, len as nat);
        }
        assert(r@ =~= silence(len as nat));
        r
    }

    /// How many samples the line holds.
    pub fn len(&self) -> (n: usize)
        ensures
            n == self@.len(),
    {
        self.ring.len()
    }

    /// The sample with `k` older ones in the line.
    pub fn get(&self, k: usize) -> (x: u32)
        requires
            self.wf(),
            k < self@.len(),
        ensures
            x == self@[k as int],
    {
        let n: usize = self.ring.len();
        let left: usize = n - self.pos;
        proof {
            if k < left {
                lemma_small_mod((self.pos + k) as nat, n as nat);
            } else {
                assert((self.pos + k) % (n as int) == k - left) by {
                    vstd::arithmetic::div_mod::lemma_fundamental_div_mod_converse(
                        self.pos + k,
                        n as int,
                        1,
                        k - left,
                    );
                }
            }
        }
        if k < left {
            self.ring[self.pos + k]
        } else {
            self.ring[k - left]
        }
    }

    /// The oldest sample.
    pub fn oldest(&self) -> (x: u32)
        requires
            self.wf(),
        ensures
            self@.len() > 0,
            x == self@[0],
    {
        self.get(0)
    }

    /// Feeds a sample in; the oldest one leaves.
    pub fn feed(&mut self, x: u32)
        requires
            old(self).wf(),
        ensures
            final(self).wf(),
            final(self)@ == old(self)@.drop_first().push(x),
            final(self)@.len() == old(self)@.len(),
    {
        let n: usize = self.ring.len();
        let ghost p = self.pos as int;
        self.ring[self.pos] = x;
        self.pos = (self.pos + 1) % n;
        proof {
            let was = old(self)@;
            let now = self@;
            let m = n as int;
            assert forall|k: int| 0 <= k < m implies now[k] == was.drop_first().push(x)[k] by {
                lemma_mod_bound(p + 1 + k, m);
                assert((((p + 1) % m) + k) % m == (p + 1 + k) % m) by {
                    lemma_add_mod_noop(p + 1, k, m);
                    lemma_small_mod(k as nat, m as nat);
                }
                if k + 1 < m {
                    assert((p + 1 + k) % m != p) by {
                        if p + 1 + k < m {
                            lemma_small_mod((p + 1 + k) as nat, m as nat);
                        } else {
                            vstd::arithmetic::div_mod::lemma_fundamental_div_mod_converse(
                                p + 1 + k,
                                m,
                                1,
                                p + 1 + k - m,
                            );
                        }
                    }
                    assert(was.drop_first().push(x)[k] == was[k + 1]);
                    assert(p + (k + 1) == p + 1 + k);
                } else {
                    assert((p + 1 + k) % m == p) by {
                        vstd::arithmetic::div_mod::lemma_fundamental_div_mod_converse(
                            p + m,
                            m,
                            1,
                            p,
                        );
                    }
                }
            }
            assert(now =~= was.drop_first().push(x));
        }
    }

    /// Fills the line with silence.
    pub fn clear(&mut self)
        ensures
            old(self).wf() ==> final(self).wf(),
            final(self)@ == silence(old(self)@.len()),
    {
        let n: usize = self.ring.len();
        let mut i: usize = 0;
        while i < n
            invariant
                i <= n,
                n == self.ring@.len(),
                forall|k: int| 0 <= k < i ==> self.ring@[k] == ZERO,
            decreases n - i,
        {
            self.ring[i] = ZERO;
            i = i + 1;
        }
        self.pos = 0;
        proof {
            assert forall|k: int| 0 <= k < n implies self@[k] == ZERO by {
                lemma_small_mod(k as nat, n as nat);
            }
            assert(self@ =~= silence(n as nat));
        }
    }
}

/// Feeding one more sample drops the oldest and appends the new one.
pub proof fn fed_one_more(held: Seq<u32>, samples: Seq<u32>, x: u32)
    requires
        held.len() > 0,
    ensures
        fed(held, samples.push(x)) == fed(held, samples).drop_first().push(x),
{
    assert(fed(held, samples.push(x)) =~= fed(held, samples).drop_first().push(x));
}

/// A line returns a sample after exactly as many steps as it is long: once
/// `k < len` further samples followed the sample `x`, it has `len - 1 - k` older
/// ones before it, and after `len - 1` of them it is the oldest.
pub proof fn line_delays_by_its_length(held: Seq<u32>, x: u32, later: Seq<u32>)
    requires
        later.len() < held.len(),
    ensures
        fed(held, seq![x] + later).len() == held.len(),
        fed(held, seq![x] + later)[held.len() - 1 - later.len()] == x,
{
}

/// Feeding as many samples as the line is long replaces its contents.
pub proof fn line_forgets(held: Seq<u32>, samples: Seq<u32>)
    requires
        samples.len() == held.len(),
    ensures
        fed(held, samples) == samples,
{
    assert(fed(held, samples) =~= samples);
}

} // verus!
