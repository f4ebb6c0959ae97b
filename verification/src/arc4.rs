use vstd::arithmetic::power::pow;
use vstd::prelude::*;

verus! {

/// Mathematical state of the stream-cipher engine: a byte table of length
/// 256 and two cursors.
pub ghost struct Arc4Model {
    pub s: Seq<u8>,
    pub i: u8,
    pub j: u8,
}

/// The identity table [0, 1, ..., 255] that key scheduling starts from.
pub open spec fn identity_table() -> Seq<u8> {
    Seq::new(256, |k: int| k as u8)
}

/// The key as the scheduling pass sees it: an empty key acts as [0].
pub open spec fn effective_key(key: Seq<u8>) -> Seq<u8> {
    if key.len() == 0 {
        seq![0u8]
    } else {
        key
    }
}

/// One step of the key-scheduling pass at table index `i`: advance the
/// accumulator by the table entry and the next key byte, then swap.
pub open spec fn schedule_step(s: Seq<u8>, j: u8, key: Seq<u8>, i: int) -> (Seq<u8>, u8) {
    let j2 = ((j + s[i] + key[i % (key.len() as int)]) % 256) as u8;
    (s.update(i, s[j2 as int]).update(j2 as int, s[i]), j2)
}

/// Table and accumulator after the first `n` key-scheduling steps.
pub open spec fn schedule(key: Seq<u8>, n: nat) -> (Seq<u8>, u8)
    decreases n,
{
    if n == 0 {
        (identity_table(), 0u8)
    } else {
        let (s, j) = schedule(key, (n - 1) as nat);
        schedule_step(s, j, key, n - 1)
    }
}

/// The engine state after one generation step: advance cursor `i`, move
/// cursor `j` by the entry under `i`, and swap the two entries.
pub open spec fn step_state(m: Arc4Model) -> Arc4Model {
    let i2 = (((m.i as int) + 1) % 256) as u8;
    let t = m.s[i2 as int];
    let j2 = ((m.j + t) % 256) as u8;
    Arc4Model { s: m.s.update(i2 as int, m.s[j2 as int]).update(j2 as int, t), i: i2, j: j2 }
}

/// The digit one generation step emits: the post-swap table entry at the sum
/// of the two swapped values.
pub open spec fn step_emit(m: Arc4Model) -> u8 {
    let i2 = (((m.i as int) + 1) % 256) as u8;
    let t = m.s[i2 as int];
    let j2 = ((m.j + t) % 256) as u8;
    let u = m.s[j2 as int];
    step_state(m).s[((t + u) % 256) as int]
}

/// The engine state after `n` generation steps.
pub open spec fn steps(m: Arc4Model, n: nat) -> Arc4Model
    decreases n,
{
    if n == 0 {
        m
    } else {
        steps(step_state(m), (n - 1) as nat)
    }
}

/// The integer that concatenates the next `count` emitted digits in base
/// 256, most significant digit first.
pub open spec fn gen_value(m: Arc4Model, count: nat) -> nat
    decreases count,
{
    if count == 0 {
        0
    } else {
        (gen_value(m, (count - 1) as nat) * 256 + step_emit(steps(m, (count - 1) as nat)) as nat) as nat
    }
}

/// The state that construction from `key` reaches: a full key-scheduling
/// pass over the table, both cursors reset, then the mandatory warm-up that
/// discards the first 256 outputs.
pub open spec fn init_state(key: Seq<u8>) -> Arc4Model {
    let (s, j) = schedule(effective_key(key), 256);
    steps(Arc4Model { s: s, i: 0u8, j: 0u8 }, 256)
}

/// Stepping peels off the front, so the state after `n + 1` steps is one
/// step past the state after `n`.
pub proof fn lemma_steps_snoc(m: Arc4Model, n: nat)
    ensures
        steps(m, n + 1) == step_state(steps(m, n)),
    decreases n,
{
    if n == 0 {
        assert(steps(m, 1) == steps(step_state(m), 0));
    } else {
        lemma_steps_snoc(step_state(m), (n - 1) as nat);
        assert(steps(m, n + 1) == steps(step_state(m), n));
        assert(steps(m, n) == steps(step_state(m), (n - 1) as nat));
    }
}

/// A `count`-digit base-256 value is below 256^count.
pub proof fn lemma_gen_value_bound(m: Arc4Model, count: nat)
    ensures
        gen_value(m, count) < pow(256, count),
    decreases count,
{
    reveal(pow);
    if count == 0 {
        assert(gen_value(m, 0) == 0);
        assert(pow(256, 0) == 1);
    } else {
        lemma_gen_value_bound(m, (count - 1) as nat);
        assert(pow(256, count) == 256 * pow(256, (count - 1) as nat));
        assert(gen_value(m, count) == gen_value(m, (count - 1) as nat) * 256 + step_emit(
            steps(m, (count - 1) as nat),
        ));
        assert(step_emit(steps(m, (count - 1) as nat)) < 256);
    }
}

/// The stream-cipher engine: a key-scheduled 256-entry permutation table and
/// two cursors, reproducing the reference generator digit for digit.
pub struct Arc4 {
    i: u8,
    j: u8,
    width: usize,
    s: Vec<u8>,
}

impl View for Arc4 {
    type V = Arc4Model;

    closed spec fn view(&self) -> Arc4Model {
        Arc4Model { s: self.s@, i: self.i, j: self.j }
    }
}

impl Arc4 {
    /// Structural validity: the full table is present and the modulus is the
    /// fixed system width of 256.
    pub closed spec fn wf(&self) -> bool {
        self.s@.len() == 256 && self.width == 256
    }

    /// Construct the engine from a key of byte values. Key scheduling swaps
    /// the identity table under the key, the cursors reset, and the first
    /// 256 outputs are discarded: the warm-up discard is part of the
    /// reproducibility contract, not an optimization.
    pub fn new(key: &[u8], width: usize) -> (r: Arc4)
        requires
            width == 256,
        ensures
            r.wf(),
            r@ == init_state(key@),
    {
        let fallback: Vec<u8> = vec![0u8];
        let k: &[u8] = if key.len() == 0 {
            fallback.as_slice()
        } else {
            key
        };
        proof {
            assert(k@ =~= effective_key(key@));
        }

        let mut s: Vec<u8> = Vec::new();
        let mut idx: usize = 0;
        while idx < 256
            invariant
                idx <= 256,
                s@.len() == idx,
                forall|t: int| 0 <= t < idx ==> s@[t] == t as u8,
            decreases 256 - idx,
        {
            s.push(idx as u8);
            idx += 1;
        }
        proof {
            assert(s@ =~= identity_table());
        }

        let mut j: u8 = 0;
        let mut i: usize = 0;
        while i < 256
            invariant
                i <= 256,
                k@.len() >= 1,
                s@.len() == 256,
                (s@, j) == schedule(k@, i as nat),
            decreases 256 - i,
        {
            let t = s[i];
            let ki = k[i % k.len()];
            let j2 = ((j as usize) + (t as usize) + (ki as usize)) % 256;
            let u = s[j2];
            s.set(i, u);
            s.set(j2, t);
            proof {
                assert((s@, j2 as u8) == schedule_step(schedule(k@, i as nat).0, j, k@, i as int));
            }
            j = j2 as u8;
            i += 1;
        }

        let mut me = Arc4 { i: 0, j: 0, width: width, s: s };
        proof {
            assert(me@ == Arc4Model { s: schedule(effective_key(key@), 256).0, i: 0u8, j: 0u8 });
        }
        me.discard(256);
        me
    }

    /// One generation step; returns the emitted digit.
    fn step(&mut self) -> (r: u8)
        requires
            old(self).wf(),
        ensures
            final(self).wf(),
            final(self)@ == step_state(old(self)@),
            r == step_emit(old(self)@),
    {
        let i2 = ((self.i as usize) + 1) % 256;
        let t = self.s[i2];
        let j2 = ((self.j as usize) + (t as usize)) % 256;
        let u = self.s[j2];
        self.s.set(i2, u);
        self.s.set(j2, t);
        let r = self.s[((t as usize) + (u as usize)) % 256];
        self.i = i2 as u8;
        self.j = j2 as u8;
        r
    }

    /// Advance the state by `count` steps, discarding the emitted digits.
    fn discard(&mut self, count: usize)
        requires
            old(self).wf(),
        ensures
            final(self).wf(),
            final(self)@ == steps(old(self)@, count as nat),
    {
        let mut n: usize = 0;
        while n < count
            invariant
                n <= count,
                self.wf(),
                self@ == steps(old(self)@, n as nat),
            decreases count - n,
        {
            proof {
                lemma_steps_snoc(old(self)@, n as nat);
            }
            let _ = self.step();
            n += 1;
        }
    }

    /// Concatenate the next `count` emitted digits into one base-256
    /// integer, most significant digit first, so that
    /// `0 <= result < 256^count`. Reproducible digit for digit for a given
    /// key and call sequence.
    pub fn generate(&mut self, count: usize) -> (r: u64)
        requires
            old(self).wf(),
            1 <= count <= 8,
        ensures
            final(self).wf(),
            final(self)@ == steps(old(self)@, count as nat),
            r == gen_value(old(self)@, count as nat),
            r < pow(256, count as nat),
    {
        let mut r: u64 = 0;
        let mut n: usize = 0;
        while n < count
            invariant
                n <= count <= 8,
                self.wf(),
                self@ == steps(old(self)@, n as nat),
                r == gen_value(old(self)@, n as nat),
            decreases count - n,
        {
            proof {
                lemma_steps_snoc(old(self)@, n as nat);
                lemma_gen_value_bound(old(self)@, n as nat);
                lemma_gen_value_bound(old(self)@, (n + 1) as nat);
                assert(pow(256, 8) == 0x1_0000_0000_0000_0000) by {
                    reveal_with_fuel(pow, 9);
                }
                vstd::arithmetic::power::lemma_pow_increases(256, (n + 1) as nat, 8);
            }
            let e = self.step();
            r = r * 256 + (e as u64);
            n += 1;
        }
        proof {
            lemma_gen_value_bound(old(self)@, count as nat);
        }
        r
    }

    /// The current permutation table.
    pub fn table(&self) -> (r: &Vec<u8>)
        ensures
            r@ == self@.s,
    {
        &self.s
    }

    /// The current value of cursor `i`.
    pub fn cursor_i(&self) -> (r: u8)
        ensures
            r == self@.i,
    {
        self.i
    }

    /// The current value of cursor `j`.
    pub fn cursor_j(&self) -> (r: u8)
        ensures
            r == self@.j,
    {
        self.j
    }

    /// The generation modulus.
    pub fn width(&self) -> (r: usize)
        requires
            self.wf(),
        ensures
            r == 256,
    {
        self.width
    }
}

} // verus!
