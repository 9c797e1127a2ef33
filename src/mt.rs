//! Mersenne Twister generator of 32-bit words.
use vstd::prelude::*;

verus! {

/// Number of words in the twist state.
pub const STATE_SIZE: usize = 624;

/// Offset of the word that is combined with each word during a twist.
pub const SHIFT_SIZE: usize = 397;

/// Multiplier of the seed-expansion recurrence.
pub const INIT_MULTIPLIER: u32 = 1812433253;

/// Top bit of a word.
pub const UPPER_MASK: u32 = 0x8000_0000;

/// Lower 31 bits of a word.
pub const LOWER_MASK: u32 = 0x7fff_ffff;

/// Constant folded into a twisted word whose combined value is odd.
pub const MATRIX_A: u32 = 0x9908_b0df;

/// First tempering mask.
pub const TEMPER_B: u32 = 0x9d2c_5680;

/// Second tempering mask.
pub const TEMPER_C: u32 = 0xefc6_0000;

/// Word `i` of the state expanded from `seed`.
pub open spec fn seed_word(seed: u32, i: nat) -> u32
    decreases i,
{
    if i == 0 {
        seed
    } else {
        let p = seed_word(seed, (i - 1) as nat);
        ((INIT_MULTIPLIER as int * ((p ^ (p >> 30u32)) as int) + i) % 0x1_0000_0000) as u32
    }
}

/// The whole state expanded from `seed`.
pub open spec fn seeded(seed: u32) -> Seq<u32> {
    Seq::new(STATE_SIZE as nat, |i: int| seed_word(seed, i as nat))
}

/// The twisted contribution of a word and its successor.
pub open spec fn mix(cur: u32, nxt: u32) -> u32 {
    let bits = (cur & UPPER_MASK) | (nxt & LOWER_MASK);
    (bits >> 1u32) ^ (if bits & 1u32 == 1u32 { MATRIX_A } else { 0u32 })
}

/// Recomputes word `i` in place, reading the words as they currently are.
pub open spec fn twist_step(s: Seq<u32>, i: int) -> Seq<u32> {
    let n = STATE_SIZE as int;
    s.update(i, s[(i + SHIFT_SIZE as int) % n] ^ mix(s[i], s[(i + 1) % n]))
}

/// The state after the first `k` words have been recomputed in order.
pub open spec fn twist_upto(s: Seq<u32>, k: nat) -> Seq<u32>
    decreases k,
{
    if k == 0 {
        s
    } else {
        twist_step(twist_upto(s, (k - 1) as nat), k - 1)
    }
}

/// The state after a full regeneration.
pub open spec fn twisted(s: Seq<u32>) -> Seq<u32> {
    twist_upto(s, STATE_SIZE as nat)
}

/// The tempering transform applied to every emitted word.
pub open spec fn temper(x: u32) -> u32 {
    let y1 = x ^ (x >> 11u32);
    let y2 = y1 ^ ((y1 << 7u32) & TEMPER_B);
    let y3 = y2 ^ ((y2 << 15u32) & TEMPER_C);
    y3 ^ (y3 >> 18u32)
}

/// The words, cursor and output of one draw from `(words, cursor)`.
pub open spec fn draw(words: Seq<u32>, cursor: nat) -> (Seq<u32>, nat, u32) {
    if cursor >= STATE_SIZE {
        let w = twisted(words);
        (w, 1, temper(w[0]))
    } else {
        (words, cursor + 1, temper(words[cursor as int]))
    }
}

/// A Mersenne Twister generator: a state of 624 words and a cursor.
pub struct MT {
    state: [u32; STATE_SIZE],
    next: u32,
}

impl MT {
    /// The current state words.
    pub closed spec fn words(&self) -> Seq<u32> {
        self.state@
    }

    /// Index of the next word to emit; `STATE_SIZE` means exhausted.
    pub closed spec fn cursor(&self) -> nat {
        self.next as nat
    }

    /// The cursor never passes the end of the state.
    pub closed spec fn wf(&self) -> bool {
        self.next <= STATE_SIZE
    }

    /// Expands `seed` into a fresh state, ready to emit its first word.
    pub fn new(seed: u32) -> (r: MT)
        ensures
            r.wf(),
            r.words() == seeded(seed),
            r.cursor() == 0,
    {
        let mut state: [u32; STATE_SIZE] = [seed; STATE_SIZE];
        let mut i: usize = 1;
        while i < STATE_SIZE
            invariant
                1 <= i <= STATE_SIZE,
                state@.len() == STATE_SIZE,
                forall|j: int| 0 <= j < i ==> state@[j] == seed_word(seed, j as nat),
            decreases STATE_SIZE - i,
        {
            let p: u32 = state[i - 1];
            let v: u32 = INIT_MULTIPLIER.wrapping_mul(p ^ (p >> 30u32)).wrapping_add(i as u32);
            proof {
                let q = (p ^ (p >> 30u32)) as int;
                let m = INIT_MULTIPLIER as int * q;
                assert(v as int == ((m % 0x1_0000_0000) + i as int) % 0x1_0000_0000);
                assert(((m % 0x1_0000_0000) + i as int) % 0x1_0000_0000 == (m + i as int)
                    % 0x1_0000_0000) by (nonlinear_arith);
            }
            state[i] = v;
            i = i + 1;
        }
        proof {
            assert(state@ =~= seeded(seed));
        }
        MT { state, next: 0 }
    }
    /// Recomputes all words in place and resets the cursor.
    pub fn twist(&mut self)
        ensures
            final(self).wf(),
            final(self).words() == twisted(old(self).words()),
            final(self).cursor() == 0,
    {
        let ghost s0 = self.state@;
        let first_half: usize = STATE_SIZE - SHIFT_SIZE;
        let mut i: usize = 0;
        while i < STATE_SIZE - 1
            invariant
                0 <= i <= STATE_SIZE - 1,
                first_half == STATE_SIZE - SHIFT_SIZE,
                self.state@.len() == STATE_SIZE,
                self.state@ == twist_upto(s0, i as nat),
            decreases STATE_SIZE - i,
        {
            let far: u32 = if i < first_half {
                self.state[i + SHIFT_SIZE]
            } else {
                self.state[i - first_half]
            };
            let v: u32 = far ^ mix_exec(self.state[i], self.state[i + 1]);
            self.state[i] = v;
            proof {
                assert(self.state@ =~= twist_step(twist_upto(s0, i as nat), i as int));
            }
            i = i + 1;
        }
        let last: usize = STATE_SIZE - 1;
        let v: u32 = self.state[SHIFT_SIZE - 1] ^ mix_exec(self.state[last], self.state[0]);
        self.state[last] = v;
        proof {
            assert(self.state@ =~= twist_step(twist_upto(s0, last as nat), last as int));
        }
        self.next = 0;
    }

    /// Emits the tempered next word, regenerating the state first when it
    /// is exhausted.
    pub fn next_rand(&mut self) -> (r: u32)
        requires
            old(self).wf(),
        ensures
            final(self).wf(),
            (final(self).words(), final(self).cursor(), r) == draw(
                old(self).words(),
                old(self).cursor(),
            ),
    {
        if self.next >= STATE_SIZE as u32 {
            self.twist();
        }
        let x: u32 = self.state[self.next as usize];
        self.next = self.next + 1;
        temper_exec(x)
    }
}

/// Executable form of `mix`.
fn mix_exec(cur: u32, nxt: u32) -> (r: u32)
    ensures
        r == mix(cur, nxt),
{
    let bits: u32 = (cur & UPPER_MASK) | (nxt & LOWER_MASK);
    let odd: u32 = if bits & 1 == 1 {
        MATRIX_A
    } else {
        0
    };
    (bits >> 1) ^ odd
}

/// Executable form of `temper`.
fn temper_exec(x: u32) -> (r: u32)
    ensures
        r == temper(x),
{
    let mut y: u32 = x ^ (x >> 11);
    y = y ^ ((y << 7) & TEMPER_B);
    y = y ^ ((y << 15) & TEMPER_C);
    y ^ (y >> 18)
}

} // verus!
