//! A seeded generator: the same stream of numbers for a seed on every machine.
use vstd::prelude::*;

verus! {

/// The golden-ratio step between two states.
pub const STEP: u64 = 0x9E37_79B9_7F4A_7C15;

const FIRST_MIX: u64 = 0xBF58_476D_1CE4_E5B9;

const SECOND_MIX: u64 = 0x94D0_49BB_1331_11EB;

/// The state after the next number.
pub open spec fn stepped(state: u64) -> u64 {
    state.wrapping_add(STEP)
}

/// The number that a state gives.
pub open spec fn mixed(state: u64) -> u64 {
    let a = (state ^ (state >> 30u64)).wrapping_mul(0xBF58_476D_1CE4_E5B9u64);
    let b = (a ^ (a >> 27u64)).wrapping_mul(0x94D0_49BB_1331_11EBu64);
    b ^ (b >> 31u64)
}

/// The state after `n` more numbers.
pub open spec fn after(state: u64, n: nat) -> u64
    decreases n,
{
    if n == 0 {
        state
    } else {
        stepped(after(state, (n - 1) as nat))
    }
}

/// SplitMix64.
#[derive(Debug, Clone, PartialEq, Eq)]
pub struct Rng {
    state: u64,
}

impl View for Rng {
    type V = u64;

    closed spec fn view(&self) -> u64 {
        self.state
    }
}

impl Rng {
    pub fn new(seed: u64) -> (r: Self)
        ensures
            r@ == seed,
    {
        Self { state: seed }
    }

    pub fn next_u64(&mut self) -> (r: u64)
        ensures
            final(self)@ == stepped(old(self)@),
            r == mixed(final(self)@),
    {
        self.state = self.state.wrapping_add(STEP);
        let state: u64 = self.state;
        let a: u64 = (state ^ (state >> 30u64)).wrapping_mul(FIRST_MIX);
        let b: u64 = (a ^ (a >> 27u64)).wrapping_mul(SECOND_MIX);
        b ^ (b >> 31u64)
    }

    /// A number in `0..n`. `n` must not be zero.
    pub fn below(&mut self, n: usize) -> (r: usize)
        requires
            n > 0,
        ensures
            final(self)@ == stepped(old(self)@),
            r == mixed(final(self)@) % (n as u64),
            r < n,
    {
        let drawn: u64 = self.next_u64();
        (drawn % (n as u64)) as usize
    }

    /// A number in `lo..=hi`.
    pub fn between(&mut self, lo: usize, hi: usize) -> (r: usize)
        requires
            lo <= hi,
            hi - lo < usize::MAX,
        ensures
            final(self)@ == stepped(old(self)@),
            r == lo + mixed(final(self)@) % ((hi - lo + 1) as u64),
            lo <= r <= hi,
    {
        lo + self.below(hi - lo + 1)
    }

    /// True `percent` times in a hundred.
    pub fn chance(&mut self, percent: u64) -> (r: bool)
        ensures
            final(self)@ == stepped(old(self)@),
            r == (mixed(final(self)@) % 100 < percent),
    {
        self.next_u64() % 100 < percent
    }

    pub fn bytes(&mut self, len: usize) -> (r: Vec<u8>)
        ensures
            final(self)@ == after(old(self)@, len as nat),
            r@ == drawn_bytes(old(self)@, len as nat),
    {
        let ghost start = self@;
        let mut r: Vec<u8> = Vec::new();
        while r.len() < len
            invariant
                r@.len() <= len,
                self@ == after(start, r@.len()),
                start == old(self)@,
                r@ == drawn_bytes(start, r@.len()),
            decreases len - r@.len(),
        {
            let ghost n = r@.len();
            let drawn: u64 = self.next_u64();
            assert(drawn & 0xff <= 0xff) by (bit_vector);
            r.push((drawn & 0xff) as u8);
            assert(r@ =~= drawn_bytes(start, n + 1));
        }
        r
    }

    pub fn pick<'a, T>(&mut self, items: &'a [T]) -> (r: &'a T)
        requires
            items@.len() > 0,
        ensures
            final(self)@ == stepped(old(self)@),
            *r == items@[(mixed(final(self)@) % (items@.len() as u64)) as int],
    {
        let at: usize = self.below(items.len());
        &items[at]
    }
}

/// The low bytes of the next `n` numbers.
pub open spec fn drawn_bytes(state: u64, n: nat) -> Seq<u8> {
    Seq::new(n, |i: int| (mixed(after(state, (i + 1) as nat)) & 0xff) as u8)
}

/// A state moves on by the same odd number each time, round the end of 64 bits.
pub proof fn a_state_moves_on_by_one_step(state: u64)
    ensures
        stepped(state) as int == (state + 0x9E37_79B9_7F4A_7C15) % 0x1_0000_0000_0000_0000,
{
}

/// Two generators of one seed draw the same number at every turn.
pub proof fn a_seed_reproduces_its_stream(a: Rng, b: Rng, n: nat)
    requires
        a@ == b@,
    ensures
        after(a@, n) == after(b@, n),
        mixed(after(a@, n)) == mixed(after(b@, n)),
        drawn_bytes(a@, n) == drawn_bytes(b@, n),
{
}

/// Drawing on after some numbers is drawing all of them.
pub proof fn draws_add_up(state: u64, m: nat, n: nat)
    ensures
        after(after(state, m), n) == after(state, m + n),
    decreases n,
{
    if n > 0 {
        draws_add_up(state, m, (n - 1) as nat);
        assert((m + n - 1) as nat == m + (n - 1) as nat);
    }
}

/// A seed for a run that nobody pinned, from the time and the process.
pub fn arbitrary_seed(nanos: u64, pid: u64) -> (seed: u64)
    ensures
        seed == nanos ^ pid.wrapping_mul(STEP),
{
    nanos ^ pid.wrapping_mul(STEP)
}

} // verus!
