//! Probabilities as fractions of `u64::MAX`, the random draws that mutation makes, a small
//! seeded random number generator, and the discrete events that mutation picks between.
use rand::rngs::ThreadRng;
use rand::seq::IteratorRandom;
use rand::{Rng, RngCore};
use std::time::{Duration, SystemTime, SystemTimeError, UNIX_EPOCH};
use vstd::prelude::*;
use vstd::slice::SliceAdditionalExecFns;

verus! {

/// `rand::rngs::ThreadRng`, the thread-local generator that mutation and crossover draw from.
#[verifier::external_type_specification]
#[verifier::external_body]
pub struct ExThreadRng(ThreadRng);

/// `RngCore::next_u64` on a `ThreadRng`: a random `u64`. Nothing is promised of its value.
#[verifier::external_body]
pub(crate) fn roll(rng: &mut ThreadRng) -> (r: u64) {
    rng.next_u64()
}

/// `Rng::random_range(0..n)` on a `ThreadRng`: an index below `n`, which must not be 0
/// (`random_range` panics on an empty range). Which index comes back rests on chance.
#[verifier::external_body]
pub(crate) fn random_index(rng: &mut ThreadRng, n: usize) -> (r: usize)
    requires
        n > 0,
    ensures
        r < n,
{
    rng.random_range(0..n)
}

/// `IteratorRandom::choose` over the candidates: `None` exactly when there are none, else one
/// of them. Which one rests on chance.
#[verifier::external_body]
pub(crate) fn choose_candidate(rng: &mut ThreadRng, candidates: &Vec<usize>) -> (r: Option<usize>)
    ensures
        r is None <==> candidates.len() == 0,
        r matches Some(c) ==> candidates@.contains(c),
{
    candidates.iter().copied().choose(rng)
}

/// The value that is `x` percent of `u64::MAX`, rounded down to a whole multiple of one
/// percent. A roll `r` passes a check of probability `p` when `r < p`.
pub open spec fn spec_percent(x: int) -> int {
    x * (u64::MAX / 100)
}

/// Turn a whole percent into a `u64` that is `x` percent of `u64::MAX`.
pub fn percent(x: u64) -> (r: u64)
    requires
        x <= 100,
    ensures
        r == spec_percent(x as int),
{
    assert(x * (u64::MAX / 100) <= u64::MAX) by (nonlinear_arith)
        requires
            x <= 100,
    ;
    x * (u64::MAX / 100)
}

/// Sum of the first `n` probabilities.
pub open spec fn prefix_sum(prob: Seq<u64>, n: int) -> int
    decreases n,
{
    if n <= 0 {
        0
    } else {
        prefix_sum(prob, n - 1) + prob[n - 1]
    }
}

/// The event that a roll picks: the first index `k` at or after `from` whose running sum of
/// probabilities exceeds the roll.
pub open spec fn picked_from(roll: u64, prob: Seq<u64>, from: int) -> Option<usize>
    decreases prob.len() - from,
{
    if from < 0 || from >= prob.len() {
        None
    } else if roll < prefix_sum(prob, from + 1) {
        Some(from as usize)
    } else {
        picked_from(roll, prob, from + 1)
    }
}

/// The event that `roll` picks among events of the given probabilities.
pub open spec fn picked(roll: u64, prob: Seq<u64>) -> Option<usize> {
    picked_from(roll, prob, 0)
}

proof fn lemma_prefix_sum_monotone(prob: Seq<u64>, a: int, b: int)
    requires
        0 <= a <= b <= prob.len(),
    ensures
        prefix_sum(prob, a) <= prefix_sum(prob, b),
    decreases b - a,
{
    if a < b {
        lemma_prefix_sum_monotone(prob, a, b - 1);
    }
}

/// Pick an event for `roll`: walking the probabilities in order and keeping a running sum,
/// the first event whose running sum exceeds the roll. `None` when the roll is at least the
/// sum of all probabilities. The probabilities may sum to at most `u64::MAX`.
pub fn pick_event(roll: u64, prob: &[u64]) -> (r: Option<usize>)
    requires
        prefix_sum(prob@, prob@.len() as int) <= u64::MAX,
    ensures
        r == picked(roll, prob@),
        r matches Some(i) ==> i < prob@.len(),
{
    let mut acc: u64 = 0;
    let mut idx: usize = 0;
    while idx < prob.len()
        invariant
            idx <= prob@.len(),
            acc == prefix_sum(prob@, idx as int),
            prefix_sum(prob@, prob@.len() as int) <= u64::MAX,
            picked(roll, prob@) == picked_from(roll, prob@, idx as int),
        decreases prob.len() - idx,
    {
        proof {
            lemma_prefix_sum_monotone(prob@, idx + 1, prob@.len() as int);
        }
        let next = acc + prob[idx];
        if roll < next {
            return Some(idx);
        }
        acc = next;
        idx = idx + 1;
    }
    None
}

/// The probability that a parameter mutation replaces the parameter rather than perturbing it.
pub open spec fn param_replace_probability() -> int {
    spec_percent(20)
}

/// The parameter mutation that the rolls pick among parameters of the given probabilities:
/// the parameter's index, and whether it is replaced (`replace_roll` below 20%) rather than
/// perturbed. `None` where the pick roll picks no parameter.
pub open spec fn param_mutation_for(prob: Seq<u64>, pick_roll: u64, replace_roll: u64) -> Option<(usize, bool)> {
    match picked(pick_roll, prob) {
        Some(i) => Some((i, replace_roll < param_replace_probability())),
        None => None,
    }
}

/// Pick a parameter mutation for the given rolls (see [param_mutation_for]). The value that
/// replaces or perturbs the parameter is floating point and drawn by the caller.
pub fn param_mutation_rolled(prob: &[u64], pick_roll: u64, replace_roll: u64) -> (r: Option<(usize, bool)>)
    requires
        prefix_sum(prob@, prob@.len() as int) <= u64::MAX,
    ensures
        r == param_mutation_for(prob@, pick_roll, replace_roll),
{
    match pick_event(pick_roll, prob) {
        Some(i) => Some((i, replace_roll < percent(20))),
        None => None,
    }
}

/// Pick a parameter mutation: roll for the parameter, and only where one is picked, roll for
/// whether it is replaced. The result is the mutation that some pair of rolls picks.
pub fn param_mutation(prob: &[u64], rng: &mut ThreadRng) -> (r: Option<(usize, bool)>)
    requires
        prefix_sum(prob@, prob@.len() as int) <= u64::MAX,
    ensures
        exists|pick_roll: u64, replace_roll: u64| r == #[trigger] param_mutation_for(prob@, pick_roll, replace_roll),
        r matches Some(p) ==> p.0 < prob@.len(),
{
    let pick_roll = roll(rng);
    match pick_event(pick_roll, prob) {
        Some(i) => {
            let replace_roll = roll(rng);
            let r = param_mutation_rolled(prob, pick_roll, replace_roll);
            assert(picked(pick_roll, prob@) == Some(i));
            assert(r == Some((i, replace_roll < spec_percent(20))));
            r
        },
        None => {
            assert(param_mutation_for(prob@, pick_roll, 0) == None::<(usize, bool)>);
            None
        },
    }
}

/// Mutations that a genome may undergo.
#[derive(Clone, Copy, Debug, PartialEq, Eq, Structural)]
pub enum GenomeEvent {
    NewConnection,
    BisectConnection,
    MutateConnection,
    MutateNode,
}

/// Mutations that a connection may undergo.
#[derive(Clone, Copy, Debug, PartialEq, Eq, Structural)]
pub enum ConnectionEvent {
    Disable,
    MutateParam,
}

/// The probabilities of [GenomeEvent]s, in variant order: 10%, 10%, 80%, 0%.
pub open spec fn genome_event_probabilities() -> Seq<u64> {
    seq![
        spec_percent(10) as u64,
        spec_percent(10) as u64,
        spec_percent(80) as u64,
        spec_percent(0) as u64,
    ]
}

/// The probabilities of [ConnectionEvent]s, in variant order: 1%, 99%.
pub open spec fn connection_event_probabilities() -> Seq<u64> {
    seq![spec_percent(1) as u64, spec_percent(99) as u64]
}

/// The genome event that `roll` picks.
pub open spec fn genome_event_for(roll: u64) -> Option<GenomeEvent> {
    match picked(roll, genome_event_probabilities()) {
        Some(0) => Some(GenomeEvent::NewConnection),
        Some(1) => Some(GenomeEvent::BisectConnection),
        Some(2) => Some(GenomeEvent::MutateConnection),
        Some(3) => Some(GenomeEvent::MutateNode),
        _ => None,
    }
}

/// The connection event that `roll` picks.
pub open spec fn connection_event_for(roll: u64) -> Option<ConnectionEvent> {
    match picked(roll, connection_event_probabilities()) {
        Some(0) => Some(ConnectionEvent::Disable),
        Some(1) => Some(ConnectionEvent::MutateParam),
        _ => None,
    }
}

impl GenomeEvent {
    /// All variants, in order.
    pub fn variants() -> (r: [GenomeEvent; 4])
        ensures
            r@ == seq![
                GenomeEvent::NewConnection,
                GenomeEvent::BisectConnection,
                GenomeEvent::MutateConnection,
                GenomeEvent::MutateNode,
            ],
    {
        [
            GenomeEvent::NewConnection,
            GenomeEvent::BisectConnection,
            GenomeEvent::MutateConnection,
            GenomeEvent::MutateNode,
        ]
    }

    /// Position of this variant in [GenomeEvent::variants].
    pub fn idx(&self) -> (r: usize)
        ensures
            r == match self {
                GenomeEvent::NewConnection => 0usize,
                GenomeEvent::BisectConnection => 1usize,
                GenomeEvent::MutateConnection => 2usize,
                GenomeEvent::MutateNode => 3usize,
            },
    {
        match self {
            GenomeEvent::NewConnection => 0,
            GenomeEvent::BisectConnection => 1,
            GenomeEvent::MutateConnection => 2,
            GenomeEvent::MutateNode => 3,
        }
    }

    /// The event that `roll` picks among the genome events, by their fixed probabilities.
    /// The node mutation has probability 0 and is never picked.
    pub fn pick_rolled(roll: u64) -> (r: Option<GenomeEvent>)
        ensures
            r == genome_event_for(roll),
            r != Some(GenomeEvent::MutateNode),
    {
        let prob = [percent(10), percent(10), percent(80), percent(0)];
        assert(prob@ =~= genome_event_probabilities());
        proof {
            reveal_with_fuel(prefix_sum, 5);
            reveal_with_fuel(picked_from, 5);
        }
        match pick_event(roll, prob.as_slice()) {
            Some(0) => Some(GenomeEvent::NewConnection),
            Some(1) => Some(GenomeEvent::BisectConnection),
            Some(2) => Some(GenomeEvent::MutateConnection),
            Some(3) => Some(GenomeEvent::MutateNode),
            _ => None,
        }
    }

    /// Roll once and pick a genome event: the event that the roll picks.
    pub fn pick(rng: &mut ThreadRng) -> (r: Option<GenomeEvent>)
        ensures
            exists|roll: u64| r == #[trigger] genome_event_for(roll),
            r != Some(GenomeEvent::MutateNode),
    {
        let x = roll(rng);
        let r = Self::pick_rolled(x);
        assert(r == genome_event_for(x));
        r
    }
}

impl ConnectionEvent {
    /// All variants, in order.
    pub fn variants() -> (r: [ConnectionEvent; 2])
        ensures
            r@ == seq![ConnectionEvent::Disable, ConnectionEvent::MutateParam],
    {
        [ConnectionEvent::Disable, ConnectionEvent::MutateParam]
    }

    /// Position of this variant in [ConnectionEvent::variants].
    pub fn idx(&self) -> (r: usize)
        ensures
            r == match self {
                ConnectionEvent::Disable => 0usize,
                ConnectionEvent::MutateParam => 1usize,
            },
    {
        match self {
            ConnectionEvent::Disable => 0,
            ConnectionEvent::MutateParam => 1,
        }
    }

    /// The event that `roll` picks among the connection events, by their fixed probabilities.
    pub fn pick_rolled(roll: u64) -> (r: Option<ConnectionEvent>)
        ensures
            r == connection_event_for(roll),
    {
        let prob = [percent(1), percent(99)];
        assert(prob@ =~= connection_event_probabilities());
        proof {
            reveal_with_fuel(prefix_sum, 3);
            reveal_with_fuel(picked_from, 3);
        }
        match pick_event(roll, prob.as_slice()) {
            Some(0) => Some(ConnectionEvent::Disable),
            Some(1) => Some(ConnectionEvent::MutateParam),
            _ => None,
        }
    }

    /// Roll once and pick a connection event: the event that the roll picks.
    pub fn pick(rng: &mut ThreadRng) -> (r: Option<ConnectionEvent>)
        ensures
            exists|roll: u64| r == #[trigger] connection_event_for(roll),
    {
        let x = roll(rng);
        let r = Self::pick_rolled(x);
        assert(r == connection_event_for(x));
        r
    }
}

/// `std::time::SystemTime`.
#[verifier::external_type_specification]
#[verifier::external_body]
pub struct ExSystemTime(SystemTime);

/// `std::time::SystemTimeError`: the system clock reads earlier than the instant asked about.
#[verifier::external_type_specification]
#[verifier::external_body]
pub struct ExSystemTimeError(SystemTimeError);

/// `SystemTime::now`: the current system time. Nothing is promised of it.
#[verifier::external_body]
fn system_now() -> (r: SystemTime) {
    SystemTime::now()
}

/// `SystemTime::duration_since(UNIX_EPOCH)`: the time elapsed since the Unix epoch, or an
/// error when `t` lies before it. Which comes back rests on the clock.
#[verifier::external_body]
fn since_unix_epoch(t: SystemTime) -> (r: Result<Duration, SystemTimeError>) {
    t.duration_since(UNIX_EPOCH)
}

/// `Duration::as_nanos`: the whole nanoseconds of the duration. Nothing is stated of its value.
#[verifier::external_body]
fn duration_nanos(d: &Duration) -> (r: u128) {
    d.as_nanos()
}

/// `x` truncated to its low 64 bits.
pub open spec fn low_u64(x: int) -> u64 {
    (x % 0x1_0000_0000_0000_0000) as u64
}

/// A seed from a count of nanoseconds: its low 64 bits.
pub fn seed_from_nanos(nanos: u128) -> (r: u64)
    ensures
        r == low_u64(nanos as int),
{
    assert(nanos as u64 == nanos % 0x1_0000_0000_0000_0000) by (bit_vector);
    nanos as u64
}

/// Fast seed using the current timestamp: the low 64 bits of the nanoseconds since the Unix
/// epoch. Fails when the system clock reads earlier than the epoch.
pub fn seed_time() -> (r: Result<u64, SystemTimeError>) {
    match since_unix_epoch(system_now()) {
        Ok(d) => Ok(seed_from_nanos(duration_nanos(&d))),
        Err(e) => Err(e),
    }
}

/// The seed mixed from a timestamp and a salt (a process id, a thread hash):
/// `nanos * salt + nanos`, wrapping, truncated to 64 bits.
pub open spec fn mixed_seed(nanos: u128, salt: u128) -> u64 {
    let m = u128::MAX as int + 1;
    low_u64((((nanos * salt) % m) + nanos) % m)
}

/// Mix a timestamp with a salt: `nanos.wrapping_mul(salt).wrapping_add(nanos)`, low 64 bits.
pub fn mix_seed(nanos: u128, salt: u128) -> (r: u64)
    ensures
        r == mixed_seed(nanos, salt),
{
    let combined = nanos.wrapping_mul(salt).wrapping_add(nanos);
    seed_from_nanos(combined)
}

/// The fold of `acc * 31 + b` over the bytes, wrapping at 64 bits, from 0.
pub open spec fn bytes_hash(bytes: Seq<u8>) -> u64
    decreases bytes.len(),
{
    if bytes.len() == 0 {
        0
    } else {
        ((((bytes_hash(bytes.drop_last()) * 31) % 0x1_0000_0000_0000_0000) + bytes.last())
            % 0x1_0000_0000_0000_0000) as u64
    }
}

/// Hash bytes by `acc.wrapping_mul(31).wrapping_add(b)`, from 0.
pub fn hash_bytes(bytes: &[u8]) -> (r: u64)
    ensures
        r == bytes_hash(bytes@),
{
    let mut acc: u64 = 0;
    let mut i: usize = 0;
    while i < bytes.len()
        invariant
            i <= bytes@.len(),
            acc == bytes_hash(bytes@.take(i as int)),
        decreases bytes@.len() - i,
    {
        assert(bytes@.take(i + 1).drop_last() =~= bytes@.take(i as int));
        acc = acc.wrapping_mul(31).wrapping_add(bytes[i] as u64);
        i = i + 1;
    }
    assert(bytes@.take(bytes@.len() as int) =~= bytes@);
    acc
}

/// The constant added to the generator's state on every draw.
pub const WY_CONST_0: u64 = 0x2d35_8dcc_aa6c_78a5;

/// The constant mixed into the state for every draw.
pub const WY_CONST_1: u64 = 0x8bb8_4b93_962e_acc9;

/// The generator's state after a draw from state `s`.
pub open spec fn wy_advance(s: u64) -> u64 {
    ((s + WY_CONST_0) % 0x1_0000_0000_0000_0000) as u64
}

/// The output of a draw that leaves the generator in state `s`: the 128-bit product of `s`
/// and `s ^ WY_CONST_1`, its low half xor its high half.
pub open spec fn wy_output(s: u64) -> u64 {
    let t = (s as u128) * ((s ^ WY_CONST_1) as u128);
    ((t % 0x1_0000_0000_0000_0000) as u64) ^ ((t / 0x1_0000_0000_0000_0000) as u64)
}

/// The generator's state after `k` draws from state `s`.
pub open spec fn wy_state_after(s: u64, k: nat) -> u64
    decreases k,
{
    if k == 0 {
        s
    } else {
        wy_advance(wy_state_after(s, (k - 1) as nat))
    }
}

/// The `k`-th draw (from 0) of a generator in state `s`.
pub open spec fn wy_draw(s: u64, k: nat) -> u64 {
    wy_output(wy_state_after(s, k + 1))
}

/// A draw from state `s` gives `wy_draw(s, 0)` and leaves the generator in a state whose
/// draws are those of `s` after the first: the draws of a generator are the sequence
/// `wy_draw(s, 0), wy_draw(s, 1), ...` of its state alone, so generators seeded alike draw
/// alike.
pub proof fn lemma_wy_draws_follow_state(s: u64, k: nat)
    ensures
        wy_draw(s, 0) == wy_output(wy_advance(s)),
        wy_state_after(wy_advance(s), k) == wy_state_after(s, k + 1),
        wy_draw(wy_advance(s), k) == wy_draw(s, k + 1),
    decreases k,
{
    if k > 0 {
        lemma_wy_draws_follow_state(s, (k - 1) as nat);
    }
    assert(wy_state_after(s, 1) == wy_advance(wy_state_after(s, 0)));
}

/// The number of draws that filling `n` bytes takes: one per run of eight bytes.
pub open spec fn fill_draws(n: nat) -> nat {
    (n + 7) / 8
}

/// Run `k` of `dst` (bytes `8k` up to `8k + 8`, or to the end) holds the leading bytes of the
/// `k`-th draw from state `s`, least or most significant first.
pub open spec fn fill_chunk_holds(dst: Seq<u8>, s: u64, k: int) -> bool {
    let lo = 8 * k;
    let hi = if lo + 8 <= dst.len() { lo + 8 } else { dst.len() as int };
    let v = wy_draw(s, k as nat);
    ||| dst.subrange(lo, hi) == le_bytes_of(v).take(hi - lo)
    ||| dst.subrange(lo, hi) == be_bytes_of(v).take(hi - lo)
}

/// A small, fast random number generator (wyrand).
pub struct WyRng {
    state: u64,
}

impl View for WyRng {
    type V = u64;

    closed spec fn view(&self) -> u64 {
        self.state
    }
}

/// The eight bytes of `x`, least significant first.
pub open spec fn le_bytes_of(x: u64) -> Seq<u8> {
    seq![
        x as u8,
        (x >> 8u64) as u8,
        (x >> 16u64) as u8,
        (x >> 24u64) as u8,
        (x >> 32u64) as u8,
        (x >> 40u64) as u8,
        (x >> 48u64) as u8,
        (x >> 56u64) as u8,
    ]
}

/// The eight bytes of `x`, most significant first.
pub open spec fn be_bytes_of(x: u64) -> Seq<u8> {
    le_bytes_of(x).reverse()
}

/// `u64::to_ne_bytes`: the eight bytes of `x` in the machine's byte order, which std
/// documents as the little-endian or the big-endian bytes. Which of the two it is depends on
/// the machine, and is not stated.
#[verifier::external_body]
fn ne_bytes(x: u64) -> (r: [u8; 8])
    ensures
        r@ == le_bytes_of(x) || r@ == be_bytes_of(x),
{
    x.to_ne_bytes()
}

impl WyRng {
    /// A generator in state `state`.
    pub fn seeded(state: u64) -> (r: Self)
        ensures
            r@ == state,
    {
        Self { state }
    }

    /// Draw a `u64`: advance the state, then mix it.
    pub fn next_u64(&mut self) -> (r: u64)
        ensures
            final(self)@ == wy_advance(old(self)@),
            r == wy_output(final(self)@),
    {
        self.state = self.state.wrapping_add(WY_CONST_0);
        let s = self.state;
        let m = s ^ WY_CONST_1;
        assert((s as u128) * (m as u128) <= u128::MAX) by (nonlinear_arith)
            requires
                s <= u64::MAX,
                m <= u64::MAX,
        ;
        let t: u128 = (s as u128) * (m as u128);
        let lo = #[verifier::truncate] (t as u64);
        let hi = #[verifier::truncate] ((t >> 64u32) as u64);
        assert(lo == (t % 0x1_0000_0000_0000_0000) as u64) by (bit_vector)
            requires
                lo == t as u64,
        ;
        assert(hi == (t / 0x1_0000_0000_0000_0000) as u64) by (bit_vector)
            requires
                hi == (t >> 64u32) as u64,
        ;
        lo ^ hi
    }

    /// Draw a `u32`: the low 32 bits of a `u64` draw.
    pub fn next_u32(&mut self) -> (r: u32)
        ensures
            final(self)@ == wy_advance(old(self)@),
            r == (wy_output(final(self)@) % 0x1_0000_0000) as u32,
    {
        let x = self.next_u64();
        assert(x as u32 == (x % 0x1_0000_0000) as u32) by (bit_vector);
        x as u32
    }

    /// Fill `dst` eight bytes per draw: the `k`-th run of eight bytes (the last one possibly
    /// shorter) holds the leading bytes, in the machine's byte order, of the `k`-th draw. As
    /// many draws are made as there are runs; an empty `dst` draws nothing.
    pub fn fill_bytes(&mut self, dst: &mut [u8])
        ensures
            final(dst)@.len() == old(dst)@.len(),
            final(self)@ == wy_state_after(old(self)@, fill_draws(old(dst)@.len())),
            forall|k: int| 0 <= k < fill_draws(old(dst)@.len()) ==> #[trigger] fill_chunk_holds(
                final(dst)@,
                old(self)@,
                k,
            ),
    {
        let ghost s0 = self@;
        let ghost n = dst@.len();
        let len = dst.len();
        let mut idx: usize = 0;
        let ghost mut k: int = 0;
        while idx < len
            invariant
                len == n,
                dst@.len() == n,
                idx <= n,
                idx % 8 == 0 || idx == n,
                k == (idx + 7) / 8,
                self@ == wy_state_after(s0, k as nat),
                forall|j: int| 0 <= j < k ==> #[trigger] fill_chunk_holds(dst@, s0, j),
            decreases n - idx,
        {
            let lim: usize = if len - idx < 8 {
                len - idx
            } else {
                8
            };
            let v = self.next_u64();
            assert(v == wy_draw(s0, k as nat));
            let bytes = ne_bytes(v);
            let ghost before = dst@;
            let mut j: usize = 0;
            while j < lim
                invariant
                    lim <= 8,
                    len == n,
                    idx + lim <= n,
                    dst@.len() == n,
                    bytes@.len() == 8,
                    j <= lim,
                    forall|p: int| 0 <= p < idx ==> #[trigger] dst@[p] == before[p],
                    forall|p: int| 0 <= p < j ==> #[trigger] dst@[idx + p] == bytes@[p],
                decreases lim - j,
            {
                dst[idx + j] = bytes[j];
                j = j + 1;
            }
            proof {
                assert forall|p: int| 0 <= p < lim implies #[trigger] dst@.subrange(idx as int, idx + lim)[p]
                    == bytes@.take(lim as int)[p] by {
                    assert(dst@[idx + p] == bytes@[p]);
                }
                assert(dst@.subrange(idx as int, idx + lim) =~= bytes@.take(lim as int));
                assert(fill_chunk_holds(dst@, s0, k));
                assert forall|jj: int| 0 <= jj < k implies #[trigger] fill_chunk_holds(dst@, s0, jj) by {
                    assert(fill_chunk_holds(before, s0, jj));
                    let lo = 8 * jj;
                    let hi = if lo + 8 <= n { lo + 8 } else { n as int };
                    assert(dst@.subrange(lo, hi) =~= before.subrange(lo, hi));
                }
            }
            idx = idx + lim;
            proof {
                k = k + 1;
            }
        }
    }
}

} // verus!
