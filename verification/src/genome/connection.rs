//! The [Connection] trait and its two implementations: a weighted connection and a weighted
//! connection with a bias of its own.
//!
//! Connection parameters (weight, bias) are IEEE-754 binary64 values. The library carries them
//! as their bit patterns ([ParamBits]) and never does arithmetic on them: it copies them, and
//! sets them to the fixed values `1.0` and `0.0`.
use super::{can_issue, path_step, InnoGen, InnoView};
use crate::random::{connection_event_for, percent, prefix_sum, roll, spec_percent, ConnectionEvent};
use rand::rngs::ThreadRng;
use vstd::prelude::*;

verus! {

/// The IEEE-754 binary64 bit pattern of a connection parameter (`f64::to_bits`).
pub type ParamBits = u64;

/// The bit pattern of `1.0f64`.
pub const PARAM_ONE: ParamBits = 0x3ff0_0000_0000_0000;

/// The bit pattern of `0.0f64`.
pub const PARAM_ZERO: ParamBits = 0;

/// Whether two successive [InnoGen::path] calls for `v1` then `v2` can be made without the
/// generator's `head` overflowing.
pub open spec fn can_issue2(g: InnoView, v1: (usize, usize), v2: (usize, usize)) -> bool {
    can_issue(g, v1) && can_issue(path_step(g, v1).1, v2)
}

/// A connection between two nodes: a gene of a genome. Every connection has a path, a weight,
/// an enabled flag and an innovation id supplied by [InnoGen].
pub trait Connection: Sized + Copy {
    /// Innovation id.
    spec fn spec_inno(&self) -> usize;

    /// Path source.
    spec fn spec_from(&self) -> usize;

    /// Path destination.
    spec fn spec_target(&self) -> usize;

    /// Whether the connection is active.
    spec fn spec_enabled(&self) -> bool;

    /// Weight, as a bit pattern.
    spec fn spec_weight(&self) -> ParamBits;

    /// This connection with its enabled flag set to `enabled`, and nothing else changed.
    spec fn spec_with_enabled(self, enabled: bool) -> Self;

    /// The connection that [Connection::new] makes for path `(from, to)` with id `inno`.
    spec fn spec_fresh(from: usize, to: usize, inno: usize) -> Self;

    /// This connection's parameters carried over to the path `(from, self.to)` with id
    /// `inno`, enabled: the second half of a bisection.
    spec fn spec_rerouted(self, from: usize, inno: usize) -> Self;

    /// What the spec functions above say of one another.
    proof fn lemma_connection_spec(self, enabled: bool, e2: bool, from: usize, to: usize, inno: usize)
        ensures
            self.spec_with_enabled(enabled).spec_inno() == self.spec_inno(),
            self.spec_with_enabled(enabled).spec_from() == self.spec_from(),
            self.spec_with_enabled(enabled).spec_target() == self.spec_target(),
            self.spec_with_enabled(enabled).spec_weight() == self.spec_weight(),
            self.spec_with_enabled(enabled).spec_enabled() == enabled,
            self.spec_with_enabled(self.spec_enabled()) == self,
            self.spec_with_enabled(enabled).spec_with_enabled(e2) == self.spec_with_enabled(e2),
            Self::spec_fresh(from, to, inno).spec_inno() == inno,
            Self::spec_fresh(from, to, inno).spec_from() == from,
            Self::spec_fresh(from, to, inno).spec_target() == to,
            Self::spec_fresh(from, to, inno).spec_enabled(),
            Self::spec_fresh(from, to, inno).spec_weight() == PARAM_ONE,
            self.spec_rerouted(from, inno).spec_inno() == inno,
            self.spec_rerouted(from, inno).spec_from() == from,
            self.spec_rerouted(from, inno).spec_target() == self.spec_target(),
            self.spec_rerouted(from, inno).spec_enabled(),
            self.spec_rerouted(from, inno).spec_weight() == self.spec_weight(),
    ;

    /// A new enabled connection through `(from, to)` with weight `1.0`, its id taken from
    /// `inno`.
    fn new(from: usize, to: usize, inno: &mut InnoGen) -> (c: Self)
        requires
            old(inno).wf(),
            can_issue(old(inno)@, (from, to)),
        ensures
            final(inno).wf(),
            path_step(old(inno)@, (from, to)) == (c.spec_inno() as int, final(inno)@),
            c == Self::spec_fresh(from, to, c.spec_inno()),
    ;

    /// Gene innovation id.
    fn inno(&self) -> (r: usize)
        ensures
            r == self.spec_inno(),
    ;

    /// Whether this connection is active, and so affects its genome's behavior.
    fn enabled(&self) -> (r: bool)
        ensures
            r == self.spec_enabled(),
    ;

    /// Unconditionally enable this connection.
    fn enable(&mut self)
        ensures
            *final(self) == old(self).spec_with_enabled(true),
    ;

    /// Unconditionally disable this connection.
    fn disable(&mut self)
        ensures
            *final(self) == old(self).spec_with_enabled(false),
    ;

    /// `(from, to)` path of this connection.
    fn path(&self) -> (r: (usize, usize))
        ensures
            r.0 == self.spec_from(),
            r.1 == self.spec_target(),
    ;

    /// Path source.
    fn from(&self) -> (r: usize)
        ensures
            r == self.spec_from(),
    {
        self.path().0
    }

    /// Path destination.
    fn to(&self) -> (r: usize)
        ensures
            r == self.spec_target(),
    {
        self.path().1
    }

    /// The weight's bit pattern.
    fn weight(&self) -> (r: ParamBits)
        ensures
            r == self.spec_weight(),
    ;

    /// Apply the connection event that `roll` picks: disabling disables this connection; a
    /// parameter mutation leaves it to the caller, which is told so by the result `true`
    /// (the parameters are floating point, perturbed outside this library).
    fn mutate_rolled(&mut self, roll: u64) -> (param: bool)
        ensures
            param == (connection_event_for(roll) == Some(ConnectionEvent::MutateParam)),
            *final(self) == if connection_event_for(roll) == Some(ConnectionEvent::Disable) {
                old(self).spec_with_enabled(false)
            } else {
                *old(self)
            },
    {
        match ConnectionEvent::pick_rolled(roll) {
            Some(ConnectionEvent::Disable) => {
                self.disable();
                false
            },
            Some(ConnectionEvent::MutateParam) => true,
            None => false,
        }
    }

    /// Mutate this connection: roll a connection event and apply it (see
    /// [Connection::mutate_rolled]); the outcome is what some roll makes of it. When `true` comes back the connection is unchanged and
    /// its parameters are to be perturbed; otherwise it is unchanged or disabled.
    fn mutate(&mut self, rng: &mut ThreadRng) -> (param: bool)
        ensures
            exists|roll: u64|
                param == (#[trigger] connection_event_for(roll) == Some(ConnectionEvent::MutateParam))
                    && *final(self) == if connection_event_for(roll) == Some(ConnectionEvent::Disable) {
                    old(self).spec_with_enabled(false)
                } else {
                    *old(self)
                },
            param ==> *final(self) == *old(self),
            !param ==> *final(self) == *old(self) || *final(self) == old(self).spec_with_enabled(
                false,
            ),
    {
        let x = roll(rng);
        let param = self.mutate_rolled(x);
        param
    }

    /// Bisect this connection through node `center`: disable it, and return the pair
    /// `(from -> center with weight 1.0, center -> to with this connection's parameters)`.
    fn bisect(&mut self, center: usize, inno: &mut InnoGen) -> (r: (Self, Self))
        requires
            old(inno).wf(),
            can_issue2(old(inno)@, (old(self).spec_from(), center), (center, old(self).spec_target())),
        ensures
            final(inno).wf(),
            *final(self) == old(self).spec_with_enabled(false),
            ({
                let (i1, g1) = path_step(old(inno)@, (old(self).spec_from(), center));
                let (i2, g2) = path_step(g1, (center, old(self).spec_target()));
                &&& r.0 == Self::spec_fresh(old(self).spec_from(), center, i1 as usize)
                &&& r.1 == old(self).spec_rerouted(center, i2 as usize)
                &&& final(inno)@ == g2
            }),
    ;
}

/// What one connection becomes, and whether its parameters are to be perturbed, when its
/// mutation roll is `pass_roll` and its connection-event roll is `event_roll`: below 30% the
/// connection event is applied (see [Connection::mutate_rolled]); otherwise nothing happens.
pub open spec fn rolled_connection<C: Connection>(c: C, pass_roll: u64, event_roll: u64) -> (C, bool) {
    if pass_roll < spec_percent(30) {
        (
            if connection_event_for(event_roll) == Some(ConnectionEvent::Disable) {
                c.spec_with_enabled(false)
            } else {
                c
            },
            connection_event_for(event_roll) == Some(ConnectionEvent::MutateParam),
        )
    } else {
        (c, false)
    }
}

/// `new` and `params` are what the rolls `passes` and `events`, one pair per connection, make
/// of the connections `old`: each connection as [rolled_connection] makes it, and `params`
/// the indices, in increasing order, of exactly those whose parameters are to be perturbed.
pub open spec fn is_rolled_connection_mutation<C: Connection>(
    old: Seq<C>,
    new: Seq<C>,
    params: Seq<usize>,
    passes: Seq<u64>,
    events: Seq<u64>,
) -> bool {
    &&& passes.len() == old.len()
    &&& events.len() == old.len()
    &&& new.len() == old.len()
    &&& forall|i: int|
        0 <= i < old.len() ==> #[trigger] new[i] == rolled_connection(old[i], passes[i], events[i]).0
    &&& forall|a: int, b: int| 0 <= a < b < params.len() ==> params[a] < params[b]
    &&& forall|a: int|
        0 <= a < params.len() ==> #[trigger] params[a] < old.len() && rolled_connection(
            old[params[a] as int],
            passes[params[a] as int],
            events[params[a] as int],
        ).1
    &&& forall|i: int|
        0 <= i < old.len() && #[trigger] rolled_connection(old[i], passes[i], events[i]).1
            ==> params.contains(i as usize)
}

/// A basic connection, with a single weighted path.
#[derive(Clone, Copy, Debug, PartialEq, Eq, Structural)]
pub struct WConnection {
    pub inno: usize,
    pub from: usize,
    pub to: usize,
    pub weight: ParamBits,
    pub enabled: bool,
}

impl Connection for WConnection {
    open spec fn spec_inno(&self) -> usize {
        self.inno
    }

    open spec fn spec_from(&self) -> usize {
        self.from
    }

    open spec fn spec_target(&self) -> usize {
        self.to
    }

    open spec fn spec_enabled(&self) -> bool {
        self.enabled
    }

    open spec fn spec_weight(&self) -> ParamBits {
        self.weight
    }

    open spec fn spec_with_enabled(self, enabled: bool) -> Self {
        WConnection { enabled, ..self }
    }

    open spec fn spec_fresh(from: usize, to: usize, inno: usize) -> Self {
        WConnection { inno, from, to, weight: PARAM_ONE, enabled: true }
    }

    open spec fn spec_rerouted(self, from: usize, inno: usize) -> Self {
        WConnection { inno, from, to: self.to, weight: self.weight, enabled: true }
    }

    proof fn lemma_connection_spec(self, enabled: bool, e2: bool, from: usize, to: usize, inno: usize) {
    }

    fn new(from: usize, to: usize, inno: &mut InnoGen) -> (c: Self) {
        WConnection { inno: inno.path((from, to)), from, to, weight: PARAM_ONE, enabled: true }
    }

    fn inno(&self) -> (r: usize) {
        self.inno
    }

    fn enabled(&self) -> (r: bool) {
        self.enabled
    }

    fn enable(&mut self) {
        self.enabled = true;
    }

    fn disable(&mut self) {
        self.enabled = false;
    }

    fn path(&self) -> (r: (usize, usize)) {
        let to = self.to;
        assert(to == self.spec_target());
        (self.from, to)
    }

    fn weight(&self) -> (r: ParamBits) {
        self.weight
    }

    fn bisect(&mut self, center: usize, inno: &mut InnoGen) -> (r: (Self, Self)) {
        self.disable();
        let lower = WConnection {
            inno: inno.path((self.from, center)),
            from: self.from,
            to: center,
            weight: PARAM_ONE,
            enabled: true,
        };
        let upper = WConnection {
            inno: inno.path((center, self.to)),
            from: center,
            to: self.to,
            weight: self.weight,
            enabled: true,
        };
        (lower, upper)
    }
}

impl WConnection {
    /// The probabilities of mutating each parameter, in order: the weight, always.
    pub fn param_probabilities() -> (r: Vec<u64>)
        ensures
            r@ == seq![spec_percent(100) as u64],
            prefix_sum(r@, r@.len() as int) <= u64::MAX,
    {
        let r = vec![percent(100)];
        proof {
            reveal_with_fuel(prefix_sum, 2);
        }
        r
    }
}

impl Default for WConnection {
    /// The zero connection: id 0, path `(0, 0)`, weight `0.0`, enabled.
    fn default() -> (r: Self)
        ensures
            r == (WConnection { inno: 0, from: 0, to: 0, weight: PARAM_ZERO, enabled: true }),
    {
        WConnection { inno: 0, from: 0, to: 0, weight: PARAM_ZERO, enabled: true }
    }
}

/// A connection with a per-connection bias.
#[derive(Clone, Copy, Debug, PartialEq, Eq, Structural)]
pub struct BWConnection {
    pub inno: usize,
    pub from: usize,
    pub to: usize,
    pub bias: ParamBits,
    pub weight: ParamBits,
    pub enabled: bool,
}

impl Connection for BWConnection {
    open spec fn spec_inno(&self) -> usize {
        self.inno
    }

    open spec fn spec_from(&self) -> usize {
        self.from
    }

    open spec fn spec_target(&self) -> usize {
        self.to
    }

    open spec fn spec_enabled(&self) -> bool {
        self.enabled
    }

    open spec fn spec_weight(&self) -> ParamBits {
        self.weight
    }

    open spec fn spec_with_enabled(self, enabled: bool) -> Self {
        BWConnection { enabled, ..self }
    }

    open spec fn spec_fresh(from: usize, to: usize, inno: usize) -> Self {
        BWConnection { inno, from, to, bias: PARAM_ZERO, weight: PARAM_ONE, enabled: true }
    }

    open spec fn spec_rerouted(self, from: usize, inno: usize) -> Self {
        BWConnection {
            inno,
            from,
            to: self.to,
            bias: self.bias,
            weight: self.weight,
            enabled: true,
        }
    }

    proof fn lemma_connection_spec(self, enabled: bool, e2: bool, from: usize, to: usize, inno: usize) {
    }

    fn new(from: usize, to: usize, inno: &mut InnoGen) -> (c: Self) {
        BWConnection {
            inno: inno.path((from, to)),
            from,
            to,
            bias: PARAM_ZERO,
            weight: PARAM_ONE,
            enabled: true,
        }
    }

    fn inno(&self) -> (r: usize) {
        self.inno
    }

    fn enabled(&self) -> (r: bool) {
        self.enabled
    }

    fn enable(&mut self) {
        self.enabled = true;
    }

    fn disable(&mut self) {
        self.enabled = false;
    }

    fn path(&self) -> (r: (usize, usize)) {
        let to = self.to;
        assert(to == self.spec_target());
        (self.from, to)
    }

    fn weight(&self) -> (r: ParamBits) {
        self.weight
    }

    fn bisect(&mut self, center: usize, inno: &mut InnoGen) -> (r: (Self, Self)) {
        self.disable();
        let lower = BWConnection {
            inno: inno.path((self.from, center)),
            from: self.from,
            to: center,
            bias: PARAM_ZERO,
            weight: PARAM_ONE,
            enabled: true,
        };
        let upper = BWConnection {
            inno: inno.path((center, self.to)),
            from: center,
            to: self.to,
            bias: self.bias,
            weight: self.weight,
            enabled: true,
        };
        (lower, upper)
    }
}

impl BWConnection {
    /// The probabilities of mutating each parameter, in order: the weight and the bias, half
    /// and half.
    pub fn param_probabilities() -> (r: Vec<u64>)
        ensures
            r@ == seq![spec_percent(50) as u64, spec_percent(50) as u64],
            prefix_sum(r@, r@.len() as int) <= u64::MAX,
    {
        let r = vec![percent(50), percent(50)];
        proof {
            reveal_with_fuel(prefix_sum, 3);
        }
        r
    }
}

impl Default for BWConnection {
    /// The zero connection: id 0, path `(0, 0)`, bias and weight `0.0`, enabled.
    fn default() -> (r: Self)
        ensures
            r == (BWConnection {
                inno: 0,
                from: 0,
                to: 0,
                bias: PARAM_ZERO,
                weight: PARAM_ZERO,
                enabled: true,
            }),
    {
        BWConnection { inno: 0, from: 0, to: 0, bias: PARAM_ZERO, weight: PARAM_ZERO, enabled: true }
    }
}

} // verus!
