//! Handing clients out to upstreams in turn.
//!
//! A client goes to the upstream whose turn it is. If that one does not take
//! it, the connection to it is made anew and the client is offered once more,
//! and then the turn goes to the next.
use vstd::prelude::*;

verus! {

/// How far the client at hand has come.
#[derive(Clone, Copy, Debug, PartialEq, Eq, Structural)]
pub enum Phase {
    /// There is no client at hand.
    Idle,
    /// It has been offered to an upstream.
    Passing,
    /// The connection to the upstream is being made anew.
    Connecting,
    /// It has been offered again, over a new connection.
    Retrying,
}

/// What to do next with the client at hand.
#[derive(Clone, Copy, Debug, PartialEq, Eq, Structural)]
pub enum Step {
    /// Offer it to this upstream.
    Pass(usize),
    /// Make the connection to this upstream anew.
    Reconnect(usize),
    /// An upstream has taken it.
    Sent,
    /// No upstream has taken it.
    Dropped,
}

/// The state of a [`Balancer`].
pub struct BalancerView {
    /// The number of upstreams.
    pub n: int,
    /// Whose turn it is.
    pub turn: int,
    /// How many upstreams have not taken the client at hand.
    pub attempt: int,
    pub phase: Phase,
}

impl BalancerView {
    pub open spec fn is_valid(self) -> bool {
        &&& 0 <= self.n
        &&& 0 <= self.turn
        &&& self.n > 0 ==> self.turn < self.n
        &&& self.phase != Phase::Idle ==> 0 <= self.attempt < self.n
    }

    /// The upstream that the client at hand is offered to.
    pub open spec fn current(self) -> int {
        (self.turn + self.attempt) % self.n
    }

    /// The state after a client has come, and what to do.
    pub open spec fn begin(self) -> (BalancerView, Step) {
        if self.n == 0 {
            (BalancerView { attempt: 0, phase: Phase::Idle, ..self }, Step::Dropped)
        } else {
            (
                BalancerView { attempt: 0, phase: Phase::Passing, ..self },
                Step::Pass(self.turn as usize),
            )
        }
    }

    /// The state after the current upstream has taken the client.
    pub open spec fn taken(self) -> (BalancerView, Step) {
        (
            BalancerView {
                turn: (self.current() + 1) % self.n,
                attempt: 0,
                phase: Phase::Idle,
                ..self
            },
            Step::Sent,
        )
    }

    /// The state after the current upstream has been given up.
    pub open spec fn given_up(self) -> (BalancerView, Step) {
        if self.attempt + 1 < self.n {
            let next = BalancerView { attempt: self.attempt + 1, phase: Phase::Passing, ..self };
            (next, Step::Pass(next.current() as usize))
        } else {
            (BalancerView { attempt: 0, phase: Phase::Idle, ..self }, Step::Dropped)
        }
    }

    /// The state after the step at hand has worked out or failed.
    pub open spec fn proceed(self, ok: bool) -> (BalancerView, Step) {
        match self.phase {
            Phase::Idle => (self, Step::Dropped),
            Phase::Passing => if ok {
                self.taken()
            } else {
                (
                    BalancerView { phase: Phase::Connecting, ..self },
                    Step::Reconnect(self.current() as usize),
                )
            },
            Phase::Connecting => if ok {
                (
                    BalancerView { phase: Phase::Retrying, ..self },
                    Step::Pass(self.current() as usize),
                )
            } else {
                self.given_up()
            },
            Phase::Retrying => if ok {
                self.taken()
            } else {
                self.given_up()
            },
        }
    }
}

/// Deals clients out to upstreams.
pub struct Balancer {
    n: usize,
    turn: usize,
    attempt: usize,
    phase: Phase,
}

impl View for Balancer {
    type V = BalancerView;

    closed spec fn view(&self) -> BalancerView {
        BalancerView {
            n: self.n as int,
            turn: self.turn as int,
            attempt: self.attempt as int,
            phase: self.phase,
        }
    }
}

impl Balancer {
    #[verifier::type_invariant]
    spec fn is_valid(self) -> bool {
        self@.is_valid()
    }

    /// A balancer for `n` upstreams, which starts with the first.
    pub fn new(n: usize) -> (b: Self)
        ensures
            b@ == (BalancerView { n: n as int, turn: 0, attempt: 0, phase: Phase::Idle }),
    {
        Balancer { n, turn: 0, attempt: 0, phase: Phase::Idle }
    }

    /// The upstream `attempt` places behind the one whose turn it is.
    fn upstream(&self, attempt: usize) -> (i: usize)
        requires
            attempt < self@.n,
        ensures
            i == (self@.turn + attempt) % self@.n,
            i < self@.n,
    {
        proof {
            use_type_invariant(self);
        }
        let left = self.n - self.turn;
        if attempt < left {
            proof {
                vstd::arithmetic::div_mod::lemma_small_mod(
                    (self.turn + attempt) as nat,
                    self.n as nat,
                );
            }
            self.turn + attempt
        } else {
            proof {
                vstd::arithmetic::div_mod::lemma_mod_add_multiples_vanish(
                    attempt - left,
                    self.n as int,
                );
                vstd::arithmetic::div_mod::lemma_small_mod(
                    (attempt - left) as nat,
                    self.n as nat,
                );
            }
            attempt - left
        }
    }

    /// A client has come.
    pub fn begin(&mut self) -> (step: Step)
        ensures
            (final(self)@, step) == old(self)@.begin(),
    {
        proof {
            use_type_invariant(&*self);
        }
        let n = self.n;
        let turn = self.turn;
        if n == 0 {
            *self = Balancer { n, turn, attempt: 0, phase: Phase::Idle };
            Step::Dropped
        } else {
            *self = Balancer { n, turn, attempt: 0, phase: Phase::Passing };
            Step::Pass(turn)
        }
    }

    /// The step at hand has worked out or failed.
    pub fn proceed(&mut self, ok: bool) -> (step: Step)
        requires
            old(self)@.phase != Phase::Idle,
        ensures
            (final(self)@, step) == old(self)@.proceed(ok),
    {
        proof {
            use_type_invariant(&*self);
        }
        let n = self.n;
        let turn = self.turn;
        let attempt = self.attempt;
        let current = self.upstream(attempt);
        let passing = match self.phase {
            Phase::Connecting => false,
            _ => true,
        };
        if ok {
            if passing {
                let next = if current + 1 < n {
                    current + 1
                } else {
                    0
                };
                proof {
                    if current + 1 < n {
                        vstd::arithmetic::div_mod::lemma_small_mod(
                            (current + 1) as nat,
                            n as nat,
                        );
                    } else {
                        vstd::arithmetic::div_mod::lemma_mod_self_0(n as int);
                    }
                }
                *self = Balancer { n, turn: next, attempt: 0, phase: Phase::Idle };
                return Step::Sent;
            }
            *self = Balancer { n, turn, attempt, phase: Phase::Retrying };
            return Step::Pass(current);
        }
        match self.phase {
            Phase::Passing => {
                *self = Balancer { n, turn, attempt, phase: Phase::Connecting };
                return Step::Reconnect(current);
            },
            _ => {},
        }
        if n - attempt > 1 {
            let i = self.upstream(attempt + 1);
            *self = Balancer { n, turn, attempt: attempt + 1, phase: Phase::Passing };
            Step::Pass(i)
        } else {
            *self = Balancer { n, turn, attempt: 0, phase: Phase::Idle };
            Step::Dropped
        }
    }
}

/// A valid balancer stays valid.
pub proof fn law_balancer_stays_valid(b: BalancerView, ok: bool)
    requires
        b.is_valid(),
    ensures
        b.begin().0.is_valid(),
        b.proceed(ok).0.is_valid(),
        b.n == b.begin().0.n == b.proceed(ok).0.n,
{
    if b.n > 0 {
        vstd::arithmetic::div_mod::lemma_mod_bound(b.current() + 1, b.n);
    }
}

/// The state after the current upstream has refused the client: it did not
/// take it, and then either could not be reached anew, or was and refused it
/// once more.
pub open spec fn refused(b: BalancerView, reached_anew: bool) -> (BalancerView, Step) {
    let connecting = b.proceed(false).0;
    if reached_anew {
        connecting.proceed(true).0.proceed(false)
    } else {
        connecting.proceed(false)
    }
}

/// The state after a client has come and been refused by one upstream after
/// the other, each in its own way.
pub open spec fn after_refusals(b: BalancerView, ways: Seq<bool>) -> (BalancerView, Step)
    decreases ways.len(),
{
    if ways.len() == 0 {
        b.begin()
    } else {
        refused(after_refusals(b, ways.drop_last()).0, ways.last())
    }
}

/// A client that is refused, in whatever way, is offered to the next upstream,
/// to each one in turn, and only dropped when all have been asked. Then the
/// turn is whose it was.
pub proof fn law_every_upstream_is_asked(b: BalancerView, ways: Seq<bool>)
    requires
        b.is_valid(),
        b.n > 0,
        ways.len() <= b.n,
    ensures
        ways.len() < b.n ==> after_refusals(b, ways) == (
            BalancerView { attempt: ways.len() as int, phase: Phase::Passing, ..b },
            Step::Pass(((b.turn + ways.len()) % b.n) as usize),
        ),
        ways.len() == b.n ==> after_refusals(b, ways) == (
            BalancerView { attempt: 0, phase: Phase::Idle, ..b },
            Step::Dropped,
        ),
    decreases ways.len(),
{
    if ways.len() > 0 {
        law_every_upstream_is_asked(b, ways.drop_last());
    } else {
        vstd::arithmetic::div_mod::lemma_small_mod(b.turn as nat, b.n as nat);
    }
}

/// No upstream is asked twice for one client.
pub proof fn law_no_upstream_is_asked_twice(b: BalancerView, i: int, j: int)
    requires
        b.is_valid(),
        0 <= i < j < b.n,
    ensures
        (b.turn + i) % b.n != (b.turn + j) % b.n,
{
    if (b.turn + i) % b.n == (b.turn + j) % b.n {
        vstd::arithmetic::div_mod::lemma_mod_equivalence(b.turn + j, b.turn + i, b.n);
        vstd::arithmetic::div_mod::lemma_small_mod((j - i) as nat, b.n as nat);
    }
}

/// The state after so many clients, each taken by the first upstream asked.
pub open spec fn after_clients(b: BalancerView, clients: nat) -> BalancerView
    decreases clients,
{
    if clients == 0 {
        b
    } else {
        after_clients(b, (clients - 1) as nat).begin().0.proceed(true).0
    }
}

/// As long as the upstreams take what they are offered, they take turns: the
/// clients go to one after the other, over and over.
pub proof fn law_upstreams_take_turns(b: BalancerView, clients: nat)
    requires
        b.is_valid(),
        b.n > 0,
        b.phase == Phase::Idle,
        b.attempt == 0,
    ensures
        after_clients(b, clients) == (BalancerView { turn: (b.turn + clients) % b.n, ..b }),
    decreases clients,
{
    if clients == 0 {
        vstd::arithmetic::div_mod::lemma_small_mod(b.turn as nat, b.n as nat);
    } else {
        law_upstreams_take_turns(b, (clients - 1) as nat);
        let t = (b.turn + clients - 1) % b.n;
        vstd::arithmetic::div_mod::lemma_mod_bound(b.turn + clients - 1, b.n);
        vstd::arithmetic::div_mod::lemma_small_mod(t as nat, b.n as nat);
        vstd::arithmetic::div_mod::lemma_add_mod_noop(b.turn + clients - 1, 1, b.n);
        vstd::arithmetic::div_mod::lemma_add_mod_noop(t, 1, b.n);
        vstd::arithmetic::div_mod::lemma_mod_twice(b.turn + clients - 1, b.n);
    }
}

/// How often a connection to an upstream is tried.
pub const TRIES: u32 = 600;

/// How long to wait after a try that failed, in milliseconds.
pub const PAUSE: u64 = 100;

/// Tells whether to try once more to connect to an upstream, and how long to
/// wait if that fails.
pub fn next_try(tried: u32) -> (wait: Option<u64>)
    ensures
        wait == if tried < 600 {
            Some(100u64)
        } else {
            None::<u64>
        },
{
    if tried < TRIES {
        Some(PAUSE)
    } else {
        None
    }
}

/// A client is offered to the upstream whose turn it is; one that refuses is
/// reached anew, the same one, and offered the client once more; one that
/// takes it passes the turn on to the upstream behind it; one that cannot be
/// reached or refuses again is followed by the upstream behind it, until all
/// have been asked.
pub proof fn law_steps_of_a_client(b: BalancerView)
    requires
        b.is_valid(),
        b.n <= usize::MAX,
    ensures
        ({
            let i = (b.turn + b.attempt) % b.n;
            let (begun, first) = b.begin();
            let (after, then) = b.proceed(true);
            let (failed, next) = b.proceed(false);
            &&& b.n == 0 ==> first == Step::Dropped
            &&& b.n > 0 ==> first == Step::Pass(b.turn as usize) && begun.phase == Phase::Passing
                && begun.attempt == 0
            &&& begun.n == b.n && begun.turn == b.turn
            &&& b.phase == Phase::Passing || b.phase == Phase::Retrying ==> then == Step::Sent
                && after.phase == Phase::Idle && after.n == b.n && after.turn == (i + 1) % b.n
            &&& b.phase == Phase::Passing ==> next == Step::Reconnect(i as usize) && failed.phase
                == Phase::Connecting && failed.turn == b.turn && failed.attempt == b.attempt
                && failed.n == b.n
            &&& b.phase == Phase::Connecting ==> then == Step::Pass(i as usize) && after.phase
                == Phase::Retrying && after.turn == b.turn && after.attempt == b.attempt && after.n
                == b.n
            &&& (b.phase == Phase::Connecting || b.phase == Phase::Retrying) && b.attempt + 1 < b.n
                ==> next == Step::Pass(((b.turn + b.attempt + 1) % b.n) as usize) && failed.phase
                == Phase::Passing && failed.turn == b.turn && failed.attempt == b.attempt + 1
                && failed.n == b.n
            &&& (b.phase == Phase::Connecting || b.phase == Phase::Retrying) && b.attempt + 1 == b.n
                ==> next == Step::Dropped && failed.phase == Phase::Idle && failed.turn == b.turn
                && failed.n == b.n
        }),
{
}

} // verus!
