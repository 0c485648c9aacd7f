//! A client's side of joining a match.
//!
//! The client asks, and asks again until answered: the reply may be lost,
//! and the host treats a repeat from the same address as the same player.
//! The host repeats its acceptance whenever the request is repeated, so only
//! the first acceptance is news. A refusal ends the attempt; the start
//! signal begins the match only once the client has been accepted.

use vstd::prelude::*;
use crate::command::PlayerId;
use crate::lockstep::MIN_INPUT_DELAY;
use crate::protocol::{packet_view, Packet, PacketView, RejectReason};

verus! {

/// How long a client waits for an answer before asking again.
pub const REQUEST_INTERVAL_MS: u64 = 250;

/// What the host promised a client it accepted.
#[derive(Clone, Copy, PartialEq, Eq, Debug, Structural)]
pub struct Acceptance {
    /// The slot the client plays in.
    pub player: PlayerId,
    pub seed: u64,
    /// The input delay the host chose.
    pub input_delay: u32,
}

/// What a packet from the host means to a client waiting to join.
#[derive(Clone, Copy, PartialEq, Eq, Debug, Structural)]
pub enum JoinOutcome {
    /// Nothing that ends the wait.
    Waiting,
    /// The host refused, for this reason.
    Refused(RejectReason),
    /// The match begins, on these terms; the delay is never below the
    /// minimum a lockstep match runs with.
    Begin(Acceptance),
}

/// A client's progress in joining a match.
pub struct JoinAttempt {
    accepted: Option<Acceptance>,
    last_request_ms: Option<u64>,
}

/// Whether a client that last asked at `last` (if ever) and holds
/// `accepted` asks again at `now_ms`: only while unanswered, and only once
/// the request interval has passed.
pub open spec fn request_due_at(accepted: Option<Acceptance>, last: Option<u64>, now_ms: u64) -> bool {
    accepted is None && match last {
        None => true,
        Some(t) => now_ms > t && now_ms - t > REQUEST_INTERVAL_MS,
    }
}

/// The terms a match begins on: the host's, with the delay raised to the
/// minimum.
pub open spec fn begin_terms(a: Acceptance) -> Acceptance {
    Acceptance {
        input_delay: if a.input_delay < MIN_INPUT_DELAY {
            MIN_INPUT_DELAY
        } else {
            a.input_delay
        },
        ..a
    }
}

/// The terms a packet offers, when it is an acceptance.
pub open spec fn acceptance_in(p: PacketView) -> Option<Acceptance> {
    match p {
        PacketView::JoinAccepted { player, seed, input_delay, .. } => Some(
            Acceptance { player: PlayerId(player), seed, input_delay },
        ),
        _ => None,
    }
}

/// What a client holds after a packet: the first acceptance is kept.
pub open spec fn accept_step(held: Option<Acceptance>, p: PacketView) -> Option<Acceptance> {
    match held {
        Some(_) => held,
        None => acceptance_in(p),
    }
}

/// What a packet means to a client holding `held`: a refusal ends the
/// attempt, the start signal begins the match once accepted, and nothing
/// else ends the wait.
pub open spec fn outcome_of(held: Option<Acceptance>, p: PacketView) -> JoinOutcome {
    match p {
        PacketView::JoinRejected { reason } => JoinOutcome::Refused(reason),
        PacketView::Start => match held {
            Some(a) => JoinOutcome::Begin(begin_terms(a)),
            None => JoinOutcome::Waiting,
        },
        _ => JoinOutcome::Waiting,
    }
}

/// What a client holds after a run of packets.
pub open spec fn held_after(held: Option<Acceptance>, ps: Seq<PacketView>) -> Option<Acceptance>
    decreases ps.len(),
{
    if ps.len() == 0 {
        held
    } else {
        accept_step(held_after(held, ps.drop_last()), ps.last())
    }
}

/// Whether packet `i` is the first acceptance in `ps`.
pub open spec fn is_first_acceptance(ps: Seq<PacketView>, i: int) -> bool {
    &&& 0 <= i < ps.len()
    &&& acceptance_in(ps[i]) is Some
    &&& forall|j: int| 0 <= j < i ==> (#[trigger] acceptance_in(ps[j])) is None
}

impl JoinAttempt {
    /// An attempt that has asked nothing and heard nothing.
    pub fn new() -> (r: JoinAttempt)
        ensures
            r.acceptance() is None,
            r.last_request() is None,
    {
        JoinAttempt { accepted: None, last_request_ms: None }
    }

    /// What the host has promised, once it has accepted.
    pub closed spec fn acceptance(&self) -> Option<Acceptance> {
        self.accepted
    }

    /// When the request was last sent.
    pub closed spec fn last_request(&self) -> Option<u64> {
        self.last_request_ms
    }

    /// What the host has promised, once it has accepted.
    pub fn accepted(&self) -> (r: Option<Acceptance>)
        ensures
            r == self.acceptance(),
    {
        self.accepted
    }

    /// Whether to send the join request at `now_ms`; when it is due, the
    /// send is remembered.
    pub fn request_due(&mut self, now_ms: u64) -> (r: bool)
        ensures
            r == request_due_at(old(self).acceptance(), old(self).last_request(), now_ms),
            final(self).last_request() == if r {
                Some(now_ms)
            } else {
                old(self).last_request()
            },
            final(self).acceptance() == old(self).acceptance(),
    {
        if self.accepted.is_some() {
            return false;
        }
        let due = match self.last_request_ms {
            None => true,
            Some(t) => now_ms > t && now_ms - t > REQUEST_INTERVAL_MS,
        };
        if due {
            self.last_request_ms = Some(now_ms);
        }
        due
    }

    /// What a packet from the host means, as `outcome_of` says, and what
    /// the client holds after it, as `accept_step` says.
    pub fn receive(&mut self, packet: &Packet) -> (r: JoinOutcome)
        ensures
            r == outcome_of(old(self).acceptance(), packet_view(*packet)),
            final(self).acceptance() == accept_step(old(self).acceptance(), packet_view(*packet)),
            final(self).last_request() == old(self).last_request(),
    {
        match packet {
            Packet::JoinAccepted { player, seed, input_delay, .. } => {
                if self.accepted.is_none() {
                    self.accepted = Some(
                        Acceptance { player: *player, seed: *seed, input_delay: *input_delay },
                    );
                }
                JoinOutcome::Waiting
            },
            Packet::JoinRejected { reason } => JoinOutcome::Refused(*reason),
            Packet::Start => match self.accepted {
                Some(a) => {
                    let input_delay = if a.input_delay < MIN_INPUT_DELAY {
                        MIN_INPUT_DELAY
                    } else {
                        a.input_delay
                    };
                    JoinOutcome::Begin(Acceptance { input_delay, ..a })
                },
                None => JoinOutcome::Waiting,
            },
            _ => JoinOutcome::Waiting,
        }
    }
}

/// Requests are spaced: after a request at `sent`, none is due again until
/// more than the request interval has passed, and none at all once the
/// host has accepted.
pub proof fn lemma_requests_are_spaced(accepted: Option<Acceptance>, sent: u64, later: u64)
    requires
        sent <= later,
        later - sent <= REQUEST_INTERVAL_MS || accepted is Some,
    ensures
        !request_due_at(accepted, Some(sent), later),
{
}

/// Once accepted, a client keeps the terms it was given, whatever follows.
pub proof fn lemma_acceptance_kept(a: Acceptance, ps: Seq<PacketView>)
    ensures
        held_after(Some(a), ps) == Some(a),
    decreases ps.len(),
{
    if ps.len() > 0 {
        lemma_acceptance_kept(a, ps.drop_last());
    }
}

/// Only the first acceptance is news: after any run of packets, a client
/// that started with nothing holds the terms of the first acceptance among
/// them, and nothing when there was none. So the match begins on those
/// terms, and never before an acceptance.
pub proof fn lemma_first_acceptance_wins(ps: Seq<PacketView>)
    ensures
        forall|i: int| is_first_acceptance(ps, i) ==> held_after(None, ps) == acceptance_in(ps[i]),
        (forall|i: int| 0 <= i < ps.len() ==> (#[trigger] acceptance_in(ps[i])) is None) ==> held_after(
            None,
            ps,
        ) is None,
        outcome_of(held_after(None, ps), PacketView::Start) is Begin ==> exists|i: int|
            is_first_acceptance(ps, i),
    decreases ps.len(),
{
    if ps.len() > 0 {
        let init = ps.drop_last();
        lemma_first_acceptance_wins(init);
        assert forall|i: int| is_first_acceptance(ps, i) implies held_after(None, ps)
            == acceptance_in(ps[i]) by {
            if i < ps.len() - 1 {
                assert(is_first_acceptance(init, i)) by {
                    assert forall|j: int| 0 <= j < i implies (#[trigger] acceptance_in(init[j])) is None by {
                        assert(init[j] == ps[j]);
                    }
                    assert(init[i] == ps[i]);
                }
                assert(init[i] == ps[i]);
            } else {
                assert forall|j: int| 0 <= j < init.len() implies (#[trigger] acceptance_in(
                    init[j],
                )) is None by {
                    assert(init[j] == ps[j]);
                }
            }
        }
        if forall|i: int| 0 <= i < ps.len() ==> (#[trigger] acceptance_in(ps[i])) is None {
            assert forall|j: int| 0 <= j < init.len() implies (#[trigger] acceptance_in(
                init[j],
            )) is None by {
                assert(init[j] == ps[j]);
                assert(acceptance_in(ps[j]) is None);
            }
            assert(acceptance_in(ps[ps.len() - 1]) is None);
        }
        if outcome_of(held_after(None, ps), PacketView::Start) is Begin {
            if exists|i: int| is_first_acceptance(init, i) {
                let i = choose|i: int| is_first_acceptance(init, i);
                assert(init[i] == ps[i]);
                assert forall|j: int| 0 <= j < i implies (#[trigger] acceptance_in(ps[j])) is None by {
                    assert(init[j] == ps[j]);
                    assert(acceptance_in(init[j]) is None);
                }
                assert(is_first_acceptance(ps, i));
            } else {
                assert(held_after(None, init) is None);
                let k = ps.len() - 1;
                assert(acceptance_in(ps[k]) is Some);
                assert forall|j: int| 0 <= j < k implies (#[trigger] acceptance_in(ps[j])) is None by {
                    assert(init[j] == ps[j]);
                    if acceptance_in(init[j]) is Some {
                        assert(exists|i: int| 0 <= i < init.len() && acceptance_in(init[i]) is Some);
                        lemma_some_acceptance_has_a_first(init);
                    }
                }
                assert(is_first_acceptance(ps, k));
            }
        }
    }
}

/// Where some packet is an acceptance, one of them is the first.
proof fn lemma_some_acceptance_has_a_first(ps: Seq<PacketView>)
    requires
        exists|i: int| 0 <= i < ps.len() && (#[trigger] acceptance_in(ps[i])) is Some,
    ensures
        exists|i: int| is_first_acceptance(ps, i),
    decreases ps.len(),
{
    let init = ps.drop_last();
    if exists|i: int| 0 <= i < init.len() && (#[trigger] acceptance_in(init[i])) is Some {
        let w = choose|i: int| 0 <= i < init.len() && (#[trigger] acceptance_in(init[i])) is Some;
        assert(init[w] == ps[w]);
        lemma_some_acceptance_has_a_first(init);
        let i = choose|i: int| is_first_acceptance(init, i);
        assert(init[i] == ps[i]);
        assert forall|j: int| 0 <= j < i implies (#[trigger] acceptance_in(ps[j])) is None by {
            assert(init[j] == ps[j]);
        }
        assert(is_first_acceptance(ps, i));
    } else {
        let k = ps.len() - 1;
        let w = choose|i: int| 0 <= i < ps.len() && (#[trigger] acceptance_in(ps[i])) is Some;
        if w < k {
            assert(init[w] == ps[w]);
        }
        assert forall|j: int| 0 <= j < k implies (#[trigger] acceptance_in(ps[j])) is None by {
            assert(init[j] == ps[j]);
        }
        assert(is_first_acceptance(ps, k));
    }
}

} // verus!
