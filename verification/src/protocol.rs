//! Wire format: everything two peers say to each other, and the framing
//! that keeps other applications' traffic out.
//!
//! A packet's body is its serialised form; on the wire it is preceded by
//! four magic bytes. A datagram without them is not ours and is dropped
//! quietly: the network is shared, and other applications' packets are not
//! errors. A packet that would not fit one datagram is refused rather than
//! truncated, since a truncated packet could decode into a different order.

use vstd::prelude::*;
use crate::command::{command_views, Command, CommandView, PlayerId, Tick};
use crate::text::{append_decimal, decimal};

verus! {

/// Bumped whenever the wire format or the simulation's behaviour changes.
/// Two peers must agree exactly.
pub const PROTOCOL_VERSION: u32 = 1;

/// UDP port used for LAN discovery announcements.
pub const DISCOVERY_PORT: u16 = 47654;

/// Default port a host listens on for gameplay traffic.
pub const DEFAULT_GAME_PORT: u16 = 47655;

/// How many past ticks each packet repeats. Three covers a single loss plus
/// a reordering.
pub const REDUNDANT_TICKS: usize = 3;

/// Largest datagram we will send or accept: inside the smallest MTU in
/// practical use, so packets are never fragmented.
pub const MAX_PACKET_BYTES: usize = 1200;

/// The magic bytes at the head of every datagram: `RSFT`.
pub open spec fn magic() -> Seq<u8> {
    seq![82u8, 83u8, 70u8, 84u8]
}

/// The magic bytes at the head of every datagram.
pub fn magic_bytes() -> (r: [u8; 4])
    ensures
        r@ == magic(),
{
    let r: [u8; 4] = [82u8, 83u8, 70u8, 84u8];
    assert(r@ =~= magic());
    r
}

/// One player's commands for one tick. Sent even when empty: a silent
/// player and a disconnected one must be distinguishable.
#[derive(Clone, PartialEq, Eq, Debug)]
pub struct TurnCommands {
    pub tick: Tick,
    pub player: PlayerId,
    pub commands: Vec<Command>,
}

/// A state hash for one tick.
#[derive(Clone, Copy, PartialEq, Eq, Debug, Structural)]
pub struct StateCheck {
    pub tick: Tick,
    pub hash: u64,
}

/// What a host broadcasts so clients can list it.
#[derive(Clone, PartialEq, Eq, Debug)]
pub struct Announce {
    pub protocol: u32,
    pub match_name: String,
    pub map_name: String,
    pub players: u8,
    pub max_players: u8,
    /// Port to connect on, carried explicitly so a host on a non-default
    /// port is still reachable.
    pub game_port: u16,
    pub in_progress: bool,
}

/// Why a host refused a join.
#[derive(Clone, Copy, PartialEq, Eq, Debug, Structural)]
pub enum RejectReason {
    /// Different build. Carries what the host has, so the client can say so.
    ProtocolMismatch { host_protocol: u32 },
    /// Same protocol, different rules data, which would still desync.
    RulesMismatch { host_rules_hash: u64 },
    MatchFull,
    AlreadyStarted,
}

/// A player in the lobby.
#[derive(Clone, PartialEq, Eq, Debug)]
pub struct PlayerSlot {
    pub id: PlayerId,
    pub name: String,
    pub ready: bool,
}

/// A datagram.
#[derive(Clone, PartialEq, Eq, Debug)]
pub enum Packet {
    /// Broadcast by a host so clients on the same network can find it.
    Announce(Announce),
    /// Client asks to join, with the hash of the rules it loaded.
    JoinRequest { protocol: u32, rules_hash: u64, player_name: String },
    /// Host accepts, assigning a slot and the match parameters.
    JoinAccepted { player: PlayerId, seed: u64, input_delay: u32, players: Vec<PlayerSlot> },
    /// Host refuses, with a reason the player can act on.
    JoinRejected { reason: RejectReason },
    /// Gameplay: this tick and up to `REDUNDANT_TICKS` before it, and a
    /// state hash for a tick already executed when one is due.
    Turn { tick: Tick, turns: Vec<TurnCommands>, hash: Option<StateCheck> },
    /// Everyone is ready; begin at tick zero.
    Start,
    /// Sent on a clean exit, so peers do not wait out the timeout.
    Leave { player: PlayerId },
    /// Divergence detected. The sender is halting and so should everyone.
    DesyncHalt { tick: Tick, sender_hash: u64, expected_hash: u64 },
    /// Liveness probe, used to measure round-trip time.
    Ping { nonce: u64 },
    Pong { nonce: u64 },
}

/// What a turn holds.
pub struct TurnView {
    pub tick: Tick,
    pub player: u8,
    pub commands: Seq<CommandView>,
}

/// What a lobby slot holds.
pub struct SlotView {
    pub id: u8,
    pub name: Seq<char>,
    pub ready: bool,
}

/// What an announcement holds.
pub struct AnnounceView {
    pub protocol: u32,
    pub match_name: Seq<char>,
    pub map_name: Seq<char>,
    pub players: u8,
    pub max_players: u8,
    pub game_port: u16,
    pub in_progress: bool,
}

/// What a packet holds.
pub enum PacketView {
    Announce(AnnounceView),
    JoinRequest { protocol: u32, rules_hash: u64, player_name: Seq<char> },
    JoinAccepted { player: u8, seed: u64, input_delay: u32, players: Seq<SlotView> },
    JoinRejected { reason: RejectReason },
    Turn { tick: Tick, turns: Seq<TurnView>, hash: Option<StateCheck> },
    Start,
    Leave { player: u8 },
    DesyncHalt { tick: Tick, sender_hash: u64, expected_hash: u64 },
    Ping { nonce: u64 },
    Pong { nonce: u64 },
}

pub open spec fn turn_view(t: TurnCommands) -> TurnView {
    TurnView { tick: t.tick, player: t.player.0, commands: command_views(t.commands@) }
}

pub open spec fn slot_view(s: PlayerSlot) -> SlotView {
    SlotView { id: s.id.0, name: s.name@, ready: s.ready }
}

pub open spec fn announce_view(a: Announce) -> AnnounceView {
    AnnounceView {
        protocol: a.protocol,
        match_name: a.match_name@,
        map_name: a.map_name@,
        players: a.players,
        max_players: a.max_players,
        game_port: a.game_port,
        in_progress: a.in_progress,
    }
}

pub open spec fn packet_view(p: Packet) -> PacketView {
    match p {
        Packet::Announce(a) => PacketView::Announce(announce_view(a)),
        Packet::JoinRequest { protocol, rules_hash, player_name } => PacketView::JoinRequest {
            protocol,
            rules_hash,
            player_name: player_name@,
        },
        Packet::JoinAccepted { player, seed, input_delay, players } => PacketView::JoinAccepted {
            player: player.0,
            seed,
            input_delay,
            players: players@.map_values(|s: PlayerSlot| slot_view(s)),
        },
        Packet::JoinRejected { reason } => PacketView::JoinRejected { reason },
        Packet::Turn { tick, turns, hash } => PacketView::Turn {
            tick,
            turns: turns@.map_values(|t: TurnCommands| turn_view(t)),
            hash,
        },
        Packet::Start => PacketView::Start,
        Packet::Leave { player } => PacketView::Leave { player: player.0 },
        Packet::DesyncHalt { tick, sender_hash, expected_hash } => PacketView::DesyncHalt {
            tick,
            sender_hash,
            expected_hash,
        },
        Packet::Ping { nonce } => PacketView::Ping { nonce },
        Packet::Pong { nonce } => PacketView::Pong { nonce },
    }
}

/// How a refusal reads to the player who was refused.
pub open spec fn reject_text(r: RejectReason) -> Seq<char> {
    match r {
        RejectReason::ProtocolMismatch { host_protocol } => "Different game version: the host speaks protocol "@
            + decimal(host_protocol as nat) + ", this build speaks "@ + decimal(
            PROTOCOL_VERSION as nat,
        ) + "."@,
        RejectReason::RulesMismatch { .. } =>
            "The host's game rules differ from yours. Both sides need the same build and the same rules files."@,
        RejectReason::MatchFull => "That match is full."@,
        RejectReason::AlreadyStarted => "That match has already started."@,
    }
}

impl RejectReason {
    /// A message fit to show a player: a sentence, ending in a full stop.
    pub fn describe(&self) -> (r: String)
        ensures
            r@ == reject_text(*self),
    {
        match self {
            RejectReason::ProtocolMismatch { host_protocol } => {
                let mut s = String::from_str("Different game version: the host speaks protocol ");
                append_decimal(&mut s, *host_protocol as u64);
                s.append(", this build speaks ");
                append_decimal(&mut s, PROTOCOL_VERSION as u64);
                s.append(".");
                s
            },
            RejectReason::RulesMismatch { .. } => String::from_str(
                "The host's game rules differ from yours. Both sides need the same build and the same rules files.",
            ),
            RejectReason::MatchFull => String::from_str("That match is full."),
            RejectReason::AlreadyStarted => String::from_str("That match has already started."),
        }
    }
}

/// Why a packet could not be put on the wire.
#[derive(Clone, Copy, PartialEq, Eq, Debug, Structural)]
pub enum EncodeError {
    Serialisation,
    TooLarge { size: usize, limit: usize },
}

/// How an encoding failure reads.
pub open spec fn encode_error_text(e: EncodeError) -> Seq<char> {
    match e {
        EncodeError::Serialisation => "could not serialise packet"@,
        EncodeError::TooLarge { size, limit } => "packet is "@ + decimal(size as nat)
            + " bytes, over the "@ + decimal(limit as nat) + " byte limit"@,
    }
}

impl EncodeError {
    /// The error as a sentence.
    pub fn to_string(&self) -> (r: String)
        ensures
            r@ == encode_error_text(*self),
    {
        match self {
            EncodeError::Serialisation => String::from_str("could not serialise packet"),
            EncodeError::TooLarge { size, limit } => {
                let mut s = String::from_str("packet is ");
                append_decimal(&mut s, *size as u64);
                s.append(" bytes, over the ");
                append_decimal(&mut s, *limit as u64);
                s.append(" byte limit");
                s
            },
        }
    }
}

/// Why a packet could not be sent.
#[derive(Debug)]
pub enum SendError {
    /// It could not be put on the wire: a bug in the caller.
    Encode(EncodeError),
    /// The socket refused it; the operating system's words. Usually
    /// transient, and worth retrying next tick.
    Io(String),
}

/// How a send failure reads.
pub open spec fn send_error_text(e: SendError) -> Seq<char> {
    match e {
        SendError::Encode(inner) => "could not encode packet: "@ + encode_error_text(inner),
        SendError::Io(m) => "could not send packet: "@ + m@,
    }
}

impl SendError {
    /// The error as a sentence.
    pub fn to_string(&self) -> (r: String)
        ensures
            r@ == send_error_text(*self),
    {
        match self {
            SendError::Encode(inner) => {
                let mut s = String::from_str("could not encode packet: ");
                let t = inner.to_string();
                s.append(t.as_str());
                s
            },
            SendError::Io(m) => {
                let mut s = String::from_str("could not send packet: ");
                s.append(m.as_str());
                s
            },
        }
    }
}

/// What framing a body gives: the magic, then the body, or a refusal when
/// the whole would not fit one datagram.
pub open spec fn framed(body: Seq<u8>) -> Result<Seq<u8>, EncodeError> {
    if body.len() + 4 > MAX_PACKET_BYTES {
        Err(EncodeError::TooLarge { size: (body.len() + 4) as usize, limit: MAX_PACKET_BYTES })
    } else {
        Ok(magic() + body)
    }
}

/// What unframing a datagram gives: its body when it carries our magic.
pub open spec fn unframed(bytes: Seq<u8>) -> Option<Seq<u8>> {
    if bytes.len() >= 4 && bytes.take(4) == magic() {
        Some(bytes.skip(4))
    } else {
        None
    }
}

/// Frames a serialised packet for the wire.
///
/// Refuses a packet that would not fit in `MAX_PACKET_BYTES`. That is a bug
/// in the caller, since commands are meant to be small, and truncating
/// instead would produce a packet that decodes into a different game action.
pub fn encode(body: &[u8]) -> (r: Result<Vec<u8>, EncodeError>)
    requires
        body@.len() + 4 <= usize::MAX,
    ensures
        match r {
            Ok(v) => framed(body@) == Ok::<Seq<u8>, EncodeError>(v@),
            Err(e) => framed(body@) == Err::<Seq<u8>, EncodeError>(e),
        },
{
    if body.len() > MAX_PACKET_BYTES - 4 {
        return Err(EncodeError::TooLarge { size: body.len() + 4, limit: MAX_PACKET_BYTES });
    }
    let head = magic_bytes();
    let mut out: Vec<u8> = Vec::new();
    let mut i: usize = 0;
    while i < 4
        invariant
            i <= 4,
            head@ == magic(),
            out@ == magic().take(i as int),
        decreases 4 - i,
    {
        out.push(head[i]);
        i = i + 1;
        assert(out@ =~= magic().take(i as int));
    }
    let mut j: usize = 0;
    while j < body.len()
        invariant
            j <= body@.len(),
            out@ == magic() + body@.take(j as int),
        decreases body@.len() - j,
    {
        out.push(body[j]);
        j = j + 1;
        assert(out@ =~= magic() + body@.take(j as int));
    }
    assert(body@.take(body@.len() as int) =~= body@);
    Ok(out)
}

/// The body of a datagram, or `None` for anything that is not ours:
/// stray broadcast traffic, or something shorter than the magic.
pub fn decode(bytes: &[u8]) -> (r: Option<Vec<u8>>)
    ensures
        match r {
            Some(v) => unframed(bytes@) == Some(v@),
            None => unframed(bytes@) is None,
        },
{
    if bytes.len() < 4 {
        return None;
    }
    let head = magic_bytes();
    let mut i: usize = 0;
    while i < 4
        invariant
            i <= 4 <= bytes@.len(),
            head@ == magic(),
            forall|k: int| 0 <= k < i ==> bytes@[k] == magic()[k],
        decreases 4 - i,
    {
        if bytes[i] != head[i] {
            assert(bytes@.take(4)[i as int] != magic()[i as int]);
            return None;
        }
        i = i + 1;
    }
    assert(bytes@.take(4) =~= magic());
    let mut out: Vec<u8> = Vec::new();
    let mut j: usize = 4;
    while j < bytes.len()
        invariant
            4 <= j <= bytes@.len(),
            out@ == bytes@.subrange(4, j as int),
        decreases bytes@.len() - j,
    {
        out.push(bytes[j]);
        j = j + 1;
        assert(out@ =~= bytes@.subrange(4, j as int));
    }
    assert(out@ =~= bytes@.skip(4));
    Some(out)
}

/// What goes out comes back: a framed body unframes to itself.
pub proof fn lemma_framing_roundtrip(body: Seq<u8>)
    ensures
        framed(body) matches Ok(bytes) ==> unframed(bytes) == Some(body),
        body.len() + 4 <= MAX_PACKET_BYTES ==> framed(body) is Ok,
{
    if body.len() + 4 <= MAX_PACKET_BYTES {
        let bytes = magic() + body;
        assert(bytes.take(4) =~= magic());
        assert(bytes.skip(4) =~= body);
    }
}

/// Foreign traffic is ignored, not misparsed: a datagram that does not
/// open with the magic has no body.
pub proof fn lemma_foreign_traffic_ignored(bytes: Seq<u8>)
    requires
        bytes.len() < 4 || exists|i: int| 0 <= i < 4 && bytes[i] != #[trigger] magic()[i],
    ensures
        unframed(bytes) is None,
{
    if bytes.len() >= 4 && bytes.take(4) == magic() {
        let i = choose|i: int| 0 <= i < 4 && bytes[i] != #[trigger] magic()[i];
        assert(bytes.take(4)[i] == bytes[i]);
    }
}

/// Oversized packets are refused rather than truncated, and the refusal
/// says by how much.
pub proof fn lemma_oversized_refused(body: Seq<u8>)
    requires
        body.len() + 4 > MAX_PACKET_BYTES,
        body.len() + 4 <= usize::MAX,
    ensures
        framed(body) == Err::<Seq<u8>, EncodeError>(
            EncodeError::TooLarge { size: (body.len() + 4) as usize, limit: MAX_PACKET_BYTES },
        ),
{
}

} // verus!
