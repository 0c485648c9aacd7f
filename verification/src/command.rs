//! Players, ticks and commands, as the scheduling layer sees them.
//!
//! Scheduling moves commands it does not interpret: what a command asks a
//! unit to do travels as encoded bytes, and only who issued it and its
//! sequence number decide where it goes.

use vstd::prelude::*;

verus! {

/// A simulation tick number.
pub type Tick = u32;

/// One player in a match.
#[derive(Clone, Copy, PartialEq, Eq, PartialOrd, Ord, Hash, Debug, Structural)]
pub struct PlayerId(pub u8);

/// One command, as issued by a player.
#[derive(Clone, PartialEq, Eq, Debug)]
pub struct Command {
    pub player: PlayerId,
    /// Unique within a player within a tick; orders a player's commands.
    pub sequence: u16,
    /// What the command asks for, encoded. Opaque to scheduling.
    pub kind: Vec<u8>,
}

/// What a command holds.
pub struct CommandView {
    pub player: u8,
    pub sequence: u16,
    pub kind: Seq<u8>,
}

/// What a command holds.
pub open spec fn command_view(c: Command) -> CommandView {
    CommandView { player: c.player.0, sequence: c.sequence, kind: c.kind@ }
}

/// What each command in a list holds.
pub open spec fn command_views(s: Seq<Command>) -> Seq<CommandView> {
    s.map_values(|c: Command| command_view(c))
}

/// The total order commands run in: by player, then by sequence number.
pub open spec fn order_key(c: CommandView) -> int {
    c.player as int * 65536 + c.sequence as int
}

/// A copy of a byte string.
pub fn copy_bytes(v: &Vec<u8>) -> (r: Vec<u8>)
    ensures
        r@ == v@,
{
    let mut out: Vec<u8> = Vec::new();
    let mut i: usize = 0;
    while i < v.len()
        invariant
            i <= v@.len(),
            out@ == v@.take(i as int),
        decreases v@.len() - i,
    {
        out.push(v[i]);
        i = i + 1;
        assert(out@ =~= v@.take(i as int));
    }
    assert(v@.take(v@.len() as int) =~= v@);
    out
}

impl Command {
    pub fn new(player: PlayerId, sequence: u16, kind: Vec<u8>) -> (r: Command)
        ensures
            r.player == player,
            r.sequence == sequence,
            r.kind@ == kind@,
    {
        Command { player, sequence, kind }
    }

    /// The key commands are ordered by: player, then sequence.
    pub fn order_key(&self) -> (r: (u8, u16))
        ensures
            r == (self.player.0, self.sequence),
    {
        (self.player.0, self.sequence)
    }

    /// A copy of this command.
    pub fn duplicate(&self) -> (r: Command)
        ensures
            command_view(r) == command_view(*self),
    {
        Command { player: self.player, sequence: self.sequence, kind: copy_bytes(&self.kind) }
    }
}

/// A copy of a list of commands.
pub fn copy_commands(v: &Vec<Command>) -> (r: Vec<Command>)
    ensures
        command_views(r@) == command_views(v@),
{
    let mut out: Vec<Command> = Vec::new();
    let mut i: usize = 0;
    while i < v.len()
        invariant
            i <= v@.len(),
            command_views(out@) == command_views(v@.take(i as int)),
        decreases v@.len() - i,
    {
        let c = v[i].duplicate();
        let ghost before = out@;
        out.push(c);
        assert(command_views(out@) =~= command_views(before).push(command_view(c)));
        assert(v@.take(i + 1) =~= v@.take(i as int).push(v@[i as int]));
        assert(command_views(v@.take(i + 1)) =~= command_views(v@.take(i as int)).push(
            command_view(v@[i as int]),
        ));
        i = i + 1;
    }
    assert(v@.take(v@.len() as int) =~= v@);
    out
}

/// Where a stable insertion by order key puts `x`.
pub open spec fn order_insert_pos(s: Seq<CommandView>, x: CommandView) -> int
    decreases s.len(),
{
    if s.len() == 0 {
        0
    } else if order_key(x) < order_key(s[0]) {
        0
    } else {
        1 + order_insert_pos(s.drop_first(), x)
    }
}

/// Commands in their total order: sorted by order key, stably.
pub open spec fn order_sort(s: Seq<CommandView>) -> Seq<CommandView>
    decreases s.len(),
{
    if s.len() == 0 {
        Seq::empty()
    } else {
        let t = order_sort(s.drop_last());
        t.insert(order_insert_pos(t, s.last()), s.last())
    }
}

/// Order keys never decrease along `s`.
pub open spec fn in_total_order(s: Seq<CommandView>) -> bool {
    forall|i: int, j: int| 0 <= i < j < s.len() ==> order_key(#[trigger] s[i]) <= order_key(#[trigger] s[j])
}

proof fn lemma_order_insert_pos(s: Seq<CommandView>, x: CommandView)
    requires
        in_total_order(s),
    ensures
        0 <= order_insert_pos(s, x) <= s.len(),
        forall|i: int| 0 <= i < order_insert_pos(s, x) ==> order_key(#[trigger] s[i]) <= order_key(x),
        forall|i: int| order_insert_pos(s, x) <= i < s.len() ==> order_key(x) < order_key(#[trigger] s[i]),
    decreases s.len(),
{
    if s.len() > 0 {
        let t = s.drop_first();
        assert forall|i: int, j: int| 0 <= i < j < t.len() implies order_key(#[trigger] t[i]) <= order_key(#[trigger] t[j]) by {
            assert(t[i] == s[i + 1] && t[j] == s[j + 1]);
        }
        lemma_order_insert_pos(t, x);
        if order_key(x) < order_key(s[0]) {
            assert forall|i: int| 0 <= i < s.len() implies order_key(x) < order_key(#[trigger] s[i]) by {
                if i > 0 {
                    assert(order_key(s[0]) <= order_key(s[i]));
                }
            }
        } else {
            assert forall|i: int| 0 <= i < order_insert_pos(s, x) implies order_key(#[trigger] s[i]) <= order_key(x) by {
                if i > 0 {
                    assert(s[i] == t[i - 1]);
                }
            }
            assert forall|i: int| order_insert_pos(s, x) <= i < s.len() implies order_key(x) < order_key(#[trigger] s[i]) by {
                assert(s[i] == t[i - 1]);
            }
        }
    }
}

/// Commands put in their total order are in it.
pub proof fn lemma_order_sort_sorted(s: Seq<CommandView>)
    ensures
        in_total_order(order_sort(s)),
        order_sort(s).len() == s.len(),
    decreases s.len(),
{
    if s.len() > 0 {
        lemma_order_sort_sorted(s.drop_last());
        let t = order_sort(s.drop_last());
        let x = s.last();
        lemma_order_insert_pos(t, x);
        let p = order_insert_pos(t, x);
        let r = t.insert(p, x);
        assert forall|i: int, j: int| 0 <= i < j < r.len() implies order_key(#[trigger] r[i]) <= order_key(#[trigger] r[j]) by {
            if i < p && j < p {
                assert(r[i] == t[i] && r[j] == t[j]);
            } else if i < p && j == p {
                assert(r[i] == t[i] && r[j] == x);
            } else if i < p && j > p {
                assert(r[i] == t[i] && r[j] == t[j - 1]);
            } else if i == p {
                assert(r[i] == x && r[j] == t[j - 1]);
            } else {
                assert(r[i] == t[i - 1] && r[j] == t[j - 1]);
            }
        }
    }
}

/// Where a stable insertion by order key puts `x` among `out`.
fn command_insert_pos(out: &Vec<Command>, x: &Command) -> (r: usize)
    ensures
        r == order_insert_pos(command_views(out@), command_view(*x)),
{
    let key: u32 = (x.player.0 as u32) * 65536 + (x.sequence as u32);
    let ghost t = command_views(out@);
    let mut k: usize = 0;
    assert(t.skip(0) =~= t);
    while k < out.len()
        invariant
            k <= out@.len(),
            t == command_views(out@),
            key as int == order_key(command_view(*x)),
            order_insert_pos(t, command_view(*x)) == k + order_insert_pos(
                t.skip(k as int),
                command_view(*x),
            ),
        decreases out@.len() - k,
    {
        let other: u32 = (out[k].player.0 as u32) * 65536 + (out[k].sequence as u32);
        assert(t[k as int] == command_view(out@[k as int]));
        assert(t.skip(k as int)[0] == t[k as int]);
        if key < other {
            return k;
        }
        assert(t.skip(k as int).drop_first() =~= t.skip(k + 1));
        k = k + 1;
    }
    k
}

/// Puts commands in their total order: by player, then sequence, keeping
/// the arrival order of any two with the same key.
pub fn sort_commands(items: Vec<Command>) -> (r: Vec<Command>)
    ensures
        command_views(r@) == order_sort(command_views(items@)),
{
    let mut rest = items;
    let ghost input = rest@;
    let total = rest.len();
    let mut out: Vec<Command> = Vec::new();
    let mut i: usize = 0;
    assert(input.skip(0) =~= input);
    assert(command_views(input.take(0)) =~= Seq::<CommandView>::empty());
    while rest.len() > 0
        invariant
            i <= input.len(),
            input.len() == total,
            rest@ == input.skip(i as int),
            command_views(out@) == order_sort(command_views(input.take(i as int))),
        decreases rest@.len(),
    {
        let x = rest.remove(0);
        let ghost xs = command_views(input.take(i + 1));
        proof {
            assert(x == input[i as int]);
            assert(input.skip(i as int).drop_first() =~= input.skip(i + 1));
            assert(input.take(i + 1).drop_last() =~= input.take(i as int));
            assert(xs.drop_last() =~= command_views(input.take(i as int)));
            assert(xs.last() == command_view(x));
            lemma_order_sort_sorted(command_views(input.take(i as int)));
        }
        let ghost t = command_views(out@);
        let k = command_insert_pos(&out, &x);
        proof {
            lemma_order_insert_pos(t, command_view(x));
        }
        let ghost before = out@;
        out.insert(k, x);
        proof {
            assert(command_views(out@) =~= t.insert(k as int, command_view(x)));
        }
        i = i + 1;
    }
    assert(input.take(i as int) =~= input);
    out
}

} // verus!
