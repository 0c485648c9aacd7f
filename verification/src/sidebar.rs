//! What the build panel says: what the player can start building, what is
//! being built, and the credits.
//!
//! The build list comes from the rules, not from a constant: a kind is on
//! offer when it is bought at all, something the player has makes it, its
//! prerequisites are met and its build limit is not reached. It is read
//! afresh every time rather than cached, since a cache would be one missed
//! invalidation from offering something the player cannot have. The panel
//! is rebuilt only when what it should say has changed: one respawned every
//! frame would eat every click.

use vstd::prelude::*;
use crate::command::PlayerId;
use crate::outlook::{EntityId, EntityKind, KindFacts};
use crate::text::{append_decimal, decimal};

verus! {

/// Whether a kind is on offer to the player.
pub open spec fn on_offer(k: KindFacts) -> bool {
    k.cost != 0 && k.producer is Some && k.prerequisites_met && k.within_build_limit
}

/// The kinds on offer among the first `n`, in the order the rules list
/// them.
pub open spec fn offers(kinds: Seq<KindFacts>, n: nat) -> Seq<EntityKind>
    decreases n,
{
    if n == 0 {
        Seq::empty()
    } else if on_offer(kinds[n - 1]) {
        offers(kinds, (n - 1) as nat).push((n - 1) as EntityKind)
    } else {
        offers(kinds, (n - 1) as nat)
    }
}

/// Everything the player could start building right now, as `offers` says.
pub fn buildable_now(kinds: &Vec<KindFacts>) -> (r: Vec<EntityKind>)
    requires
        kinds@.len() <= 65536,
    ensures
        r@ == offers(kinds@, kinds@.len()),
{
    let mut out: Vec<EntityKind> = Vec::new();
    let mut i: usize = 0;
    while i < kinds.len()
        invariant
            i <= kinds@.len() <= 65536,
            out@ == offers(kinds@, i as nat),
        decreases kinds@.len() - i,
    {
        let k = &kinds[i];
        if k.cost != 0 && k.producer.is_some() && k.prerequisites_met && k.within_build_limit {
            out.push(i as EntityKind);
        }
        i = i + 1;
    }
    out
}

/// The credits line: a dollar sign and the amount.
pub fn credits_label(credits: u32) -> (r: String)
    ensures
        r@ == seq!['$'] + decimal(credits as nat),
{
    proof {
        reveal_strlit("$");
    }
    let mut s = String::from_str("$");
    append_decimal(&mut s, credits as u64);
    s
}

/// A build row's label: the kind's name, two spaces, and its price.
pub fn build_label(name: &str, cost: u32) -> (r: String)
    ensures
        r@ == name@ + seq![' ', ' ', '$'] + decimal(cost as nat),
{
    proof {
        reveal_strlit("  $");
    }
    let mut s = String::from_str(name);
    s.append("  $");
    append_decimal(&mut s, cost as u64);
    s
}

/// How far along an item is, in percent. An item that takes no time is
/// finished the moment it starts, which the rules allow.
pub open spec fn percent_done(progress: u32, duration: u32) -> int {
    if duration == 0 {
        100
    } else {
        progress * 100 / (duration as int)
    }
}

/// How far along an item is, as `percent_done` says.
pub fn progress_percent(progress: u32, duration: u32) -> (r: u64)
    ensures
        r == percent_done(progress, duration),
{
    if duration == 0 {
        100
    } else {
        (progress as u64) * 100 / (duration as u64)
    }
}

/// A queue row's label: the item's name, two spaces, and how far along it
/// is in percent.
pub fn queue_label(name: &str, percent: u64) -> (r: String)
    ensures
        r@ == name@ + seq![' ', ' '] + decimal(percent as nat) + seq!['%'],
{
    proof {
        reveal_strlit("  ");
        reveal_strlit("%");
    }
    let mut s = String::from_str(name);
    s.append("  ");
    append_decimal(&mut s, percent);
    s.append("%");
    s
}

/// One item waiting in a production queue.
pub struct QueueItem {
    /// The name the rules give its kind.
    pub name: String,
    pub progress: u32,
    pub duration: u32,
}

/// One building's production queue.
pub struct ProductionLine {
    pub building: EntityId,
    pub owner: PlayerId,
    pub items: Vec<QueueItem>,
}

/// One row of the queue list: which building, which place in its queue,
/// and what the row says.
pub struct QueueRow {
    pub building: EntityId,
    pub index: u8,
    pub label: String,
}

/// What a queue row says.
pub struct QueueRowView {
    pub building: EntityId,
    pub index: u8,
    pub label: Seq<char>,
}

/// What each queue row says.
pub open spec fn queue_row_views(s: Seq<QueueRow>) -> Seq<QueueRowView> {
    s.map_values(|r: QueueRow| QueueRowView { building: r.building, index: r.index, label: r.label@ })
}

/// The rows for the first `n` items of one building's queue.
pub open spec fn item_rows(line: ProductionLine, n: nat) -> Seq<QueueRowView>
    decreases n,
{
    if n == 0 {
        Seq::empty()
    } else {
        let item = line.items@[n - 1];
        item_rows(line, (n - 1) as nat).push(
            QueueRowView {
                building: line.building,
                index: (n - 1) as u8,
                label: item.name@ + seq![' ', ' '] + decimal(
                    percent_done(item.progress, item.duration) as nat,
                ) + seq!['%'],
            },
        )
    }
}

/// The queue rows of `player`'s first `n` production lines: every item of
/// every queue of theirs, building by building, each queue in order.
pub open spec fn queue_rows_of(player: PlayerId, lines: Seq<ProductionLine>, n: nat) -> Seq<
    QueueRowView,
>
    decreases n,
{
    if n == 0 {
        Seq::empty()
    } else {
        let line = lines[n - 1];
        let before = queue_rows_of(player, lines, (n - 1) as nat);
        if line.owner == player {
            before + item_rows(line, line.items@.len())
        } else {
            before
        }
    }
}

/// What the queue list should show, as `queue_rows_of` says.
pub fn queue_rows(player: PlayerId, lines: &Vec<ProductionLine>) -> (r: Vec<QueueRow>)
    ensures
        queue_row_views(r@) == queue_rows_of(player, lines@, lines@.len()),
{
    let mut out: Vec<QueueRow> = Vec::new();
    let mut i: usize = 0;
    while i < lines.len()
        invariant
            i <= lines@.len(),
            queue_row_views(out@) == queue_rows_of(player, lines@, i as nat),
        decreases lines@.len() - i,
    {
        let line = &lines[i];
        if line.owner == player {
            let ghost start = queue_row_views(out@);
            let mut k: usize = 0;
            while k < line.items.len()
                invariant
                    k <= line.items@.len(),
                    *line == lines@[i as int],
                    queue_row_views(out@) == start + item_rows(*line, k as nat),
                decreases line.items@.len() - k,
            {
                let item = &line.items[k];
                let percent = progress_percent(item.progress, item.duration);
                let label = queue_label(item.name.as_str(), percent);
                let ghost prev = out@;
                out.push(QueueRow { building: line.building, index: k as u8, label });
                assert(queue_row_views(out@) =~= queue_row_views(prev).push(
                    QueueRowView { building: line.building, index: k as u8, label: label@ },
                ));
                assert(start + item_rows(*line, (k + 1) as nat) =~= (start + item_rows(
                    *line,
                    k as nat,
                )).push(QueueRowView { building: line.building, index: k as u8, label: label@ }));
                k = k + 1;
            }
        }
        i = i + 1;
    }
    out
}

/// Whether the build list on screen must be rebuilt: whenever the kinds on
/// offer are not the ones shown, in the same order.
pub fn build_list_stale(shown: &Vec<EntityKind>, wanted: &Vec<EntityKind>) -> (r: bool)
    ensures
        r == (shown@ != wanted@),
{
    if shown.len() != wanted.len() {
        return true;
    }
    let mut i: usize = 0;
    while i < shown.len()
        invariant
            shown@.len() == wanted@.len(),
            i <= shown@.len(),
            forall|j: int| 0 <= j < i ==> shown@[j] == wanted@[j],
        decreases shown@.len() - i,
    {
        if shown[i] != wanted[i] {
            return true;
        }
        i = i + 1;
    }
    assert(shown@ =~= wanted@);
    false
}

/// Whether the queue list on screen must be rebuilt. The labels carry the
/// progress, so a list that only advances must still be redrawn: it is
/// rebuilt whenever its rows differ from those wanted, and whenever
/// anything is queued at all. Put together, that is whenever either list
/// has anything in it.
pub fn queue_list_stale(shown: &Vec<(EntityId, u8)>, wanted: &Vec<(EntityId, u8)>) -> (r: bool)
    ensures
        r == (shown@.len() != 0 || wanted@.len() != 0),
{
    let mut rows_differ = shown.len() != wanted.len();
    let mut i: usize = 0;
    while i < shown.len() && i < wanted.len()
        invariant
            i <= shown@.len(),
            i <= wanted@.len(),
            rows_differ ==> (shown@.len() != 0 || wanted@.len() != 0),
            shown@.len() != wanted@.len() ==> rows_differ,
        decreases shown@.len() - i,
    {
        let (b0, i0) = shown[i];
        let (b1, i1) = wanted[i];
        if b0 != b1 || i0 != i1 {
            rows_differ = true;
        }
        i = i + 1;
    }
    rows_differ || wanted.len() != 0
}

} // verus!
