//! The arrangement engine: deciding what a save snapshots and what a
//! restore must move.
//!
//! Restore walks the connected displays, never the stored records: a stored
//! record whose display is gone is ignored, a connected display with no
//! stored record is left untouched, a display already at its stored origin
//! is skipped, and only the rest are moved. The moves are planned before
//! anything is applied, so one display's failure cannot unplan another's
//! move; the embedding program performs each move and hands the outcomes
//! back for the summary.

use vstd::prelude::*;

use crate::digits::{append_dec, dec_nat};
use crate::model::{Arrangement, DisplayLocation, LiveDisplay, unique_live_ids};
use crate::store::StoreError;

verus! {

/// Why a save or restore failed as a whole.
#[derive(PartialEq, Eq, Structural, Clone, Copy, Debug)]
pub enum EngineError {
    /// The Display Service could not list the connected displays or read an
    /// origin.
    DisplayQueryFailed,
    /// The arrangement could not be persisted.
    PersistFailed,
    /// No stored arrangement exists under the requested name.
    ConfigNotFound,
    /// The stored data could not be read as an arrangement.
    ConfigCorrupt,
    /// The command line selected no operation, or two at once.
    InvalidInvocation,
}

/// The operation the command line selects.
#[derive(PartialEq, Eq, Structural, Clone, Copy, Debug)]
pub enum Operation {
    Save,
    Restore,
}

/// Chooses the operation: exactly one of the two must be requested, and the
/// choice is rejected before any side effect takes place.
pub fn select_operation(save_requested: bool, restore_requested: bool) -> (r: Result<
    Operation,
    EngineError,
>)
    ensures
        save_requested && !restore_requested ==> r == Ok::<Operation, EngineError>(
            Operation::Save,
        ),
        restore_requested && !save_requested ==> r == Ok::<Operation, EngineError>(
            Operation::Restore,
        ),
        save_requested == restore_requested ==> r == Err::<Operation, EngineError>(
            EngineError::InvalidInvocation,
        ),
{
    if save_requested && !restore_requested {
        Ok(Operation::Save)
    } else if restore_requested && !save_requested {
        Ok(Operation::Restore)
    } else {
        Err(EngineError::InvalidInvocation)
    }
}

/// Maps a store failure to the engine's error: a missing arrangement and one
/// stored under a foreign name both read as not found (a foreign blob is
/// never silently returned), unreadable data as corrupt, a failed write as a
/// persist failure.
pub fn map_store_error(e: StoreError) -> (r: EngineError)
    ensures
        e == StoreError::NotFound ==> r == EngineError::ConfigNotFound,
        e == StoreError::NameMismatch ==> r == EngineError::ConfigNotFound,
        e == StoreError::Corrupt ==> r == EngineError::ConfigCorrupt,
        e == StoreError::WriteFailed ==> r == EngineError::PersistFailed,
{
    match e {
        StoreError::NotFound => EngineError::ConfigNotFound,
        StoreError::NameMismatch => EngineError::ConfigNotFound,
        StoreError::Corrupt => EngineError::ConfigCorrupt,
        StoreError::WriteFailed => EngineError::PersistFailed,
    }
}

/// The first stored record with the given identifier, if any.
pub open spec fn find_position(ps: Seq<DisplayLocation>, id: u32) -> Option<DisplayLocation>
    decreases ps.len(),
{
    if ps.len() == 0 {
        None
    } else if ps[0].id == id {
        Some(ps[0])
    } else {
        find_position(ps.drop_first(), id)
    }
}

/// Whether some stored record carries the given identifier.
pub open spec fn has_id(ps: Seq<DisplayLocation>, id: u32) -> bool {
    find_position(ps, id) is Some
}

/// A found record carries the identifier it was found under.
pub proof fn lemma_find_position_id(ps: Seq<DisplayLocation>, id: u32)
    ensures
        find_position(ps, id) matches Some(p) ==> p.id == id,
    decreases ps.len(),
{
    if ps.len() > 0 && ps[0].id != id {
        lemma_find_position_id(ps.drop_first(), id);
    }
}

/// The moves a restore must perform: one per connected display whose stored
/// origin differs from its live origin, in live order, carrying the stored
/// coordinates. Unknown and already-correct displays contribute nothing.
pub open spec fn moves_of(ps: Seq<DisplayLocation>, live: Seq<LiveDisplay>) -> Seq<
    DisplayLocation,
>
    decreases live.len(),
{
    if live.len() == 0 {
        Seq::empty()
    } else {
        let rest = moves_of(ps, live.drop_first());
        match find_position(ps, live[0].id) {
            Some(p) => if p.x == live[0].x && p.y == live[0].y {
                rest
            } else {
                seq![DisplayLocation { id: live[0].id, x: p.x, y: p.y }] + rest
            },
            None => rest,
        }
    }
}

/// How many connected displays have no stored record.
pub open spec fn count_unknown(ps: Seq<DisplayLocation>, live: Seq<LiveDisplay>) -> nat
    decreases live.len(),
{
    if live.len() == 0 {
        0
    } else {
        let rest = count_unknown(ps, live.drop_first());
        if find_position(ps, live[0].id) is None {
            rest + 1
        } else {
            rest
        }
    }
}

/// How many connected displays already sit at their stored origin.
pub open spec fn count_unchanged(ps: Seq<DisplayLocation>, live: Seq<LiveDisplay>) -> nat
    decreases live.len(),
{
    if live.len() == 0 {
        0
    } else {
        let rest = count_unchanged(ps, live.drop_first());
        match find_position(ps, live[0].id) {
            Some(p) => if p.x == live[0].x && p.y == live[0].y {
                rest + 1
            } else {
                rest
            },
            None => rest,
        }
    }
}

/// Every connected display ends in exactly one of the three terminal states:
/// planned for a move, already correct, or unknown to the arrangement.
pub proof fn lemma_every_display_accounted(ps: Seq<DisplayLocation>, live: Seq<LiveDisplay>)
    ensures
        moves_of(ps, live).len() + count_unchanged(ps, live) + count_unknown(ps, live)
            == live.len(),
    decreases live.len(),
{
    if live.len() > 0 {
        lemma_every_display_accounted(ps, live.drop_first());
    }
}

/// The first stored record with the given identifier, if any.
pub fn find_stored(ps: &Vec<DisplayLocation>, id: u32) -> (r: Option<DisplayLocation>)
    ensures
        r == find_position(ps@, id),
{
    let mut k: usize = 0;
    proof {
        assert(ps@.skip(0) =~= ps@);
    }
    while k < ps.len()
        invariant
            k <= ps@.len(),
            find_position(ps@, id) == find_position(ps@.skip(k as int), id),
        decreases ps@.len() - k,
    {
        proof {
            assert(ps@.skip(k as int)[0] == ps@[k as int]);
            assert(ps@.skip(k as int).drop_first() =~= ps@.skip(k as int + 1));
        }
        if ps[k].id == id {
            return Some(ps[k]);
        }
        k = k + 1;
    }
    proof {
        assert(ps@.skip(ps@.len() as int) =~= Seq::<DisplayLocation>::empty());
    }
    None
}

/// What one restore pass will do, decided before anything is applied.
pub struct RestorePlan {
    /// The displays to move, in live order, with their stored coordinates.
    pub moves: Vec<DisplayLocation>,
    /// Connected displays with no stored record, left untouched.
    pub unknown: usize,
    /// Connected displays already at their stored origin, skipped.
    pub unchanged: usize,
}

/// Plans one restore pass: walks the connected displays and decides, for
/// each, whether it is unknown, already correct, or must be moved to its
/// stored origin.
pub fn plan_restore(stored: &Arrangement, live: &Vec<LiveDisplay>) -> (r: RestorePlan)
    ensures
        r.moves@ == moves_of(stored.positions@, live@),
        r.unknown as nat == count_unknown(stored.positions@, live@),
        r.unchanged as nat == count_unchanged(stored.positions@, live@),
        r.moves@.len() + r.unchanged + r.unknown == live@.len(),
{
    proof {
        lemma_every_display_accounted(stored.positions@, live@);
    }
    let ghost ps = stored.positions@;
    let mut moves: Vec<DisplayLocation> = Vec::new();
    let mut unknown: usize = 0;
    let mut unchanged: usize = 0;
    let mut k: usize = 0;
    proof {
        assert(live@.skip(0) =~= live@);
    }
    while k < live.len()
        invariant
            k <= live@.len(),
            ps == stored.positions@,
            moves@.len() + unknown + unchanged == k,
            moves_of(ps, live@) == moves@ + moves_of(ps, live@.skip(k as int)),
            count_unknown(ps, live@) == unknown + count_unknown(ps, live@.skip(k as int)),
            count_unchanged(ps, live@) == unchanged + count_unchanged(ps, live@.skip(k as int)),
        decreases live@.len() - k,
    {
        proof {
            assert(live@.skip(k as int)[0] == live@[k as int]);
            assert(live@.skip(k as int).drop_first() =~= live@.skip(k as int + 1));
        }
        let d = live[k];
        let ghost moves0 = moves@;
        match find_stored(&stored.positions, d.id) {
            Some(p) => {
                if p.x == d.x && p.y == d.y {
                    unchanged = unchanged + 1;
                } else {
                    moves.push(DisplayLocation { id: d.id, x: p.x, y: p.y });
                    proof {
                        assert(moves@ + moves_of(ps, live@.skip(k as int + 1)) =~= moves0 + (seq![
                            DisplayLocation { id: d.id, x: p.x, y: p.y },
                        ] + moves_of(ps, live@.skip(k as int + 1))));
                    }
                }
            },
            None => {
                unknown = unknown + 1;
            },
        }
        k = k + 1;
    }
    proof {
        assert(live@.skip(live@.len() as int) =~= Seq::<LiveDisplay>::empty());
        assert(moves@ + Seq::<DisplayLocation>::empty() =~= moves@);
    }
    RestorePlan { moves, unknown, unchanged }
}

/// The record a connected display snapshots to.
pub open spec fn record_of(d: LiveDisplay) -> DisplayLocation {
    DisplayLocation { id: d.id, x: d.x, y: d.y }
}

/// The record at index `m` is the placement of one of the connected
/// displays.
pub open spec fn recorded_from(ps: Seq<DisplayLocation>, live: Seq<LiveDisplay>, m: int) -> bool {
    exists|q: int| 0 <= q < live.len() && ps[m] == record_of(live[q])
}

/// The records are exactly the connected displays' placements: each display
/// is recorded, and nothing else is.
pub open spec fn snapshot_of(ps: Seq<DisplayLocation>, live: Seq<LiveDisplay>) -> bool {
    &&& ps.len() == live.len()
    &&& forall|k: int| 0 <= k < live.len() ==> ps.contains(record_of(#[trigger] live[k]))
    &&& forall|m: int| 0 <= m < ps.len() ==> #[trigger] recorded_from(ps, live, m)
}

/// Builds the arrangement that a save persists: one record per connected
/// display, under the given name, sorted by identifier so that the persisted
/// form is deterministic whatever order the displays were reported in.
pub fn snapshot_arrangement(name: &str, live: &Vec<LiveDisplay>) -> (r: Arrangement)
    requires
        name@.len() > 0,
        unique_live_ids(live@),
    ensures
        r.wf(),
        r.name@ == name@,
        crate::model::sorted_by_id(r.positions@),
        snapshot_of(r.positions@, live@),
{
    let mut out: Vec<DisplayLocation> = Vec::new();
    let mut k: usize = 0;
    while k < live.len()
        invariant
            k <= live@.len(),
            unique_live_ids(live@),
            out@.len() == k,
            crate::model::sorted_by_id(out@),
            forall|q: int| 0 <= q < k ==> out@.contains(record_of(#[trigger] live@[q])),
            forall|m: int| 0 <= m < out@.len() ==> exists|q: int|
                0 <= q < k && (#[trigger] out@[m]) == record_of(live@[q]),
        decreases live@.len() - k,
    {
        let ghost out0 = out@;
        let d = DisplayLocation { id: live[k].id, x: live[k].x, y: live[k].y };
        proof {
            assert forall|m: int| 0 <= m < out0.len() implies (#[trigger] out0[m]).id != d.id by {
                let q = choose|q: int| 0 <= q < k && out0[m] == record_of(live@[q]);
                assert(live@[q].id != live@[k as int].id);
            }
        }
        let mut p: usize = 0;
        while p < out.len()
            invariant
                p <= out@.len(),
                out@ == out0,
                forall|m: int| 0 <= m < p ==> (#[trigger] out@[m]).id < d.id,
                forall|m: int| 0 <= m < out0.len() ==> (#[trigger] out0[m]).id != d.id,
            ensures
                p <= out0.len(),
                out@ == out0,
                forall|m: int| 0 <= m < p ==> (#[trigger] out0[m]).id < d.id,
                p == out0.len() || out0[p as int].id > d.id,
            decreases out@.len() - p,
        {
            if out[p].id > d.id {
                break ;
            }
            p = p + 1;
        }
        proof {
            assert(p == out0.len() || out0[p as int].id > d.id);
            out0.insert_ensures(p as int, d);
        }
        out.insert(p, d);
        proof {
            assert(out@ == out0.insert(p as int, d));
            assert forall|i: int, j: int| 0 <= i < j < out@.len() implies (#[trigger] out@[i]).id
                < (#[trigger] out@[j]).id by {
                if j < p {
                } else if i > p {
                    assert(out@[i] == out0[i - 1] && out@[j] == out0[j - 1]);
                } else if i == p && j > p {
                    assert(out@[j] == out0[j - 1]);
                    assert(out0[j - 1].id > d.id) by {
                        if j - 1 > p {
                            assert(out0[p as int].id < out0[j - 1].id);
                        }
                    }
                } else if i < p && j == p {
                    assert(out@[i] == out0[i]);
                } else {
                    assert(out@[i] == out0[i] && out@[j] == out0[j - 1]);
                    assert(out0[j - 1].id > d.id) by {
                        if j - 1 > p {
                            assert(out0[p as int].id < out0[j - 1].id);
                        } else {
                            assert(j - 1 == p);
                        }
                    }
                    assert(out0[i].id < d.id);
                }
            }
            assert forall|q: int| 0 <= q < k + 1 implies out@.contains(
                record_of(#[trigger] live@[q]),
            ) by {
                if q == k {
                    assert(out@[p as int] == record_of(live@[k as int]));
                } else {
                    let m = choose|m: int| 0 <= m < out0.len() && out0[m] == record_of(live@[q]);
                    if m < p {
                        assert(out@[m] == out0[m]);
                    } else {
                        assert(out@[m + 1] == out0[m]);
                    }
                }
            }
            assert forall|m: int| 0 <= m < out@.len() implies exists|q: int|
                0 <= q < k + 1 && (#[trigger] out@[m]) == record_of(live@[q]) by {
                if m < p {
                    assert(out@[m] == out0[m]);
                } else if m == p {
                    assert(out@[m] == record_of(live@[k as int]));
                } else {
                    assert(out@[m] == out0[m - 1]);
                }
            }
        }
        k = k + 1;
    }
    proof {
        assert forall|m: int| 0 <= m < out@.len() implies #[trigger] recorded_from(
            out@,
            live@,
            m,
        ) by {
            let v = out@[m];
            assert(exists|q: int| 0 <= q < k && out@[m] == record_of(live@[q]));
            let q = choose|q: int| 0 <= q < k && out@[m] == record_of(live@[q]);
            assert(0 <= q < live@.len() && out@[m] == record_of(live@[q]));
        }
        assert(snapshot_of(out@, live@));
    }
    Arrangement { name: name.to_owned(), positions: out }
}

/// Whether a connected display must be moved: it has a stored record and
/// sits away from it.
pub open spec fn needs_move(ps: Seq<DisplayLocation>, d: LiveDisplay) -> bool {
    match find_position(ps, d.id) {
        Some(p) => p.x != d.x || p.y != d.y,
        None => false,
    }
}

/// The move a display gets when it needs one: its own identifier, the
/// stored coordinates.
pub open spec fn move_for(ps: Seq<DisplayLocation>, d: LiveDisplay) -> DisplayLocation
    recommends
        needs_move(ps, d),
{
    match find_position(ps, d.id) {
        Some(p) => DisplayLocation { id: d.id, x: p.x, y: p.y },
        None => DisplayLocation { id: d.id, x: d.x, y: d.y },
    }
}

/// Soundness of the plan: every planned move is exactly a stored record,
/// looked up by the move's identifier, and belongs to some connected display
/// whose live origin differs from it. In particular a display unknown to the
/// arrangement, or a stored record with no connected display, is never
/// behind any move.
pub proof fn lemma_moves_sound(ps: Seq<DisplayLocation>, live: Seq<LiveDisplay>)
    ensures
        forall|q: int| 0 <= q < moves_of(ps, live).len() ==> find_position(
            ps,
            (#[trigger] moves_of(ps, live)[q]).id,
        ) == Some(moves_of(ps, live)[q]),
        forall|q: int| 0 <= q < moves_of(ps, live).len() ==> exists|k: int|
            0 <= k < live.len() && live[k].id == (#[trigger] moves_of(ps, live)[q]).id && (
            live[k].x != moves_of(ps, live)[q].x || live[k].y != moves_of(ps, live)[q].y),
    decreases live.len(),
{
    if live.len() > 0 {
        let tail = live.drop_first();
        let rest = moves_of(ps, tail);
        lemma_moves_sound(ps, tail);
        lemma_find_position_id(ps, live[0].id);
        let mvs = moves_of(ps, live);
        assert forall|q: int| 0 <= q < mvs.len() implies find_position(ps, (#[trigger] mvs[q]).id)
            == Some(mvs[q]) && exists|k: int|
            0 <= k < live.len() && live[k].id == mvs[q].id && (live[k].x != mvs[q].x || live[k].y
                != mvs[q].y) by {
            let qr = if mvs.len() == rest.len() {
                q
            } else {
                q - 1
            };
            if qr >= 0 {
                assert(mvs[q] == rest[qr]);
                let k = choose|k: int|
                    0 <= k < tail.len() && tail[k].id == rest[qr].id && (tail[k].x != rest[qr].x
                        || tail[k].y != rest[qr].y);
                assert(live[k + 1] == tail[k]);
            } else {
                assert(mvs[q] == move_for(ps, live[0]));
                assert(live[0].id == mvs[q].id && (live[0].x != mvs[q].x || live[0].y != mvs[q].y));
            }
        }
    }
}

/// Independence of the planned moves: every connected display that needs a
/// move has its move in the plan, whatever holds of any other display. In
/// particular one display's failing move cannot remove another display's
/// move from the plan, which is drawn up before anything is applied.
pub proof fn lemma_needed_move_planned(ps: Seq<DisplayLocation>, live: Seq<LiveDisplay>, k: int)
    requires
        0 <= k < live.len(),
        needs_move(ps, live[k]),
    ensures
        moves_of(ps, live).contains(move_for(ps, live[k])),
    decreases live.len(),
{
    let mvs = moves_of(ps, live);
    let tail = live.drop_first();
    let rest = moves_of(ps, tail);
    if k == 0 {
        assert(mvs[0] == move_for(ps, live[0]));
    } else {
        assert(tail[k - 1] == live[k]);
        lemma_needed_move_planned(ps, tail, k - 1);
        let i = choose|i: int| 0 <= i < rest.len() && rest[i] == move_for(ps, live[k]);
        if mvs.len() == rest.len() {
            assert(mvs[i] == rest[i]);
        } else {
            assert(mvs[i + 1] == rest[i]);
        }
    }
}

/// A display unknown to the arrangement is never moved.
pub proof fn lemma_unknown_never_moved(ps: Seq<DisplayLocation>, live: Seq<LiveDisplay>, k: int)
    requires
        0 <= k < live.len(),
        !has_id(ps, live[k].id),
    ensures
        forall|q: int| 0 <= q < moves_of(ps, live).len() ==> (#[trigger] moves_of(ps, live)[q]).id
            != live[k].id,
{
    lemma_moves_sound(ps, live);
}

/// A stored record whose display is not connected triggers no move (and the
/// plan, a total function of the inputs, raises no error for it either).
pub proof fn lemma_disconnected_never_moved(
    ps: Seq<DisplayLocation>,
    live: Seq<LiveDisplay>,
    m: int,
)
    requires
        0 <= m < ps.len(),
        forall|k: int| 0 <= k < live.len() ==> (#[trigger] live[k]).id != ps[m].id,
    ensures
        forall|q: int| 0 <= q < moves_of(ps, live).len() ==> (#[trigger] moves_of(ps, live)[q]).id
            != ps[m].id,
{
    lemma_moves_sound(ps, live);
    let mvs = moves_of(ps, live);
    assert forall|q: int| 0 <= q < mvs.len() implies (#[trigger] mvs[q]).id != ps[m].id by {
        if mvs[q].id == ps[m].id {
            let k = choose|k: int|
                0 <= k < live.len() && live[k].id == mvs[q].id && (live[k].x != mvs[q].x
                    || live[k].y != mvs[q].y);
            assert(live[k].id == ps[m].id);
        }
    }
}

/// The live layout after the Display Service moved one display: the display
/// with the move's identifier sits at the move's coordinates, everything
/// else is untouched.
pub open spec fn apply_move(live: Seq<LiveDisplay>, mv: DisplayLocation) -> Seq<LiveDisplay> {
    live.map_values(
        |d: LiveDisplay|
            if d.id == mv.id {
                LiveDisplay { id: d.id, x: mv.x, y: mv.y }
            } else {
                d
            },
    )
}

/// The live layout after a list of moves was performed in order.
pub open spec fn apply_moves(live: Seq<LiveDisplay>, mvs: Seq<DisplayLocation>) -> Seq<LiveDisplay>
    decreases mvs.len(),
{
    if mvs.len() == 0 {
        live
    } else {
        apply_moves(apply_move(live, mvs[0]), mvs.drop_first())
    }
}

/// Moves change no display's identity: the layout keeps its length and its
/// identifiers, position by position.
pub proof fn lemma_apply_moves_frame(live: Seq<LiveDisplay>, mvs: Seq<DisplayLocation>)
    ensures
        apply_moves(live, mvs).len() == live.len(),
        forall|k: int| 0 <= k < live.len() ==> (#[trigger] apply_moves(live, mvs)[k]).id
            == live[k].id,
    decreases mvs.len(),
{
    if mvs.len() > 0 {
        let l1 = apply_move(live, mvs[0]);
        lemma_apply_moves_frame(l1, mvs.drop_first());
    }
}

/// A display none of the moves names keeps its place exactly.
pub proof fn lemma_apply_moves_untouched(
    live: Seq<LiveDisplay>,
    mvs: Seq<DisplayLocation>,
    k: int,
)
    requires
        0 <= k < live.len(),
        forall|q: int| 0 <= q < mvs.len() ==> (#[trigger] mvs[q]).id != live[k].id,
    ensures
        apply_moves(live, mvs)[k] == live[k],
    decreases mvs.len(),
{
    if mvs.len() > 0 {
        let l1 = apply_move(live, mvs[0]);
        assert(l1[k] == live[k]);
        assert forall|q: int| 0 <= q < mvs.drop_first().len() implies (#[trigger] mvs.drop_first(
        )[q]).id != l1[k].id by {
            assert(mvs.drop_first()[q] == mvs[q + 1]);
        }
        lemma_apply_moves_untouched(l1, mvs.drop_first(), k);
    }
}

/// A display named by exactly one move ends at that move's coordinates.
pub proof fn lemma_apply_moves_moved(
    live: Seq<LiveDisplay>,
    mvs: Seq<DisplayLocation>,
    k: int,
    q: int,
)
    requires
        0 <= k < live.len(),
        0 <= q < mvs.len(),
        mvs[q].id == live[k].id,
        forall|q2: int| 0 <= q2 < mvs.len() && q2 != q ==> (#[trigger] mvs[q2]).id != mvs[q].id,
    ensures
        apply_moves(live, mvs)[k] == (LiveDisplay { id: live[k].id, x: mvs[q].x, y: mvs[q].y }),
    decreases mvs.len(),
{
    let l1 = apply_move(live, mvs[0]);
    let rest = mvs.drop_first();
    assert(forall|q2: int| 0 <= q2 < rest.len() ==> #[trigger] rest[q2] == mvs[q2 + 1]);
    if q == 0 {
        assert(l1[k] == (LiveDisplay { id: live[k].id, x: mvs[0].x, y: mvs[0].y }));
        assert forall|q2: int| 0 <= q2 < rest.len() implies (#[trigger] rest[q2]).id != l1[k].id by {
            assert(rest[q2] == mvs[q2 + 1]);
        }
        lemma_apply_moves_untouched(l1, rest, k);
    } else {
        assert(l1[k] == live[k]);
        lemma_apply_moves_moved(l1, rest, k, q - 1);
    }
}

/// With each display reported once, no two planned moves name the same
/// display.
pub proof fn lemma_moves_ids_unique(ps: Seq<DisplayLocation>, live: Seq<LiveDisplay>)
    requires
        unique_live_ids(live),
    ensures
        forall|q1: int, q2: int|
            0 <= q1 < q2 < moves_of(ps, live).len() ==> (#[trigger] moves_of(ps, live)[q1]).id != (
            #[trigger] moves_of(ps, live)[q2]).id,
    decreases live.len(),
{
    if live.len() > 0 {
        let tail = live.drop_first();
        let mvs = moves_of(ps, live);
        let rest = moves_of(ps, tail);
        assert(forall|i: int| 0 <= i < tail.len() ==> #[trigger] tail[i] == live[i + 1]);
        assert(unique_live_ids(tail));
        lemma_moves_ids_unique(ps, tail);
        lemma_moves_sound(ps, tail);
        assert forall|q1: int, q2: int|
            0 <= q1 < q2 < mvs.len() implies (#[trigger] mvs[q1]).id != (#[trigger] mvs[q2]).id by {
            if mvs.len() == rest.len() {
                assert(mvs[q1] == rest[q1] && mvs[q2] == rest[q2]);
            } else {
                assert(forall|q: int| 1 <= q < mvs.len() ==> #[trigger] mvs[q] == rest[q - 1]);
                if q1 == 0 {
                    assert(mvs[0].id == live[0].id);
                    let k = choose|k: int|
                        0 <= k < tail.len() && tail[k].id == rest[q2 - 1].id && (tail[k].x
                            != rest[q2 - 1].x || tail[k].y != rest[q2 - 1].y);
                    assert(live[k + 1].id == mvs[q2].id);
                }
            }
        }
    }
}

/// A layout in which every display is unknown or already correct plans no
/// moves at all.
pub proof fn lemma_settled_plan_empty(ps: Seq<DisplayLocation>, live: Seq<LiveDisplay>)
    requires
        forall|k: int| 0 <= k < live.len() ==> !needs_move(ps, #[trigger] live[k]),
    ensures
        moves_of(ps, live) == Seq::<DisplayLocation>::empty(),
    decreases live.len(),
{
    if live.len() > 0 {
        let tail = live.drop_first();
        assert(forall|i: int| 0 <= i < tail.len() ==> #[trigger] tail[i] == live[i + 1]);
        assert(!needs_move(ps, live[0]));
        lemma_settled_plan_empty(ps, tail);
    }
}

/// Idempotence of restore: once every planned move has been performed, a
/// second restore against the same stored arrangement, with no intervening
/// layout change, plans no move at all.
pub proof fn lemma_restore_idempotent(ps: Seq<DisplayLocation>, live: Seq<LiveDisplay>)
    requires
        unique_live_ids(live),
    ensures
        moves_of(ps, apply_moves(live, moves_of(ps, live))) == Seq::<DisplayLocation>::empty(),
{
    let mvs = moves_of(ps, live);
    let live2 = apply_moves(live, mvs);
    lemma_apply_moves_frame(live, mvs);
    lemma_moves_sound(ps, live);
    lemma_moves_ids_unique(ps, live);
    assert forall|k: int| 0 <= k < live2.len() implies !needs_move(ps, #[trigger] live2[k]) by {
        assert(live2[k].id == live[k].id);
        match find_position(ps, live[k].id) {
            None => {},
            Some(p) => {
                lemma_find_position_id(ps, live[k].id);
                if p.x == live[k].x && p.y == live[k].y {
                    assert forall|q: int| 0 <= q < mvs.len() implies (#[trigger] mvs[q]).id
                        != live[k].id by {
                        if mvs[q].id == live[k].id {
                            assert(find_position(ps, mvs[q].id) == Some(mvs[q]));
                            let k2 = choose|k2: int|
                                0 <= k2 < live.len() && live[k2].id == mvs[q].id && (live[k2].x
                                    != mvs[q].x || live[k2].y != mvs[q].y);
                            assert(k2 == k);
                        }
                    }
                    lemma_apply_moves_untouched(live, mvs, k);
                } else {
                    lemma_needed_move_planned(ps, live, k);
                    let mv = move_for(ps, live[k]);
                    let q = choose|q: int| 0 <= q < mvs.len() && mvs[q] == mv;
                    assert forall|q2: int| 0 <= q2 < mvs.len() && q2 != q implies (
                    #[trigger] mvs[q2]).id != mvs[q].id by {
                        if q2 < q {
                            assert(mvs[q2].id != mvs[q].id);
                        } else {
                            assert(mvs[q].id != mvs[q2].id);
                        }
                    }
                    lemma_apply_moves_moved(live, mvs, k, q);
                    assert(live2[k] == (LiveDisplay { id: live[k].id, x: p.x, y: p.y }));
                }
            },
        }
    }
    lemma_settled_plan_empty(ps, live2);
}

/// How many of the reported outcomes are successes.
pub open spec fn count_true(bs: Seq<bool>) -> nat
    decreases bs.len(),
{
    if bs.len() == 0 {
        0
    } else {
        count_true(bs.drop_last()) + if bs.last() {
            1nat
        } else {
            0nat
        }
    }
}

/// The outcome of one restore pass, display by display.
pub struct RestoreReport {
    /// Displays the Display Service moved.
    pub moved: usize,
    /// Planned moves the Display Service reported as failed.
    pub failed: usize,
    /// Displays already at their stored origin.
    pub unchanged: usize,
    /// Connected displays with no stored record.
    pub unknown: usize,
}

/// Summarizes a restore pass once the embedding program has attempted every
/// planned move: `results[q]` tells whether the `q`-th planned move
/// succeeded. Failures are tallied, never propagated: one display's failure
/// takes nothing away from the other displays' outcomes.
pub fn restore_report(plan: &RestorePlan, results: &Vec<bool>) -> (r: RestoreReport)
    requires
        results@.len() == plan.moves@.len(),
    ensures
        r.moved as nat == count_true(results@),
        r.moved + r.failed == plan.moves@.len(),
        r.unchanged == plan.unchanged,
        r.unknown == plan.unknown,
{
    let mut moved: usize = 0;
    let mut k: usize = 0;
    proof {
        assert(results@.take(0) =~= Seq::<bool>::empty());
    }
    while k < results.len()
        invariant
            k <= results@.len(),
            moved as nat == count_true(results@.take(k as int)),
            moved <= k,
        decreases results@.len() - k,
    {
        proof {
            assert(results@.take(k as int + 1).drop_last() =~= results@.take(k as int));
            assert(results@.take(k as int + 1).last() == results@[k as int]);
        }
        if results[k] {
            moved = moved + 1;
        }
        k = k + 1;
    }
    proof {
        assert(results@.take(results@.len() as int) =~= results@);
    }
    RestoreReport {
        moved,
        failed: results.len() - moved,
        unchanged: plan.unchanged,
        unknown: plan.unknown,
    }
}

/// The text of a restore summary.
pub open spec fn summary_text(moved: nat, unchanged: nat, unknown: nat, failed: nat) -> Seq<
    char,
> {
    dec_nat(moved) + " moved, "@ + dec_nat(unchanged) + " unchanged, "@ + dec_nat(unknown)
        + " unknown, "@ + dec_nat(failed) + " failed"@
}

/// Renders the one-line summary of a restore pass.
pub fn render_summary(r: &RestoreReport) -> (s: String)
    ensures
        s@ == summary_text(r.moved as nat, r.unchanged as nat, r.unknown as nat, r.failed as nat),
{
    let mut out = String::new();
    append_dec(&mut out, r.moved as u64);
    out.append(" moved, ");
    append_dec(&mut out, r.unchanged as u64);
    out.append(" unchanged, ");
    append_dec(&mut out, r.unknown as u64);
    out.append(" unknown, ");
    append_dec(&mut out, r.failed as u64);
    out.append(" failed");
    proof {
        assert(out@ =~= summary_text(
            r.moved as nat,
            r.unchanged as nat,
            r.unknown as nat,
            r.failed as nat,
        ));
    }
    out
}

/// Renders the one-line message of a successful save.
pub fn render_saved_message(path: &str) -> (s: String)
    ensures
        s@ == "Configuration is saved to '"@ + path@ + "'"@,
{
    let mut out = String::new();
    out.append("Configuration is saved to '");
    out.append(path);
    out.append("'");
    out
}

} // verus!
