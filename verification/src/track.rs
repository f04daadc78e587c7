use vstd::prelude::*;

use crate::geo::{distance, distance_spec, Position};
use crate::ident::Icao;

verus! {

/// One decoded feed message: the identifier it names and whatever subset of
/// attributes it carried. Reports are transient; they are merged into a
/// [`TrackedEntity`], never stored.
#[derive(Clone, Copy, Debug)]
pub struct DecodedReport {
    pub icao: Icao,
    pub position: Option<Position>,
    pub altitude: Option<i32>,
    pub ground_speed: Option<u32>,
    pub heading: Option<u32>,
}

impl DecodedReport {
    /// The identifier fits its format and any carried position is on the globe.
    pub open spec fn wf(self) -> bool {
        &&& self.icao.wf()
        &&& (self.position matches Some(p) ==> p.wf())
    }
}

/// The live record kept for one identifier. Every attribute except
/// `last_update` may still be unknown, because reports are fragmentary.
/// `distance` is derived from the current position and the observer; it is
/// never set independently.
#[derive(Clone, Copy, PartialEq, Eq, Debug)]
pub struct TrackedEntity {
    pub position: Option<Position>,
    pub altitude: Option<i32>,
    pub ground_speed: Option<u32>,
    pub heading: Option<u32>,
    pub distance: Option<u64>,
    pub last_update: u64,
}

/// The record a previously-unseen identifier starts from: nothing known yet.
pub open spec fn initial_entity() -> TrackedEntity {
    TrackedEntity {
        position: None,
        altitude: None,
        ground_speed: None,
        heading: None,
        distance: None,
        last_update: 0,
    }
}

/// Well-formedness of a record with respect to the registry configuration:
/// the derived distance is defined exactly when a position is known, it is
/// the distance of that position from the observer, and any known position
/// passed the range sanity bound when it was merged.
pub open spec fn entity_wf(e: TrackedEntity, observer: Position, max_range: u64) -> bool {
    &&& (e.position is Some <==> e.distance is Some)
    &&& (e.position matches Some(p) ==> {
        &&& p.wf()
        &&& distance_spec(p, observer) <= max_range
        &&& e.distance == Some(distance_spec(p, observer) as u64)
    })
}

/// The position a report contributes: its carried position, unless that lies
/// farther from the observer than the range sanity bound, in which case the
/// carried position is implausible and discarded.
pub open spec fn accepted_position(r: DecodedReport, observer: Position, max_range: u64) -> Option<
    Position,
> {
    match r.position {
        Some(p) => if distance_spec(p, observer) <= max_range {
            Some(p)
        } else {
            None
        },
        None => None,
    }
}

/// Field-wise merge of one report into a record: each attribute the report
/// carries (and, for the position, passes the range bound) overwrites the
/// stored one, each absent attribute leaves the stored one untouched, the
/// distance is recomputed from the resulting position, and `last_update` is
/// refreshed unconditionally.
pub open spec fn merge_entity(
    e: TrackedEntity,
    r: DecodedReport,
    observer: Position,
    max_range: u64,
    now: u64,
) -> TrackedEntity {
    let pos = match accepted_position(r, observer, max_range) {
        Some(p) => Some(p),
        None => e.position,
    };
    TrackedEntity {
        position: pos,
        altitude: if r.altitude is Some {
            r.altitude
        } else {
            e.altitude
        },
        ground_speed: if r.ground_speed is Some {
            r.ground_speed
        } else {
            e.ground_speed
        },
        heading: if r.heading is Some {
            r.heading
        } else {
            e.heading
        },
        distance: match pos {
            Some(p) => Some(distance_spec(p, observer) as u64),
            None => None,
        },
        last_update: now,
    }
}

/// The record that results from merging a whole sequence of reports into a
/// starting record, in order; `ts[i]` is the time report `rs[i]` arrives.
pub open spec fn merge_seq(
    e: TrackedEntity,
    rs: Seq<DecodedReport>,
    ts: Seq<u64>,
    observer: Position,
    max_range: u64,
) -> TrackedEntity
    decreases rs.len(),
{
    if rs.len() == 0 {
        e
    } else {
        merge_entity(
            merge_seq(e, rs.drop_last(), ts.drop_last(), observer, max_range),
            rs.last(),
            observer,
            max_range,
            ts.last(),
        )
    }
}

/// The last position any report of a sequence carried, or the starting
/// record's position when none did.
pub open spec fn last_position(e: TrackedEntity, rs: Seq<DecodedReport>) -> Option<Position>
    decreases rs.len(),
{
    if rs.len() == 0 {
        e.position
    } else if rs.last().position is Some {
        rs.last().position
    } else {
        last_position(e, rs.drop_last())
    }
}

/// The last altitude any report of a sequence carried, or the starting
/// record's when none did.
pub open spec fn last_altitude(e: TrackedEntity, rs: Seq<DecodedReport>) -> Option<i32>
    decreases rs.len(),
{
    if rs.len() == 0 {
        e.altitude
    } else if rs.last().altitude is Some {
        rs.last().altitude
    } else {
        last_altitude(e, rs.drop_last())
    }
}

/// The last ground speed any report of a sequence carried, or the starting
/// record's when none did.
pub open spec fn last_ground_speed(e: TrackedEntity, rs: Seq<DecodedReport>) -> Option<u32>
    decreases rs.len(),
{
    if rs.len() == 0 {
        e.ground_speed
    } else if rs.last().ground_speed is Some {
        rs.last().ground_speed
    } else {
        last_ground_speed(e, rs.drop_last())
    }
}

/// The last heading any report of a sequence carried, or the starting
/// record's when none did.
pub open spec fn last_heading(e: TrackedEntity, rs: Seq<DecodedReport>) -> Option<u32>
    decreases rs.len(),
{
    if rs.len() == 0 {
        e.heading
    } else if rs.last().heading is Some {
        rs.last().heading
    } else {
        last_heading(e, rs.drop_last())
    }
}

/// Merging is field-wise last-write-wins. For any sequence of well-formed
/// reports whose carried positions pass the range bound, each attribute of
/// the resulting record is the last value any report carried for that
/// attribute — independent of which other attributes co-occurred in each
/// report — `last_update` is the last arrival time, and the derived distance
/// is defined exactly when a position is, as the distance of that position
/// from the observer.
pub proof fn lemma_merge_last_write_wins(
    e: TrackedEntity,
    rs: Seq<DecodedReport>,
    ts: Seq<u64>,
    observer: Position,
    max_range: u64,
)
    requires
        rs.len() == ts.len(),
        entity_wf(e, observer, max_range),
        forall|i: int| 0 <= i < rs.len() ==> (#[trigger] rs[i]).wf(),
        forall|i: int|
            0 <= i < rs.len() ==> ((#[trigger] rs[i]).position matches Some(p) ==> distance_spec(
                p,
                observer,
            ) <= max_range),
    ensures
        merge_seq(e, rs, ts, observer, max_range).position == last_position(e, rs),
        merge_seq(e, rs, ts, observer, max_range).altitude == last_altitude(e, rs),
        merge_seq(e, rs, ts, observer, max_range).ground_speed == last_ground_speed(e, rs),
        merge_seq(e, rs, ts, observer, max_range).heading == last_heading(e, rs),
        merge_seq(e, rs, ts, observer, max_range).last_update == if rs.len() == 0 {
            e.last_update
        } else {
            ts.last()
        },
        merge_seq(e, rs, ts, observer, max_range).distance == match last_position(e, rs) {
            Some(p) => Some(distance_spec(p, observer) as u64),
            None => None::<u64>,
        },
    decreases rs.len(),
{
    if rs.len() > 0 {
        assert(forall|i: int|
            0 <= i < rs.len() - 1 ==> (#[trigger] rs.drop_last()[i]) == rs[i]);
        lemma_merge_last_write_wins(e, rs.drop_last(), ts.drop_last(), observer, max_range);
        assert(rs[rs.len() - 1] == rs.last());
    } else {
        if e.position is Some {
            assert(e.distance == Some(distance_spec(e.position->0, observer) as u64));
        }
    }
}

/// Executes the merge of one report into a record.
pub fn merge(
    e: &TrackedEntity,
    r: &DecodedReport,
    observer: &Position,
    max_range: u64,
    now: u64,
) -> (m: TrackedEntity)
    requires
        r.wf(),
        observer.wf(),
        entity_wf(*e, *observer, max_range),
    ensures
        m == merge_entity(*e, *r, *observer, max_range, now),
        entity_wf(m, *observer, max_range),
{
    let (position, dist): (Option<Position>, Option<u64>) = match r.position {
        Some(p) => {
            let d = distance(&p, observer);
            if d <= max_range {
                (Some(p), Some(d))
            } else {
                (e.position, e.distance)
            }
        },
        None => (e.position, e.distance),
    };
    TrackedEntity {
        position,
        altitude: if r.altitude.is_some() {
            r.altitude
        } else {
            e.altitude
        },
        ground_speed: if r.ground_speed.is_some() {
            r.ground_speed
        } else {
            e.ground_speed
        },
        heading: if r.heading.is_some() {
            r.heading
        } else {
            e.heading
        },
        distance: dist,
        last_update: now,
    }
}

} // verus!
