use vstd::prelude::*;

use crate::error::GeoError;
use crate::instant::Instant;
use crate::line::{
    bracket_of, closer_after, closer_before, interpolated, is_nearest_after, is_nearest_before,
    lemma_after_step, lemma_before_step, lemma_tracks_nearest, point_of_record, tracks_after,
    tracks_before, Line, LineBuilder, Point,
};

verus! {

/// One waypoint of a path: its coordinate text and its timestamp text.
pub struct TimelinePoint {
    pub point: String,
    pub time: String,
}

/// A segment of the semantic timeline. Only paths carry waypoints that
/// locate anything; the other kinds are kept apart and ignored.
pub enum SemanticSegment {
    Path { timeline_path: Vec<TimelinePoint> },
    Activity,
    PlaceVisit,
    Memory,
}

/// A raw signal. Only position fixes locate anything; altitudes are in
/// billionths of a metre.
pub enum RawSignal {
    Position { lat_lng: String, altitude_meters: Option<i64>, timestamp: String },
    WifiScan,
    Activity,
}

/// A location history: the fine-grained raw signals and the coarser
/// semantic segments.
pub struct Timeline {
    pub semantic_segments: Vec<SemanticSegment>,
    pub raw_signals: Vec<RawSignal>,
}

/// The location history under the name that lookups by position use.
pub type TimelineData = Timeline;

/// A position found for an instant, or one observation of the history.
pub type LocationData = Point;

/// The observation of a record, if it has one.
pub open spec fn usable(r: Result<Point, GeoError>) -> Seq<Point> {
    match r {
        Ok(p) => seq![p],
        Err(_) => seq![],
    }
}

/// The candidates that one raw signal offers for a lookup at `query`.
pub open spec fn signal_candidates(signal: RawSignal, query: Instant) -> Seq<Point> {
    match signal {
        RawSignal::Position { lat_lng, altitude_meters, timestamp } => usable(
            point_of_record(lat_lng@, timestamp@, altitude_meters, query),
        ),
        _ => seq![],
    }
}

/// The candidates of the raw-signal stream, in order, for a lookup at
/// `query`: unusable records are skipped.
pub open spec fn raw_signal_candidates(signals: Seq<RawSignal>, query: Instant) -> Seq<Point>
    decreases signals.len(),
{
    if signals.len() == 0 {
        seq![]
    } else {
        raw_signal_candidates(signals.drop_last(), query) + signal_candidates(
            signals.last(),
            query,
        )
    }
}

/// The candidates of a path's waypoints, in order, which carry no altitude.
pub open spec fn path_candidates(path: Seq<TimelinePoint>, query: Instant) -> Seq<Point>
    decreases path.len(),
{
    if path.len() == 0 {
        seq![]
    } else {
        path_candidates(path.drop_last(), query) + usable(
            point_of_record(path.last().point@, path.last().time@, None, query),
        )
    }
}

/// The candidates of the path stream: the waypoints of every path, in order,
/// pooled into one sequence.
pub open spec fn segment_candidates(segments: Seq<SemanticSegment>, query: Instant) -> Seq<
    Point,
>
    decreases segments.len(),
{
    if segments.len() == 0 {
        seq![]
    } else {
        segment_candidates(segments.drop_last(), query) + match segments.last() {
            SemanticSegment::Path { timeline_path } => path_candidates(timeline_path@, query),
            _ => seq![],
        }
    }
}

/// The position at `query` from the first stream that brackets it: raw
/// signals first, then the path segments; `Unresolved` when neither does.
pub open spec fn located(timeline: Timeline, query: Instant) -> Result<Point, GeoError> {
    match bracket_of(raw_signal_candidates(timeline.raw_signals@, query)) {
        Some(line) => Ok(interpolated(line, query)),
        None => match bracket_of(segment_candidates(timeline.semantic_segments@, query)) {
            Some(line) => Ok(interpolated(line, query)),
            None => Err(GeoError::Unresolved),
        },
    }
}

/// A bracket that selection yields has its sides on either side of the query.
pub proof fn lemma_selected_is_bracket(s: Seq<Point>)
    ensures
        bracket_of(s) is Some ==> bracket_of(s)->0.is_bracket(),
{
    if bracket_of(s) is Some {
        let i = choose|i: int| is_nearest_before(s, i);
        let j = choose|j: int| is_nearest_after(s, j);
        assert(is_nearest_before(s, i));
        assert(is_nearest_after(s, j));
    }
}

/// Fallback priority: where the raw signals bracket the query, their bracket
/// decides the position, whatever the path segments hold.
pub proof fn lemma_fallback_priority(timeline: Timeline, query: Instant)
    requires
        bracket_of(raw_signal_candidates(timeline.raw_signals@, query)) is Some,
    ensures
        located(timeline, query) == Ok::<Point, GeoError>(
            interpolated(bracket_of(raw_signal_candidates(timeline.raw_signals@, query))->0, query),
        ),
{
}

/// The path segments are consulted only where the raw signals give no
/// bracket, and a lookup fails only where neither stream gives one.
pub proof fn lemma_fallback_order(timeline: Timeline, query: Instant)
    ensures
        bracket_of(raw_signal_candidates(timeline.raw_signals@, query)) is None ==> located(
            timeline,
            query,
        ) == match bracket_of(segment_candidates(timeline.semantic_segments@, query)) {
            Some(line) => Ok::<Point, GeoError>(interpolated(line, query)),
            None => Err(GeoError::Unresolved),
        },
        located(timeline, query) is Err <==> (bracket_of(
            raw_signal_candidates(timeline.raw_signals@, query),
        ) is None && bracket_of(segment_candidates(timeline.semantic_segments@, query)) is None),
{
}

/// Adds one candidate to a builder that tracks the candidates `seen`.
fn offer(builder: &mut LineBuilder, candidate: Result<Point, GeoError>, Ghost(seen): Ghost<
    Seq<Point>,
>)
    requires
        tracks_before(seen, old(builder)@.0),
        tracks_after(seen, old(builder)@.1),
    ensures
        tracks_before(seen + usable(candidate), final(builder)@.0),
        tracks_after(seen + usable(candidate), final(builder)@.1),
{
    match candidate {
        Ok(point) => {
            proof {
                lemma_before_step(seen, point, builder@.0);
                lemma_after_step(seen, point, builder@.1);
                assert(seen + usable(candidate) == seen.push(point));
            }
            builder.add_point(point);
        },
        Err(_) => {
            assert(seen + usable(candidate) == seen);
        },
    }
}

impl Timeline {
    pub fn new(semantic_segments: Vec<SemanticSegment>, raw_signals: Vec<RawSignal>) -> (r:
        Timeline)
        ensures
            r.semantic_segments@ == semantic_segments@,
            r.raw_signals@ == raw_signals@,
    {
        Timeline { semantic_segments, raw_signals }
    }

    /// The bracket around `timestamp` from the raw position fixes.
    pub fn get_line_from_raw_signals(&self, timestamp: &Instant) -> (r: Option<Line>)
        requires
            timestamp.wf(),
        ensures
            r == bracket_of(raw_signal_candidates(self.raw_signals@, *timestamp)),
    {
        let mut builder = LineBuilder::new();
        let n = self.raw_signals.len();
        let mut i: usize = 0;
        while i < n
            invariant
                n == self.raw_signals@.len(),
                i <= n,
                timestamp.wf(),
                tracks_before(
                    raw_signal_candidates(self.raw_signals@.take(i as int), *timestamp),
                    builder@.0,
                ),
                tracks_after(
                    raw_signal_candidates(self.raw_signals@.take(i as int), *timestamp),
                    builder@.1,
                ),
            decreases n - i,
        {
            let ghost seen = raw_signal_candidates(self.raw_signals@.take(i as int), *timestamp);
            assert(self.raw_signals@.take(i + 1).drop_last() == self.raw_signals@.take(i as int));
            match &self.raw_signals[i] {
                RawSignal::Position { lat_lng, altitude_meters, timestamp: raw_timestamp } => {
                    let candidate = Point::from_timeline(
                        lat_lng.as_str(),
                        raw_timestamp,
                        altitude_meters,
                        timestamp,
                    );
                    offer(&mut builder, candidate, Ghost(seen));
                },
                _ => {
                    assert(seen + seq![] == seen);
                },
            }
            i += 1;
        }
        assert(self.raw_signals@.take(n as int) == self.raw_signals@);
        proof {
            lemma_tracks_nearest(
                raw_signal_candidates(self.raw_signals@, *timestamp),
                builder@.0,
                builder@.1,
            );
        }
        builder.build()
    }

    /// The bracket around `timestamp` from the waypoints of all paths, pooled.
    pub fn get_line_from_semantic_segments(&self, timestamp: &Instant) -> (r: Option<Line>)
        requires
            timestamp.wf(),
        ensures
            r == bracket_of(segment_candidates(self.semantic_segments@, *timestamp)),
    {
        let mut builder = LineBuilder::new();
        let n = self.semantic_segments.len();
        let mut i: usize = 0;
        while i < n
            invariant
                n == self.semantic_segments@.len(),
                i <= n,
                timestamp.wf(),
                tracks_before(
                    segment_candidates(self.semantic_segments@.take(i as int), *timestamp),
                    builder@.0,
                ),
                tracks_after(
                    segment_candidates(self.semantic_segments@.take(i as int), *timestamp),
                    builder@.1,
                ),
            decreases n - i,
        {
            let ghost before = segment_candidates(
                self.semantic_segments@.take(i as int),
                *timestamp,
            );
            assert(self.semantic_segments@.take(i + 1).drop_last()
                == self.semantic_segments@.take(i as int));
            match &self.semantic_segments[i] {
                SemanticSegment::Path { timeline_path } => {
                    let m = timeline_path.len();
                    let mut j: usize = 0;
                    while j < m
                        invariant
                            m == timeline_path@.len(),
                            j <= m,
                            timestamp.wf(),
                            tracks_before(
                                before + path_candidates(timeline_path@.take(j as int), *timestamp),
                                builder@.0,
                            ),
                            tracks_after(
                                before + path_candidates(timeline_path@.take(j as int), *timestamp),
                                builder@.1,
                            ),
                        decreases m - j,
                    {
                        let ghost seen = before + path_candidates(
                            timeline_path@.take(j as int),
                            *timestamp,
                        );
                        assert(timeline_path@.take(j + 1).drop_last() == timeline_path@.take(
                            j as int,
                        ));
                        let waypoint = &timeline_path[j];
                        let candidate = Point::from_timeline(
                            waypoint.point.as_str(),
                            &waypoint.time,
                            &None,
                            timestamp,
                        );
                        offer(&mut builder, candidate, Ghost(seen));
                        assert(seen + usable(candidate) == before + path_candidates(
                            timeline_path@.take(j + 1),
                            *timestamp,
                        ));
                        j += 1;
                    }
                    assert(timeline_path@.take(m as int) == timeline_path@);
                },
                _ => {
                    assert(before + seq![] == before);
                },
            }
            i += 1;
        }
        assert(self.semantic_segments@.take(n as int) == self.semantic_segments@);
        proof {
            lemma_tracks_nearest(
                segment_candidates(self.semantic_segments@, *timestamp),
                builder@.0,
                builder@.1,
            );
        }
        builder.build()
    }

    /// The position at `timestamp`: from the raw signals where they bracket
    /// it, else from the path segments, else `Unresolved`.
    pub fn get_point_at(&self, timestamp: &Instant) -> (r: Result<Point, GeoError>)
        requires
            timestamp.wf(),
        ensures
            r == located(*self, *timestamp),
    {
        let mut line = self.get_line_from_raw_signals(timestamp);
        if line.is_none() {
            line = self.get_line_from_semantic_segments(timestamp);
        }
        proof {
            lemma_selected_is_bracket(raw_signal_candidates(self.raw_signals@, *timestamp));
            lemma_selected_is_bracket(segment_candidates(self.semantic_segments@, *timestamp));
        }
        match line {
            Some(line) => Ok(line.interpolate(timestamp)),
            None => Err(GeoError::Unresolved),
        }
    }

    /// The position at `timestamp`, as `get_point_at` finds it, or `None`.
    pub fn get_location_at(&self, timestamp: &Instant) -> (r: Option<Point>)
        requires
            timestamp.wf(),
        ensures
            r == (match located(*self, *timestamp) {
                Ok(p) => Some(p),
                Err(_) => None,
            }),
    {
        match self.get_point_at(timestamp) {
            Ok(p) => Some(p),
            Err(_) => None,
        }
    }

    /// The position at `timestamp` between the two sides of a bracket given as
    /// a pair of optional observations; `None` when either side is missing. A
    /// pair whose sides share one offset gives the earlier side's coordinates.
    pub fn get_location_between_points(locations: &[Option<Point>; 2], timestamp: &Instant) -> (r:
        Option<Point>)
        requires
            locations@[0] is Some && locations@[1] is Some ==> locations@[0]->0.relative_seconds
                == locations@[1]->0.relative_seconds || (Line {
                start: locations@[0]->0,
                end: locations@[1]->0,
            }).is_bracket(),
        ensures
            r == (match (locations@[0], locations@[1]) {
                (Some(start), Some(end)) => Some(interpolated(Line { start, end }, *timestamp)),
                _ => None,
            }),
    {
        match (locations[0], locations[1]) {
            (Some(start), Some(end)) => Some(Line::new(start, end).interpolate(timestamp)),
            _ => None,
        }
    }
}

} // verus!
